//! An RGB pixel buffer backed by the image crate.
//!
//! A buffer is modelled by the map from each of its pixel positions `(x, y)`
//! to the red, green and blue channels of the pixel there.
use image::{ImageBuffer, Rgb};
use vstd::prelude::*;

verus! {

/// An RGB image with eight bits per channel, held in the image crate's
/// `ImageBuffer`. Verus sees only `pixels_of` of it, through the methods
/// below that each rely on one `ImageBuffer` method.
#[verifier::external_body]
pub struct PixelBuffer {
    image: ImageBuffer<Rgb<u8>, Vec<u8>>,
}

/// What a buffer holds: its pixel positions, each mapped to the pixel's three
/// channels.
pub uninterp spec fn pixels_of(b: PixelBuffer) -> Map<(int, int), Seq<u8>>;

/// The positions of a `width` by `height` image.
pub open spec fn in_rect(width: int, height: int, p: (int, int)) -> bool {
    0 <= p.0 < width && 0 <= p.1 < height
}

/// The set of positions of a `width` by `height` image.
pub open spec fn rect(width: int, height: int) -> Set<(int, int)> {
    Set::new(|p: (int, int)| in_rect(width, height, p))
}

/// The colour every pixel of a new buffer has.
pub open spec fn black() -> Seq<u8> {
    seq![0u8, 0u8, 0u8]
}

/// The pixels of a new `width` by `height` buffer.
pub open spec fn blank(width: int, height: int) -> Map<(int, int), Seq<u8>> {
    Map::new(|p: (int, int)| in_rect(width, height, p), |p: (int, int)| black())
}

/// The number of bytes a `width` by `height` buffer takes fits in `usize`.
pub open spec fn buffer_fits(width: int, height: int) -> bool {
    3 * width * height <= usize::MAX
}

impl PixelBuffer {
    /// Relies on `ImageBuffer::new`: a buffer of the given size whose channels
    /// are all zero. It panics where the byte count overflows `usize`.
    #[verifier::external_body]
    pub(crate) fn new_zeroed(width: u32, height: u32) -> (b: PixelBuffer)
        requires
            buffer_fits(width as int, height as int),
        ensures
            pixels_of(b) == blank(width as int, height as int),
    {
        PixelBuffer { image: ImageBuffer::new(width, height) }
    }

    /// Relies on `ImageBuffer::put_pixel`: the pixel at `(x, y)` is replaced
    /// and no other. It panics where `(x, y)` lies outside the buffer.
    #[verifier::external_body]
    pub(crate) fn set(&mut self, x: u32, y: u32, c: [u8; 3])
        requires
            pixels_of(*old(self)).dom().contains((x as int, y as int)),
        ensures
            pixels_of(*final(self)) == pixels_of(*old(self)).insert((x as int, y as int), c@),
    {
        self.image.put_pixel(x, y, Rgb(c))
    }

    /// Relies on `ImageBuffer::get_pixel`: the channels of the pixel at
    /// `(x, y)`. It panics where `(x, y)` lies outside the buffer.
    #[verifier::external_body]
    pub(crate) fn get(&self, x: u32, y: u32) -> (c: [u8; 3])
        requires
            pixels_of(*self).dom().contains((x as int, y as int)),
        ensures
            c@ == pixels_of(*self)[(x as int, y as int)],
    {
        self.image.get_pixel(x, y).0
    }

    /// Relies on `ImageBuffer::dimensions`: the width and height of the buffer.
    #[verifier::external_body]
    pub(crate) fn size(&self) -> (r: (u32, u32))
        ensures
            pixels_of(*self).dom() == rect(r.0 as int, r.1 as int),
    {
        self.image.dimensions()
    }
}

impl PixelBuffer {
    /// A black `width` by `height` buffer, or `None` where its bytes would
    /// not fit in memory's address range.
    pub fn new(width: u32, height: u32) -> (r: Option<PixelBuffer>)
        ensures
            r is Some <==> buffer_fits(width as int, height as int),
            r matches Some(b) ==> pixels_of(b) == blank(width as int, height as int),
    {
        assert(width * height <= 0xffff_ffff * 0xffff_ffff) by (nonlinear_arith)
            requires
                width <= 0xffff_ffff,
                height <= 0xffff_ffff,
        ;
        let area = (width as u128) * (height as u128);
        let bytes = area * 3;
        assert(bytes == 3 * width * height) by (nonlinear_arith)
            requires
                area == width * height,
                bytes == area * 3,
        ;
        if bytes <= usize::MAX as u128 {
            Some(PixelBuffer::new_zeroed(width, height))
        } else {
            None
        }
    }

    /// The buffer's width and height.
    pub fn dimensions(&self) -> (r: (u32, u32))
        ensures
            pixels_of(*self).dom() == rect(r.0 as int, r.1 as int),
    {
        self.size()
    }

    /// The channels of the pixel at `(x, y)`, or `None` outside the buffer.
    pub fn pixel(&self, x: u32, y: u32) -> (r: Option<[u8; 3]>)
        ensures
            r is Some <==> pixels_of(*self).dom().contains((x as int, y as int)),
            r matches Some(c) ==> c@ == pixels_of(*self)[(x as int, y as int)],
    {
        let (w, h) = self.size();
        if x < w && y < h {
            Some(self.get(x, y))
        } else {
            None
        }
    }

    /// The buffer's bytes, row after row, three channels per pixel.
    pub fn to_raw(&self) -> (r: Vec<u8>)
        ensures
            exists|w: int, h: int|
                {
                    &&& pixels_of(*self).dom() == rect(w, h)
                    &&& r@.len() == 3 * w * h
                    &&& forall|x: int, y: int, c: int|
                        #![trigger pixels_of(*self)[(x, y)][c]]
                        0 <= x < w && 0 <= y < h && 0 <= c < 3 ==> r@[3 * (y * w + x) + c]
                            == pixels_of(*self)[(x, y)][c]
                },
    {
        let (w, h) = self.size();
        let ghost px = pixels_of(*self);
        let mut raw: Vec<u8> = Vec::new();
        let mut y: u32 = 0;
        while y < h
            invariant
                y <= h,
                px == pixels_of(*self),
                px.dom() == rect(w as int, h as int),
                raw@.len() == 3 * (y * w),
                forall|x: int, yy: int, c: int|
                    #![trigger px[(x, yy)][c]]
                    0 <= x < w && 0 <= yy < y && 0 <= c < 3 ==> raw@[3 * (yy * w + x) + c] == px[(
                        x,
                        yy,
                    )][c],
            decreases h - y,
        {
            let mut x: u32 = 0;
            while x < w
                invariant
                    y < h,
                    x <= w,
                    px == pixels_of(*self),
                    px.dom() == rect(w as int, h as int),
                    raw@.len() == 3 * (y * w + x),
                    forall|xx: int, yy: int, c: int|
                        #![trigger px[(xx, yy)][c]]
                        0 <= xx < w && 0 <= yy < y && 0 <= c < 3 ==> raw@[3 * (yy * w + xx) + c]
                            == px[(xx, yy)][c],
                    forall|xx: int, c: int|
                        #![trigger px[(xx, y as int)][c]]
                        0 <= xx < x && 0 <= c < 3 ==> raw@[3 * (y * w + xx) + c] == px[(
                            xx,
                            y as int,
                        )][c],
                decreases w - x,
            {
                let c = self.get(x, y);
                raw.push(c[0]);
                raw.push(c[1]);
                raw.push(c[2]);
                proof {
                    assert forall|xx: int, yy: int, ch: int|
                        #![trigger px[(xx, yy)][ch]]
                        0 <= xx < w && 0 <= yy < y && 0 <= ch < 3 implies raw@[3 * (yy * w + xx) + ch]
                            == px[(xx, yy)][ch] by {
                        assert(3 * (yy * w + xx) + ch < 3 * (y * w)) by (nonlinear_arith)
                            requires
                                0 <= xx < w,
                                0 <= yy < y,
                                0 <= ch < 3,
                        ;
                    }
                }
                x = x + 1;
            }
            assert(y * w + w == (y + 1) * w) by (nonlinear_arith);
            y = y + 1;
        }
        assert(3 * (h * w) == 3 * w * h) by (nonlinear_arith);
        assert(pixels_of(*self).dom() == rect(w as int, h as int));
        raw
    }
}

} // verus!
