//! Image sections: rendering one tile, and gathering finished tiles into an
//! image.
use crate::colour::{pixel_colour, pixel_colour_of};
use crate::pixels::{black, blank, buffer_fits, pixels_of, rect, PixelBuffer};
use std::sync::mpsc::Receiver;
use vstd::arithmetic::div_mod::lemma_fundamental_div_mod_converse;
use vstd::prelude::*;

verus! {

/// The receiving end of a std `mpsc` channel, carried as an opaque value: a
/// worker only asks it whether a cancellation is waiting.
#[verifier::external_type_specification]
#[verifier::external_body]
#[verifier::reject_recursive_types(T)]
pub struct ExReceiver<T>(Receiver<T>);

/// A rendered tile: its pixels, and where its top left corner goes in the
/// whole image.
pub struct ImgSec {
    pub x: u32,
    pub y: u32,
    pub buf: PixelBuffer,
}

/// The place of tile-local pixel `p` in a scan that walks a tile `h` rows
/// high column by column.
pub open spec fn scan_index(p: (int, int), h: int) -> int {
    p.0 * h + p.1
}

/// Colour `c` is what the pixel at `(x, y)` gets from some escape count that
/// `escape` may return there.
pub open spec fn escape_colour<K: Fn(u32, u32) -> u32>(
    c: Seq<u8>,
    escape: K,
    x: int,
    y: int,
    scheme: Seq<[u8; 3]>,
    max: int,
) -> bool {
    exists|i: u32|
        #[trigger] escape.ensures((x as u32, y as u32), i) && c == pixel_colour_of(
            scheme,
            i as int,
            max,
        )
}

/// `pixels` is a tile from `(x1, y1)` up to `(x2, y2)` whose first `k` pixels
/// in scan order are coloured from `escape`, and whose other pixels are
/// still black.
pub open spec fn rendered<K: Fn(u32, u32) -> u32>(
    pixels: Map<(int, int), Seq<u8>>,
    x1: int,
    x2: int,
    y1: int,
    y2: int,
    scheme: Seq<[u8; 3]>,
    max: int,
    escape: K,
    k: int,
) -> bool {
    &&& pixels.dom() == rect(x2 - x1, y2 - y1)
    &&& forall|p: (int, int)|
        #![trigger pixels[p]]
        pixels.dom().contains(p) && scan_index(p, y2 - y1) < k ==> escape_colour(
            pixels[p],
            escape,
            x1 + p.0,
            y1 + p.1,
            scheme,
            max,
        )
    &&& forall|p: (int, int)|
        #![trigger pixels[p]]
        pixels.dom().contains(p) && scan_index(p, y2 - y1) >= k ==> pixels[p] == black()
}

/// Two pixels of a tile `h` rows high with the same place in the scan are
/// the same pixel.
proof fn lemma_scan_index_injective(p: (int, int), q: (int, int), h: int)
    requires
        0 <= p.1 < h,
        0 <= q.1 < h,
        scan_index(p, h) == scan_index(q, h),
    ensures
        p == q,
{
    lemma_fundamental_div_mod_converse(scan_index(p, h), h, p.0, p.1);
    lemma_fundamental_div_mod_converse(scan_index(q, h), h, q.0, q.1);
}

/// Relies on `Receiver::try_recv`, which never blocks: whether a message was
/// waiting. Another thread decides that, so nothing is promised of it.
#[verifier::external_body]
fn cancel_requested(recv_cancel: &Receiver<()>) -> (r: bool) {
    recv_cancel.try_recv().is_ok()
}

impl ImgSec {
    /// An all-black section for the tile from `(x1, y1)` up to `(x2, y2)`.
    fn new(x1: u32, x2: u32, y1: u32, y2: u32) -> (r: Self)
        requires
            x1 <= x2,
            y1 <= y2,
            buffer_fits(x2 - x1, y2 - y1),
        ensures
            r.x == x1,
            r.y == y1,
            pixels_of(r.buf) == blank(x2 - x1, y2 - y1),
    {
        ImgSec { x: x1, y: y1, buf: PixelBuffer::new_zeroed(x2 - x1, y2 - y1) }
    }

    /// Paints the pixel at image position `(x, y)` with the colour of escape
    /// count `i` under iteration limit `iterations`.
    pub fn paint(&mut self, x: u32, y: u32, i: u32, colours: &[[u8; 3]], iterations: u32)
        requires
            colours@.len() > 0,
            old(self).x <= x,
            old(self).y <= y,
            pixels_of(old(self).buf).dom().contains(
                ((x - old(self).x) as int, (y - old(self).y) as int),
            ),
        ensures
            final(self).x == old(self).x,
            final(self).y == old(self).y,
            pixels_of(final(self).buf) == pixels_of(old(self).buf).insert(
                ((x - old(self).x) as int, (y - old(self).y) as int),
                pixel_colour_of(colours@, i as int, iterations as int),
            ),
    {
        let c = pixel_colour(colours, i, iterations);
        self.buf.set(x - self.x, y - self.y, c);
    }
}

/// Renders the tile from `(x1, y1)` up to `(x2, y2)`, column by column: each
/// pixel gets the colour of the escape count that `escape` gives for it.
/// Before each pixel the worker checks `recv_cancel`; on a message it stops
/// and returns the section as far as it got, the rest still black.
pub fn gen<K: Fn(u32, u32) -> u32>(
    recv_cancel: Receiver<()>,
    x1: u32,
    x2: u32,
    y1: u32,
    y2: u32,
    colours: &[[u8; 3]],
    iterations: u32,
    escape: K,
) -> (img: ImgSec)
    requires
        x1 <= x2,
        y1 <= y2,
        buffer_fits(x2 - x1, y2 - y1),
        colours@.len() > 0,
        forall|x: u32, y: u32| #[trigger] escape.requires((x, y)),
    ensures
        img.x == x1,
        img.y == y1,
        exists|k: int|
            0 <= k <= (x2 - x1) * (y2 - y1) && #[trigger] rendered(
                pixels_of(img.buf),
                x1 as int,
                x2 as int,
                y1 as int,
                y2 as int,
                colours@,
                iterations as int,
                escape,
                k,
            ),
{
    let ghost h = (y2 - y1) as int;
    let ghost w = (x2 - x1) as int;
    let mut img = ImgSec::new(x1, x2, y1, y2);
    let mut x = x1;
    while x < x2
        invariant
            x1 <= x <= x2,
            y1 <= y2,
            h == y2 - y1,
            w == x2 - x1,
            img.x == x1,
            img.y == y1,
            colours@.len() > 0,
            forall|x: u32, y: u32| #[trigger] escape.requires((x, y)),
            rendered(
                pixels_of(img.buf),
                x1 as int,
                x2 as int,
                y1 as int,
                y2 as int,
                colours@,
                iterations as int,
                escape,
                (x - x1) * h,
            ),
        decreases x2 - x,
    {
        let mut y = y1;
        while y < y2
            invariant
                x1 <= x < x2,
                y1 <= y <= y2,
                h == y2 - y1,
                w == x2 - x1,
                img.x == x1,
                img.y == y1,
                colours@.len() > 0,
                forall|x: u32, y: u32| #[trigger] escape.requires((x, y)),
                rendered(
                    pixels_of(img.buf),
                    x1 as int,
                    x2 as int,
                    y1 as int,
                    y2 as int,
                    colours@,
                    iterations as int,
                    escape,
                    (x - x1) * h + (y - y1),
                ),
            decreases y2 - y,
        {
            let ghost k = (x - x1) * h + (y - y1);
            assert(0 <= k <= w * h) by (nonlinear_arith)
                requires
                    k == (x - x1) * h + (y - y1),
                    0 <= x - x1 < w,
                    0 <= y - y1 < h,
            ;
            if cancel_requested(&recv_cancel) {
                return img;
            }
            let i = escape(x, y);
            let ghost here = ((x - x1) as int, (y - y1) as int);
            img.paint(x, y, i, colours, iterations);
            proof {
                let after = pixels_of(img.buf);
                assert(((x as int) as u32, (y as int) as u32) == (x, y));
                assert(escape.ensures(((x as int) as u32, (y as int) as u32), i));
                assert(after[here] == pixel_colour_of(colours@, i as int, iterations as int));
                assert(escape_colour(after[here], escape, x as int, y as int, colours@, iterations as int));
                assert(scan_index(here, h) == k);
                assert forall|p: (int, int)| after.dom().contains(p) && p != here implies scan_index(p, h) != k by {
                    if scan_index(p, h) == k {
                        lemma_scan_index_injective(p, here, h);
                    }
                }
                assert(after.dom() =~= rect(w, h));
            }
            y = y + 1;
        }
        assert((x - x1) * h + h == (x + 1 - x1) * h) by (nonlinear_arith);
        x = x + 1;
    }
    assert((x2 - x1) * h == w * h);
    img
}

/// Rendering a tile to its last pixel twice, with an escape function that
/// gives one count per pixel, yields the same pixels both times.
pub proof fn lemma_render_repeatable<K: Fn(u32, u32) -> u32>(
    a: Map<(int, int), Seq<u8>>,
    b: Map<(int, int), Seq<u8>>,
    x1: int,
    x2: int,
    y1: int,
    y2: int,
    scheme: Seq<[u8; 3]>,
    max: int,
    escape: K,
)
    requires
        x1 <= x2,
        y1 <= y2,
        forall|x: u32, y: u32, i: u32, j: u32|
            #[trigger] escape.ensures((x, y), i) && #[trigger] escape.ensures((x, y), j) ==> i == j,
        rendered(a, x1, x2, y1, y2, scheme, max, escape, (x2 - x1) * (y2 - y1)),
        rendered(b, x1, x2, y1, y2, scheme, max, escape, (x2 - x1) * (y2 - y1)),
    ensures
        a == b,
{
    let h = y2 - y1;
    let w = x2 - x1;
    assert forall|p: (int, int)| a.dom().contains(p) implies a[p] == b[p] by {
        assert(scan_index(p, h) < w * h) by (nonlinear_arith)
            requires
                0 <= p.0 < w,
                0 <= p.1 < h,
        ;
        assert(escape_colour(a[p], escape, x1 + p.0, y1 + p.1, scheme, max));
        assert(escape_colour(b[p], escape, x1 + p.0, y1 + p.1, scheme, max));
    }
    assert(a =~= b);
}

/// `base` with the section `sec` copied over it, the section's top left
/// corner at `(ox, oy)`.
pub open spec fn placed(
    base: Map<(int, int), Seq<u8>>,
    ox: int,
    oy: int,
    sec: Map<(int, int), Seq<u8>>,
) -> Map<(int, int), Seq<u8>> {
    Map::new(
        |q: (int, int)| base.dom().contains(q),
        |q: (int, int)|
            if sec.dom().contains((q.0 - ox, q.1 - oy)) {
                sec[(q.0 - ox, q.1 - oy)]
            } else {
                base[q]
            },
    )
}

/// Every pixel of section `sec` lands inside an image with positions `dom`.
pub open spec fn section_fits(dom: Set<(int, int)>, sec: ImgSec) -> bool {
    forall|p: (int, int)|
        #[trigger] pixels_of(sec.buf).dom().contains(p) ==> dom.contains(
            (p.0 + sec.x, p.1 + sec.y),
        )
}

/// `base` with the sections `secs` copied over it, one after another.
pub open spec fn placed_all(base: Map<(int, int), Seq<u8>>, secs: Seq<ImgSec>) -> Map<
    (int, int),
    Seq<u8>,
>
    decreases secs.len(),
{
    if secs.len() == 0 {
        base
    } else {
        let last = secs.last();
        placed(placed_all(base, secs.drop_last()), last.x as int, last.y as int, pixels_of(last.buf))
    }
}

/// `base` with the first `k` pixels in scan order of the section `sec`, `h`
/// rows high, copied over it.
spec fn placed_upto(
    base: Map<(int, int), Seq<u8>>,
    ox: int,
    oy: int,
    sec: Map<(int, int), Seq<u8>>,
    h: int,
    k: int,
) -> Map<(int, int), Seq<u8>> {
    Map::new(
        |q: (int, int)| base.dom().contains(q),
        |q: (int, int)|
            if sec.dom().contains((q.0 - ox, q.1 - oy)) && scan_index((q.0 - ox, q.1 - oy), h) < k {
                sec[(q.0 - ox, q.1 - oy)]
            } else {
                base[q]
            },
    )
}

/// Copies every pixel of `sec` into `imgbuf`, shifted by the section's
/// offset.
fn place_section(imgbuf: &mut PixelBuffer, sec: &ImgSec)
    requires
        section_fits(pixels_of(*old(imgbuf)).dom(), *sec),
    ensures
        pixels_of(*final(imgbuf)) == placed(
            pixels_of(*old(imgbuf)),
            sec.x as int,
            sec.y as int,
            pixels_of(sec.buf),
        ),
{
    let ghost base = pixels_of(*imgbuf);
    let ghost sp = pixels_of(sec.buf);
    let (w, h) = sec.buf.size();
    let (dw, dh) = imgbuf.size();
    assert(placed_upto(base, sec.x as int, sec.y as int, sp, h as int, 0) =~= base);
    let mut lx: u32 = 0;
    while lx < w
        invariant
            lx <= w,
            sp == pixels_of(sec.buf),
            sp.dom() == rect(w as int, h as int),
            base.dom() == rect(dw as int, dh as int),
            section_fits(base.dom(), *sec),
            pixels_of(*imgbuf) == placed_upto(base, sec.x as int, sec.y as int, sp, h as int, lx * h),
        decreases w - lx,
    {
        let mut ly: u32 = 0;
        while ly < h
            invariant
                lx < w,
                ly <= h,
                sp == pixels_of(sec.buf),
                sp.dom() == rect(w as int, h as int),
                base.dom() == rect(dw as int, dh as int),
                section_fits(base.dom(), *sec),
                pixels_of(*imgbuf) == placed_upto(
                    base,
                    sec.x as int,
                    sec.y as int,
                    sp,
                    h as int,
                    lx * h + ly,
                ),
            decreases h - ly,
        {
            let ghost here = (lx as int, ly as int);
            let ghost k = lx * h + ly;
            assert(sp.dom().contains(here));
            let c = sec.buf.get(lx, ly);
            imgbuf.set(lx + sec.x, ly + sec.y, c);
            proof {
                let after = pixels_of(*imgbuf);
                let next = placed_upto(base, sec.x as int, sec.y as int, sp, h as int, k + 1);
                assert forall|q: (int, int)| #[trigger] after.dom().contains(q) implies after[q] == next[q] by {
                    let p = (q.0 - sec.x, q.1 - sec.y);
                    if p != here && sp.dom().contains(p) && scan_index(p, h as int) == k {
                        lemma_scan_index_injective(p, here, h as int);
                    }
                }
                assert(after =~= next);
            }
            ly = ly + 1;
        }
        assert(lx * h + h == (lx + 1) * h) by (nonlinear_arith);
        lx = lx + 1;
    }
    proof {
        let fin = placed_upto(base, sec.x as int, sec.y as int, sp, h as int, w * h);
        let target = placed(base, sec.x as int, sec.y as int, sp);
        assert forall|q: (int, int)| #[trigger] fin.dom().contains(q) implies fin[q] == target[q] by {
            let p = (q.0 - sec.x, q.1 - sec.y);
            if sp.dom().contains(p) {
                assert(scan_index(p, h as int) < w * h) by (nonlinear_arith)
                    requires
                        0 <= p.0 < w,
                        0 <= p.1 < h,
                ;
            }
        }
        assert(fin =~= target);
    }
}

/// Writes each finished section into `imgbuf` at its offset, in the order
/// the sections come.
pub fn receive_imgbuf(receiver: Vec<ImgSec>, imgbuf: &mut PixelBuffer)
    requires
        forall|s: int|
            0 <= s < receiver@.len() ==> section_fits(
                pixels_of(*old(imgbuf)).dom(),
                #[trigger] receiver@[s],
            ),
    ensures
        pixels_of(*final(imgbuf)) == placed_all(pixels_of(*old(imgbuf)), receiver@),
{
    let ghost base = pixels_of(*imgbuf);
    let mut s: usize = 0;
    while s < receiver.len()
        invariant
            s <= receiver@.len(),
            pixels_of(*imgbuf).dom() == base.dom(),
            forall|t: int|
                0 <= t < receiver@.len() ==> section_fits(base.dom(), #[trigger] receiver@[t]),
            pixels_of(*imgbuf) == placed_all(base, receiver@.subrange(0, s as int)),
        decreases receiver@.len() - s,
    {
        let ghost before = pixels_of(*imgbuf);
        place_section(imgbuf, &receiver[s]);
        proof {
            let done = receiver@.subrange(0, s as int + 1);
            assert(done.drop_last() =~= receiver@.subrange(0, s as int));
            assert(placed(before, receiver@[s as int].x as int, receiver@[s as int].y as int, pixels_of(receiver@[s as int].buf)).dom() =~= before.dom());
        }
        s = s + 1;
    }
    assert(receiver@.subrange(0, receiver@.len() as int) =~= receiver@);
}

} // verus!
