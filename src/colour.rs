//! The colour mapper: escape counts to RGB colours through a cyclic gradient.
use vstd::prelude::*;

verus! {

/// The number of escape counts one band of the gradient spans.
pub const BAND_WIDTH: u32 = 256;

/// The colour of a pixel whose orbit never escaped; distinct from the black
/// of a pixel that was never computed.
pub const IN_SET: [u8; 3] = [1, 1, 1];

/// Rust's integer division, which rounds toward zero, of `a` by a positive `b`.
pub open spec fn div_toward_zero(a: int, b: int) -> int {
    if a >= 0 {
        a / b
    } else {
        -((-a) / b)
    }
}

/// One channel `c / 255` of the way from `start` to `end`, truncated.
pub open spec fn blend_channel(start: u8, end: u8, c: int) -> int {
    div_toward_zero((end - start) * c, 255) + start
}

/// The index of the band that escape count `i` falls in, for `n` stops.
pub open spec fn band_of(i: int, n: int) -> int {
    (i / BAND_WIDTH as int) % n
}

/// The colour of escape count `i` under the gradient through `scheme`: the
/// blend between the stop of its band and the next stop, cyclically.
pub open spec fn band_colour(scheme: Seq<[u8; 3]>, i: int) -> Seq<u8> {
    let n = scheme.len() as int;
    let c = i % BAND_WIDTH as int;
    let start = scheme[band_of(i, n)]@;
    let end = scheme[(band_of(i, n) + 1) % n]@;
    seq![
        blend_channel(start[0], end[0], c) as u8,
        blend_channel(start[1], end[1], c) as u8,
        blend_channel(start[2], end[2], c) as u8,
    ]
}

/// The colour a pixel gets from its escape count `i` when the iteration limit
/// is `max`: the in-set colour where the orbit never escaped.
pub open spec fn pixel_colour_of(scheme: Seq<[u8; 3]>, i: int, max: int) -> Seq<u8> {
    if i == max {
        IN_SET@
    } else {
        band_colour(scheme, i)
    }
}

/// One channel `c / 255` of the way from `start` to `end`, truncated toward
/// `start`.
fn blend(start: u8, end: u8, c: u32) -> (r: u8)
    requires
        c < BAND_WIDTH,
    ensures
        r as int == blend_channel(start, end, c as int),
{
    if end >= start {
        let diff: u32 = (end - start) as u32;
        assert(diff * c <= 255 * 255) by (nonlinear_arith)
            requires
                diff <= 255,
                c <= 255,
        ;
        let d: u32 = diff * c;
        proof {
            assert(d / 255 <= (end - start)) by (nonlinear_arith)
                requires
                    d == (end - start) * c,
                    c <= 255,
                    end >= start,
            ;
        }
        (d / 255 + start as u32) as u8
    } else {
        let diff: u32 = (start - end) as u32;
        assert(diff * c <= 255 * 255) by (nonlinear_arith)
            requires
                diff <= 255,
                c <= 255,
        ;
        let d: u32 = diff * c;
        proof {
            assert(d / 255 <= (start - end)) by (nonlinear_arith)
                requires
                    d == (start - end) * c,
                    c <= 255,
                    start > end,
            ;
            assert((end - start) * c == -(d as int)) by (nonlinear_arith)
                requires
                    d == (start - end) * c,
            ;
        }
        (start as u32 - d / 255) as u8
    }
}

/// Converts an escape count into a colour of the gradient through `scheme`:
/// the count's band picks a stop and the next one, and its place in the band
/// blends them.
pub fn colour_bands(scheme: &[[u8; 3]], i: u32) -> (r: [u8; 3])
    requires
        scheme@.len() > 0,
    ensures
        r@ == band_colour(scheme@, i as int),
{
    let c = i % BAND_WIDTH;
    let band = (i / BAND_WIDTH) as usize % scheme.len();
    let start = scheme[band];
    let end = if band + 1 >= scheme.len() {
        scheme[0]
    } else {
        scheme[band + 1]
    };
    proof {
        let n = scheme@.len() as int;
        assert(band as int == band_of(i as int, n));
        assert((band + 1) % n == if band + 1 >= n { 0 } else { band + 1 }) by (nonlinear_arith)
            requires
                0 <= band < n,
        ;
    }
    let r = [blend(start[0], end[0], c), blend(start[1], end[1], c), blend(start[2], end[2], c)];
    assert(r@ =~= band_colour(scheme@, i as int));
    r
}

/// The colour of a pixel with escape count `i` under iteration limit `max`.
pub fn pixel_colour(scheme: &[[u8; 3]], i: u32, max: u32) -> (r: [u8; 3])
    requires
        scheme@.len() > 0,
    ensures
        r@ == pixel_colour_of(scheme@, i as int, max as int),
{
    if i == max {
        IN_SET
    } else {
        colour_bands(scheme, i)
    }
}

/// At the first count of each band the gradient shows that band's stop
/// exactly, with no blending.
pub proof fn lemma_band_start_exact(scheme: Seq<[u8; 3]>, i: int)
    requires
        scheme.len() > 0,
        i >= 0,
        i % BAND_WIDTH as int == 0,
    ensures
        band_colour(scheme, i) == scheme[band_of(i, scheme.len() as int)]@,
{
    let start = scheme[band_of(i, scheme.len() as int)]@;
    assert(band_colour(scheme, i) =~= start);
}

} // verus!
