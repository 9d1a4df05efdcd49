//! The tile partitioner: splits an image into a grid of one tile per worker.
use vstd::arithmetic::div_mod::{lemma_fundamental_div_mod, lemma_fundamental_div_mod_converse};
use crate::pixels::in_rect;
use vstd::prelude::*;

verus! {

/// The number of tiles along the second axis that the grid leans toward.
pub const PREFERRED_ROWS: u32 = 4;

/// A rectangle of the image, from column `x1` up to but not including `x2`
/// and from row `y1` up to but not including `y2`.
#[derive(Clone, Copy, Debug, PartialEq, Eq, Structural)]
pub struct Tile {
    pub x1: u32,
    pub x2: u32,
    pub y1: u32,
    pub y2: u32,
}

/// Whether pixel `p` lies in the rectangle `t` given as `(x1, x2, y1, y2)`.
pub open spec fn bounds_contain(t: (int, int, int, int), p: (int, int)) -> bool {
    t.0 <= p.0 < t.1 && t.2 <= p.1 < t.3
}

impl Tile {
    /// The tile's bounds as `(x1, x2, y1, y2)`.
    pub open spec fn bounds(self) -> (int, int, int, int) {
        (self.x1 as int, self.x2 as int, self.y1 as int, self.y2 as int)
    }
}

/// How far a grid of `xm` columns for `n` tiles is from the preferred number
/// of rows.
pub open spec fn grid_cost(n: int, xm: int) -> int {
    let rows = n / xm;
    if rows >= PREFERRED_ROWS as int {
        rows - PREFERRED_ROWS as int
    } else {
        PREFERRED_ROWS as int - rows
    }
}

/// The first divisor of `n` among `1..=k` whose grid costs least.
pub open spec fn best_columns(n: int, k: int) -> int
    decreases k,
{
    if k <= 1 {
        1
    } else {
        let b = best_columns(n, k - 1);
        if n % k == 0 && grid_cost(n, k) < grid_cost(n, b) {
            k
        } else {
            b
        }
    }
}

/// The number of columns of the grid for `n` tiles.
pub open spec fn grid_columns(n: int) -> int {
    best_columns(n, n)
}

/// The number of rows of the grid for `n` tiles.
pub open spec fn grid_rows(n: int) -> int {
    n / grid_columns(n)
}

/// The bounds of tile number `i` of a `width` by `height` image split into
/// `n` tiles: the grid is walked column by column, and every tile has the
/// width and height of a grid cell, rounded down.
pub open spec fn tile_bounds(width: int, height: int, n: int, i: int) -> (int, int, int, int) {
    let xm = grid_columns(n);
    let ym = grid_rows(n);
    let sx = width / xm;
    let sy = height / ym;
    let x = i / ym;
    let y = i % ym;
    (x * sx, x * sx + sx, y * sy, y * sy + sy)
}

/// `best_columns(n, k)` divides `n` and is the first of the divisors up to `k`
/// with the least cost.
proof fn lemma_best_columns(n: int, k: int)
    requires
        n >= 1,
        k >= 1,
    ensures
        1 <= best_columns(n, k) <= k,
        n % best_columns(n, k) == 0,
        forall|d: int|
            1 <= d <= k && n % d == 0 ==> grid_cost(n, best_columns(n, k)) <= #[trigger] grid_cost(n, d),
        forall|d: int|
            1 <= d < best_columns(n, k) && n % d == 0 ==> grid_cost(n, best_columns(n, k))
                < #[trigger] grid_cost(n, d),
    decreases k,
{
    if k > 1 {
        lemma_best_columns(n, k - 1);
    }
}

/// The cost of a grid of `xm` columns for `n` tiles.
fn cost(n: u32, xm: u32) -> (r: u32)
    requires
        xm >= 1,
    ensures
        r as int == grid_cost(n as int, xm as int),
{
    let rows = n / xm;
    if rows >= PREFERRED_ROWS {
        rows - PREFERRED_ROWS
    } else {
        PREFERRED_ROWS - rows
    }
}

/// Chooses the grid for `n` tiles: `(xm, ym)` with `xm * ym == n`, where
/// `xm` is the divisor of `n` that brings `ym` nearest to the preferred
/// number of rows, the smallest such divisor on a tie.
pub fn grid(n: u32) -> (r: (u32, u32))
    requires
        n >= 1,
    ensures
        r.0 as int == grid_columns(n as int),
        r.1 as int == grid_rows(n as int),
        1 <= r.0 <= n,
        r.1 >= 1,
        r.0 * r.1 == n,
        forall|d: int|
            1 <= d <= n && (n as int) % d == 0 ==> grid_cost(n as int, r.0 as int)
                <= #[trigger] grid_cost(n as int, d),
        forall|d: int|
            1 <= d < r.0 && (n as int) % d == 0 ==> grid_cost(n as int, r.0 as int)
                < #[trigger] grid_cost(n as int, d),
{
    let mut xm: u32 = 1;
    let mut k: u32 = 1;
    while k < n
        invariant
            1 <= k <= n,
            xm as int == best_columns(n as int, k as int),
        decreases n - k,
    {
        k = k + 1;
        proof {
            lemma_best_columns(n as int, (k - 1) as int);
        }
        if n % k == 0 && cost(n, k) < cost(n, xm) {
            xm = k;
        }
    }
    proof {
        lemma_best_columns(n as int, n as int);
        lemma_fundamental_div_mod(n as int, xm as int);
        assert(n / xm >= 1) by (nonlinear_arith)
            requires
                n == xm * (n / xm),
                n >= 1,
                xm >= 1,
        ;
    }
    (xm, n / xm)
}

/// Splits a `width` by `height` image into one tile per worker for `n`
/// workers, laid out on the grid that `grid` chooses, column by column.
pub fn partition(width: u32, height: u32, n: u32) -> (tiles: Vec<Tile>)
    requires
        n >= 1,
    ensures
        tiles@.len() == n,
        forall|i: int| 0 <= i < n ==> #[trigger] tiles@[i].bounds() == tile_bounds(
            width as int,
            height as int,
            n as int,
            i,
        ),
{
    let (xm, ym) = grid(n);
    let sx = width / xm;
    let sy = height / ym;
    proof {
        assert(xm * sx <= width) by (nonlinear_arith)
            requires
                sx == width / xm,
                xm >= 1,
        ;
        assert(ym * sy <= height) by (nonlinear_arith)
            requires
                sy == height / ym,
                ym >= 1,
        ;
    }
    let mut tiles: Vec<Tile> = Vec::new();
    let mut x: u32 = 0;
    while x < xm
        invariant
            x <= xm,
            xm * ym == n,
            xm as int == grid_columns(n as int),
            ym as int == grid_rows(n as int),
            sx == width / xm,
            sy == height / ym,
            xm * sx <= width,
            ym * sy <= height,
            tiles@.len() == x * ym,
            forall|i: int| 0 <= i < x * ym ==> #[trigger] tiles@[i].bounds() == tile_bounds(
                width as int,
                height as int,
                n as int,
                i,
            ),
        decreases xm - x,
    {
        assert((x + 1) * sx <= xm * sx) by (nonlinear_arith)
            requires
                x < xm,
        ;
        let mut y: u32 = 0;
        while y < ym
            invariant
                x < xm,
                y <= ym,
                xm * ym == n,
                xm as int == grid_columns(n as int),
                ym as int == grid_rows(n as int),
                sx == width / xm,
                sy == height / ym,
                (x + 1) * sx <= width,
                ym * sy <= height,
                tiles@.len() == x * ym + y,
                forall|i: int| 0 <= i < x * ym + y ==> #[trigger] tiles@[i].bounds() == tile_bounds(
                    width as int,
                    height as int,
                    n as int,
                    i,
                ),
            decreases ym - y,
        {
            assert((y + 1) * sy <= ym * sy) by (nonlinear_arith)
                requires
                    y < ym,
            ;
            assert(x * sx + sx == (x + 1) * sx) by (nonlinear_arith);
            assert(y * sy + sy == (y + 1) * sy) by (nonlinear_arith);
            let t = Tile { x1: x * sx, x2: x * sx + sx, y1: y * sy, y2: y * sy + sy };
            proof {
                lemma_fundamental_div_mod_converse((x * ym + y) as int, ym as int, x as int, y as int);
            }
            tiles.push(t);
            y = y + 1;
        }
        assert(x * ym + ym == (x + 1) * ym) by (nonlinear_arith);
        x = x + 1;
    }
    assert(xm * ym == n);
    tiles
}

/// The column and row of tile `i` in a grid of `ym` rows, and the facts about
/// them that the laws below use.
proof fn lemma_tile_cell(n: int, i: int)
    requires
        n >= 1,
        0 <= i < n,
    ensures
        0 <= i / grid_rows(n) < grid_columns(n),
        0 <= i % grid_rows(n) < grid_rows(n),
        i == (i / grid_rows(n)) * grid_rows(n) + i % grid_rows(n),
{
    lemma_best_columns(n, n);
    let xm = grid_columns(n);
    let ym = grid_rows(n);
    lemma_fundamental_div_mod(n, xm);
    assert(ym >= 1) by (nonlinear_arith)
        requires
            n == xm * ym,
            n >= 1,
            xm >= 1,
    ;
    lemma_fundamental_div_mod(i, ym);
    assert(i / ym < xm) by (nonlinear_arith)
        requires
            i == ym * (i / ym) + i % ym,
            0 <= i % ym,
            i < n,
            n == xm * ym,
            ym >= 1,
    ;
    assert(i / ym >= 0) by (nonlinear_arith)
        requires
            i >= 0,
            ym >= 1,
    ;
}

/// Every tile lies inside the image, and no pixel lies in two tiles.
pub proof fn lemma_tiles_disjoint(width: int, height: int, n: int)
    requires
        width >= 0,
        height >= 0,
        n >= 1,
    ensures
        forall|i: int, p: (int, int)|
            0 <= i < n && #[trigger] bounds_contain(tile_bounds(width, height, n, i), p)
                ==> in_rect(width, height, p),
        forall|i: int, j: int, p: (int, int)|
            0 <= i < n && 0 <= j < n && i != j && #[trigger] bounds_contain(
                tile_bounds(width, height, n, i),
                p,
            ) ==> !#[trigger] bounds_contain(tile_bounds(width, height, n, j), p),
{
    lemma_best_columns(n, n);
    let xm = grid_columns(n);
    let ym = grid_rows(n);
    let sx = width / xm;
    let sy = height / ym;
    lemma_fundamental_div_mod(n, xm);
    assert(ym >= 1) by (nonlinear_arith)
        requires
            n == xm * ym,
            n >= 1,
            xm >= 1,
    ;
    assert(xm * sx <= width && sx >= 0) by (nonlinear_arith)
        requires
            sx == width / xm,
            xm >= 1,
            width >= 0,
    ;
    assert(ym * sy <= height && sy >= 0) by (nonlinear_arith)
        requires
            sy == height / ym,
            ym >= 1,
            height >= 0,
    ;
    assert forall|i: int, p: (int, int)|
        0 <= i < n && #[trigger] bounds_contain(tile_bounds(width, height, n, i), p) implies in_rect(
        width,
        height,
        p,
    ) by {
        lemma_tile_cell(n, i);
        let x = i / ym;
        let y = i % ym;
        assert(x * sx >= 0 && x * sx + sx <= xm * sx) by (nonlinear_arith)
            requires
                0 <= x < xm,
                sx >= 0,
        ;
        assert(y * sy >= 0 && y * sy + sy <= ym * sy) by (nonlinear_arith)
            requires
                0 <= y < ym,
                sy >= 0,
        ;
    }
    assert forall|i: int, j: int, p: (int, int)|
        0 <= i < n && 0 <= j < n && i != j && #[trigger] bounds_contain(
            tile_bounds(width, height, n, i),
            p,
        ) implies !#[trigger] bounds_contain(tile_bounds(width, height, n, j), p) by {
        lemma_tile_cell(n, i);
        lemma_tile_cell(n, j);
        let (xi, yi, xj, yj) = (i / ym, i % ym, j / ym, j % ym);
        if bounds_contain(tile_bounds(width, height, n, j), p) {
            if xi != xj {
                assert(false) by (nonlinear_arith)
                    requires
                        xi != xj,
                        sx >= 0,
                        xi * sx <= p.0 < xi * sx + sx,
                        xj * sx <= p.0 < xj * sx + sx,
                ;
            } else {
                assert(yi != yj);
                assert(false) by (nonlinear_arith)
                    requires
                        yi != yj,
                        sy >= 0,
                        yi * sy <= p.1 < yi * sy + sy,
                        yj * sy <= p.1 < yj * sy + sy,
                ;
            }
        }
    }
}

/// Where the grid's columns divide the width and its rows the height, every
/// pixel of the image lies in a tile: the one returned.
pub proof fn lemma_tiles_cover(width: int, height: int, n: int, p: (int, int)) -> (i: int)
    requires
        n >= 1,
        width % grid_columns(n) == 0,
        height % grid_rows(n) == 0,
        in_rect(width, height, p),
    ensures
        0 <= i < n,
        bounds_contain(tile_bounds(width, height, n, i), p),
{
    lemma_best_columns(n, n);
    let xm = grid_columns(n);
    let ym = grid_rows(n);
    let sx = width / xm;
    let sy = height / ym;
    lemma_fundamental_div_mod(n, xm);
    assert(ym >= 1) by (nonlinear_arith)
        requires
            n == xm * ym,
            n >= 1,
            xm >= 1,
    ;
    lemma_fundamental_div_mod(width, xm);
    lemma_fundamental_div_mod(height, ym);
    assert(sx >= 1) by (nonlinear_arith)
        requires
            width == xm * sx,
            xm >= 1,
            width > p.0 >= 0,
    ;
    assert(sy >= 1) by (nonlinear_arith)
        requires
            height == ym * sy,
            ym >= 1,
            height > p.1 >= 0,
    ;
    let x = p.0 / sx;
    let y = p.1 / sy;
    lemma_fundamental_div_mod(p.0, sx);
    lemma_fundamental_div_mod(p.1, sy);
    assert(0 <= x < xm && x * sx <= p.0 < x * sx + sx) by (nonlinear_arith)
        requires
            p.0 == sx * x + p.0 % sx,
            0 <= p.0 % sx < sx,
            0 <= p.0 < width,
            width == xm * sx,
    ;
    assert(0 <= y < ym && y * sy <= p.1 < y * sy + sy) by (nonlinear_arith)
        requires
            p.1 == sy * y + p.1 % sy,
            0 <= p.1 % sy < sy,
            0 <= p.1 < height,
            height == ym * sy,
    ;
    let i = x * ym + y;
    assert(0 <= i < n) by (nonlinear_arith)
        requires
            0 <= x < xm,
            0 <= y < ym,
            i == x * ym + y,
            n == xm * ym,
    ;
    lemma_fundamental_div_mod_converse(i, ym, x, y);
    i
}

} // verus!
