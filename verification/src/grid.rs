//! Rectangular grids stored row by row, and their dilation by rectangles.

use vstd::arithmetic::div_mod::*;
use vstd::prelude::*;

verus! {

/// The cell in column `x` of row `y` is set.
pub open spec fn lit(grid: Seq<bool>, w: int, x: int, y: int) -> bool {
    grid[y * w + x]
}

/// Some set cell lies within `rx` columns and `ry` rows of `(x, y)`.
pub open spec fn touched(
    grid: Seq<bool>,
    w: int,
    h: int,
    rx: int,
    ry: int,
    x: int,
    y: int,
) -> bool {
    exists|sx: int, sy: int|
        {
            &&& 0 <= sx < w
            &&& 0 <= sy < h
            &&& x - rx <= sx <= x + rx
            &&& y - ry <= sy <= y + ry
            &&& #[trigger] lit(grid, w, sx, sy)
        }
}

/// The grid grown by a rectangle that reaches `rx` columns and `ry` rows.
pub open spec fn dilated(grid: Seq<bool>, w: int, h: int, rx: int, ry: int) -> Seq<bool> {
    Seq::new((w * h) as nat, |i: int| touched(grid, w, h, rx, ry, i % w, i / w))
}

/// A cell's position in the row-by-row order.
pub proof fn lemma_cell(w: int, h: int, x: int, y: int)
    requires
        0 <= x < w,
        0 <= y < h,
    ensures
        0 <= y * w + x < w * h,
        0 <= y * w,
        (y + 1) * w <= w * h,
        (y + 1) * w == y * w + w,
        (y * w + x) / w == y,
        (y * w + x) % w == x,
{
    assert(0 <= y * w && y * w + x < w * h && (y + 1) * w <= w * h && (y + 1) * w == y * w + w)
        by (nonlinear_arith)
        requires
            0 <= x < w,
            0 <= y,
            y + 1 <= h,
    ;
    lemma_fundamental_div_mod_converse(y * w + x, w, y, x);
}

/// The column and the row of a position.
pub proof fn lemma_position(w: int, h: int, i: int)
    requires
        0 <= i < w * h,
        0 <= w,
        0 <= h,
    ensures
        0 < w,
        0 <= i % w < w,
        0 <= i / w < h,
        (i / w) * w + i % w == i,
{
    assert(w > 0) by (nonlinear_arith)
        requires
            0 <= i < w * h,
            0 <= w,
    ;
    lemma_fundamental_div_mod(i, w);
    lemma_mod_bound(i, w);
    lemma_div_pos_is_pos(i, w);
    assert(i / w < h) by (nonlinear_arith)
        requires
            i == w * (i / w) + i % w,
            0 <= i % w,
            i < w * h,
            w > 0,
    ;
    assert((i / w) * w == w * (i / w)) by (nonlinear_arith);
}

/// Growing twice is growing once by the sum of the two reaches.
pub proof fn lemma_dilated_twice(
    grid: Seq<bool>,
    w: int,
    h: int,
    ax: int,
    ay: int,
    bx: int,
    by: int,
)
    requires
        0 <= w,
        0 <= h,
        grid.len() == w * h,
        ax >= 0,
        ay >= 0,
        bx >= 0,
        by >= 0,
    ensures
        dilated(dilated(grid, w, h, ax, ay), w, h, bx, by) == dilated(
            grid,
            w,
            h,
            ax + bx,
            ay + by,
        ),
{
    let once = dilated(grid, w, h, ax, ay);
    let twice = dilated(once, w, h, bx, by);
    let wide = dilated(grid, w, h, ax + bx, ay + by);
    assert forall|i: int| 0 <= i < w * h implies twice[i] == wide[i] by {
        lemma_position(w, h, i);
        let (x, y) = (i % w, i / w);
        if twice[i] {
            let (mx, my) = choose|mx: int, my: int|
                {
                    &&& 0 <= mx < w
                    &&& 0 <= my < h
                    &&& x - bx <= mx <= x + bx
                    &&& y - by <= my <= y + by
                    &&& #[trigger] lit(once, w, mx, my)
                };
            lemma_cell(w, h, mx, my);
            assert(touched(grid, w, h, ax, ay, mx, my));
            let (sx, sy) = choose|sx: int, sy: int|
                {
                    &&& 0 <= sx < w
                    &&& 0 <= sy < h
                    &&& mx - ax <= sx <= mx + ax
                    &&& my - ay <= sy <= my + ay
                    &&& #[trigger] lit(grid, w, sx, sy)
                };
            assert(lit(grid, w, sx, sy));
        }
        if wide[i] {
            let (sx, sy) = choose|sx: int, sy: int|
                {
                    &&& 0 <= sx < w
                    &&& 0 <= sy < h
                    &&& x - (ax + bx) <= sx <= x + (ax + bx)
                    &&& y - (ay + by) <= sy <= y + (ay + by)
                    &&& #[trigger] lit(grid, w, sx, sy)
                };
            let mx = if sx < x - bx {
                x - bx
            } else if sx > x + bx {
                x + bx
            } else {
                sx
            };
            let my = if sy < y - by {
                y - by
            } else if sy > y + by {
                y + by
            } else {
                sy
            };
            lemma_cell(w, h, mx, my);
            assert(lit(grid, w, sx, sy));
            assert(touched(grid, w, h, ax, ay, mx, my));
            assert(lit(once, w, mx, my));
        }
    }
    assert(twice =~= wide);
}

/// Growing keeps every set cell.
pub proof fn lemma_dilated_keeps(grid: Seq<bool>, w: int, h: int, rx: int, ry: int, i: int)
    requires
        0 <= w,
        0 <= h,
        grid.len() == w * h,
        rx >= 0,
        ry >= 0,
        0 <= i < w * h,
        grid[i],
    ensures
        dilated(grid, w, h, rx, ry)[i],
{
    lemma_position(w, h, i);
    assert(lit(grid, w, i % w, i / w));
}

/// Growing a larger grid gives a larger grid.
pub proof fn lemma_dilated_monotone(
    small: Seq<bool>,
    large: Seq<bool>,
    w: int,
    h: int,
    rx: int,
    ry: int,
    i: int,
)
    requires
        0 <= w,
        0 <= h,
        small.len() == w * h,
        large.len() == w * h,
        forall|k: int| 0 <= k < w * h && small[k] ==> large[k],
        0 <= i < w * h,
        dilated(small, w, h, rx, ry)[i],
    ensures
        dilated(large, w, h, rx, ry)[i],
{
    lemma_position(w, h, i);
    let (x, y) = (i % w, i / w);
    let (sx, sy) = choose|sx: int, sy: int|
        {
            &&& 0 <= sx < w
            &&& 0 <= sy < h
            &&& x - rx <= sx <= x + rx
            &&& y - ry <= sy <= y + ry
            &&& #[trigger] lit(small, w, sx, sy)
        };
    lemma_cell(w, h, sx, sy);
    assert(lit(large, w, sx, sy));
}

/// Grows every row by `r` cells on both sides.
fn spread_rows(grid: &[bool], w: usize, h: usize, r: usize) -> (out: Vec<bool>)
    requires
        grid@.len() == w * h,
    ensures
        out@ == dilated(grid@, w as int, h as int, r as int, 0),
{
    let n: usize = grid.len();
    let mut out: Vec<bool> = Vec::new();
    let mut y: usize = 0;
    while y < h
        invariant
            y <= h,
            grid@.len() == n,
            n == w * h,
            out@.len() == y * w,
            forall|i: int|
                0 <= i < out@.len() ==> out@[i] == touched(
                    grid@,
                    w as int,
                    h as int,
                    r as int,
                    0,
                    i % w as int,
                    i / w as int,
                ),
        decreases h - y,
    {
        let mut x: usize = 0;
        while x < w
            invariant
                x <= w,
                y < h,
                grid@.len() == n,
                n == w * h,
                        out@.len() == y * w + x,
                forall|i: int|
                    0 <= i < out@.len() ==> out@[i] == touched(
                        grid@,
                        w as int,
                        h as int,
                        r as int,
                        0,
                        i % w as int,
                        i / w as int,
                    ),
            decreases w - x,
        {
            let lo: usize = if x > r {
                x - r
            } else {
                0
            };
            let hi: usize = if r < w - x {
                x + r + 1
            } else {
                w
            };
            let mut found: bool = false;
            let mut k: usize = lo;
            proof {
                lemma_cell(w as int, h as int, x as int, y as int);
            }
            while k < hi
                invariant
                    lo <= k <= hi <= w,
                    y < h,
                    grid@.len() == n,
                    n == w * h,
                    found <==> exists|sx: int| lo <= sx < k && #[trigger] lit(grid@, w as int, sx, y as int),
                decreases hi - k,
            {
                proof {
                    lemma_cell(w as int, h as int, k as int, y as int);
                    assert(lit(grid@, w as int, k as int, y as int) == grid@[y * w + k]);
                }
                if grid[y * w + k] {
                    found = true;
                }
                k = k + 1;
            }
            proof {
                assert(found == touched(
                    grid@,
                    w as int,
                    h as int,
                    r as int,
                    0,
                    x as int,
                    y as int,
                )) by {
                    if found {
                        let sx = choose|sx: int|
                            lo <= sx < k && #[trigger] lit(grid@, w as int, sx, y as int);
                        assert(lit(grid@, w as int, sx, y as int));
                    }
                }
            }
            out.push(found);
            x = x + 1;
        }
        proof {
            assert((y + 1) * w == y * w + w) by (nonlinear_arith);
        }
        y = y + 1;
    }
    proof {
        assert(h * w == w * h) by (nonlinear_arith);
        assert(out@ =~= dilated(grid@, w as int, h as int, r as int, 0));
    }
    out
}

/// Grows every column by `r` cells on both sides.
fn spread_columns(grid: &[bool], w: usize, h: usize, r: usize) -> (out: Vec<bool>)
    requires
        grid@.len() == w * h,
    ensures
        out@ == dilated(grid@, w as int, h as int, 0, r as int),
{
    let n: usize = grid.len();
    let mut out: Vec<bool> = Vec::new();
    let mut y: usize = 0;
    while y < h
        invariant
            y <= h,
            grid@.len() == n,
            n == w * h,
            out@.len() == y * w,
            forall|i: int|
                0 <= i < out@.len() ==> out@[i] == touched(
                    grid@,
                    w as int,
                    h as int,
                    0,
                    r as int,
                    i % w as int,
                    i / w as int,
                ),
        decreases h - y,
    {
        let mut x: usize = 0;
        while x < w
            invariant
                x <= w,
                y < h,
                grid@.len() == n,
                n == w * h,
                        out@.len() == y * w + x,
                forall|i: int|
                    0 <= i < out@.len() ==> out@[i] == touched(
                        grid@,
                        w as int,
                        h as int,
                        0,
                        r as int,
                        i % w as int,
                        i / w as int,
                    ),
            decreases w - x,
        {
            let lo: usize = if y > r {
                y - r
            } else {
                0
            };
            let hi: usize = if r < h - y {
                y + r + 1
            } else {
                h
            };
            let mut found: bool = false;
            let mut k: usize = lo;
            proof {
                lemma_cell(w as int, h as int, x as int, y as int);
            }
            while k < hi
                invariant
                    lo <= k <= hi <= h,
                    x < w,
                    y < h,
                    grid@.len() == n,
                    n == w * h,
                    found <==> exists|sy: int| lo <= sy < k && #[trigger] lit(grid@, w as int, x as int, sy),
                decreases hi - k,
            {
                proof {
                    lemma_cell(w as int, h as int, x as int, k as int);
                    assert(lit(grid@, w as int, x as int, k as int) == grid@[k * w + x]);
                }
                if grid[k * w + x] {
                    found = true;
                }
                k = k + 1;
            }
            proof {
                assert(found == touched(
                    grid@,
                    w as int,
                    h as int,
                    0,
                    r as int,
                    x as int,
                    y as int,
                )) by {
                    if found {
                        let sy = choose|sy: int|
                            lo <= sy < k && #[trigger] lit(grid@, w as int, x as int, sy);
                        assert(lit(grid@, w as int, x as int, sy));
                    }
                }
            }
            out.push(found);
            x = x + 1;
        }
        proof {
            assert((y + 1) * w == y * w + w) by (nonlinear_arith);
        }
        y = y + 1;
    }
    proof {
        assert(h * w == w * h) by (nonlinear_arith);
        assert(out@ =~= dilated(grid@, w as int, h as int, 0, r as int));
    }
    out
}

/// Grows a grid by a rectangle that reaches `rx` columns and `ry` rows.
pub fn dilate(grid: &[bool], w: usize, h: usize, rx: usize, ry: usize) -> (out: Vec<bool>)
    requires
        grid@.len() == w * h,
    ensures
        out@ == dilated(grid@, w as int, h as int, rx as int, ry as int),
{
    let rows = spread_rows(grid, w, h, rx);
    let out = spread_columns(rows.as_slice(), w, h, ry);
    proof {
        lemma_dilated_twice(grid@, w as int, h as int, rx as int, 0, 0, ry as int);
    }
    out
}

/// Grows by a square of five cells: strokes of one character join, characters
/// do not.
pub fn dilate_square5(grid: &[bool], rw: usize, rh: usize) -> (out: Vec<bool>)
    requires
        grid@.len() == rw * rh,
    ensures
        out@ == dilated(grid@, rw as int, rh as int, 2, 2),
{
    dilate(grid, rw, rh, 2, 2)
}

/// Grows twice by nine columns and three rows, which joins a line of text.
pub fn dilate_rect_9x3_twice(grid: &[bool], rw: usize, rh: usize) -> (out: Vec<bool>)
    requires
        grid@.len() == rw * rh,
    ensures
        out@ == dilated(grid@, rw as int, rh as int, 8, 2),
{
    let once = dilate(grid, rw, rh, 4, 1);
    let twice = dilate(once.as_slice(), rw, rh, 4, 1);
    proof {
        lemma_dilated_twice(grid@, rw as int, rh as int, 4, 1, 4, 1);
    }
    twice
}

} // verus!
