//! Planes of numbers: box means, strokes, fills and scaling.

use crate::boxes::{larger, smaller};
use crate::components::{components, labelling, labels_of};
use crate::grid::{lemma_cell, lemma_position};
use crate::morph::{difference, opened, rect_opening, rectangle, stand_out};
use crate::number::Number;
use crate::raster::{
    lemma_measurable_part, lemma_measurable_sides, measurable, Picture,
};
use vstd::prelude::*;

verus! {

/// No value exceeds the square of 255.
pub open spec fn small(s: Seq<u32>) -> bool {
    forall|i: int| 0 <= i < s.len() ==> #[trigger] s[i] <= 65025
}

/// The sum of the values of row `y` in the columns `x1..x2`.
pub open spec fn row_sum(s: Seq<u32>, w: int, y: int, x1: int, x2: int) -> int
    decreases x2 - x1,
{
    if x2 <= x1 {
        0
    } else {
        row_sum(s, w, y, x1, x2 - 1) + s[y * w + (x2 - 1)]
    }
}

/// The sum of the values in the columns `x1..x2` of the rows `y1..y2`.
pub open spec fn rect_sum(s: Seq<u32>, w: int, x1: int, y1: int, x2: int, y2: int) -> int
    decreases y2 - y1,
{
    if y2 <= y1 {
        0
    } else {
        rect_sum(s, w, x1, y1, x2, y2 - 1) + row_sum(s, w, y2 - 1, x1, x2)
    }
}

proof fn lemma_row_sum_split(s: Seq<u32>, w: int, y: int, a: int, b: int, c: int)
    requires
        a <= b <= c,
    ensures
        row_sum(s, w, y, a, c) == row_sum(s, w, y, a, b) + row_sum(s, w, y, b, c),
    decreases c - b,
{
    if b < c {
        lemma_row_sum_split(s, w, y, a, b, c - 1);
    }
}

/// A rectangle's sum from four sums that start at the corner.
proof fn lemma_rect_sum_corners(s: Seq<u32>, w: int, x1: int, y1: int, x2: int, y2: int)
    requires
        0 <= x1 <= x2,
        0 <= y1 <= y2,
    ensures
        rect_sum(s, w, x1, y1, x2, y2) == rect_sum(s, w, 0, 0, x2, y2) + rect_sum(
            s,
            w,
            0,
            0,
            x1,
            y1,
        ) - rect_sum(s, w, 0, 0, x2, y1) - rect_sum(s, w, 0, 0, x1, y2),
    decreases y2 - y1,
{
    if y1 < y2 {
        lemma_rect_sum_corners(s, w, x1, y1, x2, y2 - 1);
        lemma_row_sum_split(s, w, y2 - 1, 0, x1, x2);
    }
}

proof fn lemma_row_sum_bound(s: Seq<u32>, w: int, y: int, x1: int, x2: int)
    requires
        x1 <= x2,
        small(s),
        0 <= y * w + x1,
        y * w + x2 <= s.len(),
    ensures
        0 <= row_sum(s, w, y, x1, x2) <= 65025 * (x2 - x1),
    decreases x2 - x1,
{
    if x1 < x2 {
        lemma_row_sum_bound(s, w, y, x1, x2 - 1);
    }
}

proof fn lemma_rect_sum_bound(s: Seq<u32>, w: int, x1: int, y1: int, x2: int, y2: int)
    requires
        0 <= x1 <= x2 <= w,
        0 <= y1 <= y2,
        small(s),
        w * y2 <= s.len(),
    ensures
        0 <= rect_sum(s, w, x1, y1, x2, y2) <= 65025 * ((x2 - x1) * (y2 - y1)),
    decreases y2 - y1,
{
    if y1 < y2 {
        assert(w * (y2 - 1) <= w * y2 && (y2 - 1) * w + w == w * y2 && 0 <= (y2 - 1) * w) by (
        nonlinear_arith)
            requires
                w >= 0,
                y2 >= 1,
        ;
        lemma_rect_sum_bound(s, w, x1, y1, x2, y2 - 1);
        lemma_row_sum_bound(s, w, y2 - 1, x1, x2);
        assert((x2 - x1) * (y2 - y1) == (x2 - x1) * (y2 - 1 - y1) + (x2 - x1)) by (nonlinear_arith);
    } else {
        assert((x2 - x1) * (y2 - y1) == 0) by (nonlinear_arith)
            requires
                y1 == y2,
        ;
    }
}

/// The sums of all rectangles that start at the corner, row by row.
fn integral(s: &[u32], w: usize, h: usize) -> (r: Vec<u64>)
    requires
        s@.len() == w * h,
        small(s@),
        measurable(w as int, h as int),
        w < 0xffff_ffff,
        h < 0xffff_ffff,
        (w + 1) * (h + 1) <= usize::MAX,
    ensures
        r@.len() == (w + 1) * (h + 1),
        forall|x: int, y: int|
            0 <= x <= w && 0 <= y <= h ==> #[trigger] r@[y * (w + 1) + x] == rect_sum(
                s@,
                w as int,
                0,
                0,
                x,
                y,
            ),
{
    let n: usize = s.len();
    let side: usize = w + 1;
    let mut out: Vec<u64> = Vec::new();
    let mut y: usize = 0;
    while y <= h
        invariant
            n == w * h,
            s@.len() == n,
            small(s@),
            side == w + 1,
            w < 0xffff_ffff,
            h < 0xffff_ffff,
            measurable(w as int, h as int),
            side * (h + 1) <= usize::MAX,
            y <= h + 1,
            out@.len() == y * side,
            forall|a: int, b: int|
                0 <= a <= w && 0 <= b < y ==> #[trigger] out@[b * side + a] == rect_sum(
                    s@,
                    w as int,
                    0,
                    0,
                    a,
                    b,
                ),
        decreases h + 1 - y,
    {
        let mut acc: u64 = 0;
        let mut x: usize = 0;
        proof {
            lemma_cell(side as int, h + 1, 0, y as int);
        }
        while x <= w
            invariant
                n == w * h,
                s@.len() == n,
            small(s@),
                side == w + 1,
                w < 0xffff_ffff,
                h < 0xffff_ffff,
                measurable(w as int, h as int),
                side * (h + 1) <= usize::MAX,
                y <= h,
                x <= w + 1,
                out@.len() == y * side + x,
                x <= w && y > 0 ==> acc == row_sum(s@, w as int, y - 1, 0, x as int),
                forall|a: int, b: int|
                    0 <= a <= w && 0 <= b < y ==> #[trigger] out@[b * side + a] == rect_sum(
                        s@,
                        w as int,
                        0,
                        0,
                        a,
                        b,
                    ),
                forall|a: int|
                    0 <= a < x ==> #[trigger] out@[y * side + a] == rect_sum(
                        s@,
                        w as int,
                        0,
                        0,
                        a,
                        y as int,
                    ),
            decreases w + 1 - x,
        {
            let ghost prior = out@;
            proof {
                lemma_cell(side as int, h + 1, x as int, y as int);
                lemma_corner_bound(s@, w as int, h as int, x as int, y as int);
            }
            if y == 0 {
                out.push(0);
            } else {
                proof {
                    lemma_cell(side as int, h + 1, x as int, y - 1);
                    lemma_corner_bound(s@, w as int, h as int, x as int, y - 1);
                    assert(0 <= (y - 1) * w && (y - 1) * w + w <= w * h) by (nonlinear_arith)
                        requires
                            1 <= y <= h,
                            0 <= w,
                    ;
                    lemma_row_sum_bound(s@, w as int, y - 1, 0, x as int);
                    assert(out@[(y - 1) * side + x] == rect_sum(
                        s@,
                        w as int,
                        0,
                        0,
                        x as int,
                        y - 1,
                    ));
                }
                let above: u64 = out[(y - 1) * side + x];
                out.push(above + acc);
                if x < w {
                    proof {
                        lemma_cell(w as int, h as int, x as int, y - 1);
                        lemma_row_sum_bound(s@, w as int, y - 1, 0, x + 1);
                    }
                    acc = acc + s[(y - 1) * w + x] as u64;
                }
            }
            proof {
                assert forall|a: int, b: int| 0 <= a <= w && 0 <= b < y implies #[trigger] out@[b
                    * side + a] == rect_sum(s@, w as int, 0, 0, a, b) by {
                    lemma_cell(side as int, y as int, a, b);
                    assert(y * side == side * y) by (nonlinear_arith);
                    assert(prior[b * side + a] == out@[b * side + a]);
                }
                assert forall|a: int| 0 <= a < x + 1 implies #[trigger] out@[y * side + a]
                    == rect_sum(s@, w as int, 0, 0, a, y as int) by {
                    if a < x {
                        assert(prior[y * side + a] == out@[y * side + a]);
                    }
                }
            }
            x = x + 1;
        }
        proof {
            assert((y + 1) * side == y * side + side) by (nonlinear_arith);
            assert forall|a: int, b: int| 0 <= a <= w && 0 <= b < y + 1 implies #[trigger] out@[b
                * side + a] == rect_sum(s@, w as int, 0, 0, a, b) by {
                if b == y {
                    assert(out@[y * side + a] == rect_sum(s@, w as int, 0, 0, a, y as int));
                }
            }
        }
        y = y + 1;
    }
    proof {
        assert((h + 1) * side == side * (h + 1)) by (nonlinear_arith);
    }
    out
}

/// A measurable picture has fewer than 2^35 pixels.
pub proof fn lemma_measurable_count(w: int, h: int)
    requires
        measurable(w, h),
    ensures
        0 <= w * h < 0x8_0000_0000,
{
    assert(0 <= w * h) by (nonlinear_arith)
        requires
            w >= 0,
            h >= 0,
    ;
}

/// The columns or rows within `r` of position `x`, out of `n`: the first.
pub open spec fn reach_start(x: int, r: int) -> int {
    larger(x - r, 0)
}

/// The columns or rows within `r` of position `x`, out of `n`: one past the
/// last.
pub open spec fn reach_end(x: int, r: int, n: int) -> int {
    smaller(x + r + 1, n)
}

/// The mean around position `i`, within `r` columns and rows, in single
/// precision.
pub open spec fn window_mean(s: Seq<u32>, w: int, h: int, r: int, i: int) -> Number {
    let (x1, x2) = (reach_start(i % w, r), reach_end(i % w, r, w));
    let (y1, y2) = (reach_start(i / w, r), reach_end(i / w, r, h));
    Number::spec_int(rect_sum(s, w, x1, y1, x2, y2)).spec_over(
        Number::spec_int((x2 - x1) * (y2 - y1)),
    ).spec_short()
}

/// The means around each position.
pub open spec fn window_means(s: Seq<u32>, w: int, h: int, r: int) -> Seq<Number> {
    Seq::new(s.len(), |i: int| window_mean(s, w, h, r, i))
}

/// A rectangle's sum, out of the sums from the corner.
fn rect_total(
    sums: &[u64],
    w: usize,
    h: usize,
    x1: usize,
    y1: usize,
    x2: usize,
    y2: usize,
    Ghost(s): Ghost<Seq<u32>>,
) -> (total: i64)
    requires
        s.len() == w * h,
        small(s),
        measurable(w as int, h as int),
        x1 <= x2 <= w,
        y1 <= y2 <= h,
        sums@.len() == (w + 1) * (h + 1),
        forall|x: int, y: int|
            0 <= x <= w && 0 <= y <= h ==> #[trigger] sums@[y * (w + 1) + x] == rect_sum(
                s,
                w as int,
                0,
                0,
                x,
                y,
            ),
    ensures
        total == rect_sum(s, w as int, x1 as int, y1 as int, x2 as int, y2 as int),
{
    let len: usize = sums.len();
    proof {
        assert(w + 1 <= (w + 1) * (h + 1)) by (nonlinear_arith);
    }
    let side: usize = w + 1;
    proof {
        let (a, b) = (w as int, h as int);
        lemma_cell(a + 1, b + 1, x1 as int, y1 as int);
        lemma_cell(a + 1, b + 1, x2 as int, y1 as int);
        lemma_cell(a + 1, b + 1, x1 as int, y2 as int);
        lemma_cell(a + 1, b + 1, x2 as int, y2 as int);
        lemma_rect_sum_corners(s, a, x1 as int, y1 as int, x2 as int, y2 as int);
        lemma_corner_bound(s, a, b, x1 as int, y1 as int);
        lemma_corner_bound(s, a, b, x2 as int, y1 as int);
        lemma_corner_bound(s, a, b, x1 as int, y2 as int);
        lemma_corner_bound(s, a, b, x2 as int, y2 as int);
        assert(sums@[y1 * (w + 1) + x1] == rect_sum(s, a, 0, 0, x1 as int, y1 as int));
        assert(sums@[y1 * (w + 1) + x2] == rect_sum(s, a, 0, 0, x2 as int, y1 as int));
        assert(sums@[y2 * (w + 1) + x1] == rect_sum(s, a, 0, 0, x1 as int, y2 as int));
        assert(sums@[y2 * (w + 1) + x2] == rect_sum(s, a, 0, 0, x2 as int, y2 as int));
    }
    let a: i64 = sums[y2 * side + x2] as i64;
    let b: i64 = sums[y1 * side + x1] as i64;
    let c: i64 = sums[y1 * side + x2] as i64;
    let d: i64 = sums[y2 * side + x1] as i64;
    a + b - c - d
}

fn mean_at(
    sums: &[u64],
    w: usize,
    h: usize,
    r: usize,
    i: usize,
    Ghost(s): Ghost<Seq<u32>>,
) -> (m: Number)
    requires
        s.len() == w * h,
        small(s),
        measurable(w as int, h as int),
        w < 0xffff_ffff,
        h < 0xffff_ffff,
        r <= 1000,
        i < w * h,
        sums@.len() == (w + 1) * (h + 1),
        forall|x: int, y: int|
            0 <= x <= w && 0 <= y <= h ==> #[trigger] sums@[y * (w + 1) + x] == rect_sum(
                s,
                w as int,
                0,
                0,
                x,
                y,
            ),
    ensures
        m == window_mean(s, w as int, h as int, r as int, i as int),
{
    proof {
        lemma_position(w as int, h as int, i as int);
    }
    let x: usize = i % w;
    let y: usize = i / w;
    let (x1, x2) = reach(x, r, w);
    let (y1, y2) = reach(y, r, h);
    let total: i64 = rect_total(sums, w, h, x1, y1, x2, y2, Ghost(s));
    proof {
        assert((x2 - x1) * (y2 - y1) <= 2001 * 2001) by (nonlinear_arith)
            requires
                0 <= x2 - x1 <= 2001,
                0 <= y2 - y1 <= 2001,
        ;
    }
    let area: usize = (x2 - x1) * (y2 - y1);
    Number::from_int(total).over(Number::from_count(area)).short()
}

fn reach(x: usize, r: usize, n: usize) -> (span: (usize, usize))
    requires
        x < n,
        r <= 1000,
    ensures
        span.0 == reach_start(x as int, r as int),
        span.1 == reach_end(x as int, r as int, n as int),
        span.0 <= span.1 <= n,
        span.1 - span.0 <= 2001,
{
    let from: usize = if x > r {
        x - r
    } else {
        0
    };
    let to: usize = if n - x > r {
        x + r + 1
    } else {
        n
    };
    (from, to)
}

proof fn lemma_corner_bound(s: Seq<u32>, w: int, h: int, x: int, y: int)
    requires
        s.len() == w * h,
        small(s),
        measurable(w, h),
        0 <= x <= w,
        0 <= y <= h,
    ensures
        0 <= rect_sum(s, w, 0, 0, x, y) <= 65025 * 0x8_0000_0000,
{
    assert(w * y <= w * h) by (nonlinear_arith)
        requires
            0 <= w,
            y <= h,
    ;
    lemma_rect_sum_bound(s, w, 0, 0, x, y);
    lemma_measurable_part(w, h, x, y);
    lemma_measurable_count(w, h);
}

/// The mean of the values within `radius` columns and rows of each position.
pub fn box_mean(src: &[u32], w: usize, h: usize, radius: usize) -> (r: Vec<Number>)
    requires
        src@.len() == w * h,
        small(src@),
        measurable(w as int, h as int),
        w < 0xffff_ffff,
        h < 0xffff_ffff,
        (w + 1) * (h + 1) <= usize::MAX,
        radius <= 1000,
    ensures
        r@ == window_means(src@, w as int, h as int, radius as int),
{
    let sums = integral(src, w, h);
    let n: usize = src.len();
    let mut out: Vec<Number> = Vec::new();
    let mut i: usize = 0;
    let ghost goal = window_means(src@, w as int, h as int, radius as int);
    while i < n
        invariant
            n == src@.len(),
            n == w * h,
            small(src@),
            measurable(w as int, h as int),
            w < 0xffff_ffff,
            h < 0xffff_ffff,
            radius <= 1000,
            sums@.len() == (w + 1) * (h + 1),
            forall|x: int, y: int|
                0 <= x <= w && 0 <= y <= h ==> #[trigger] sums@[y * (w + 1) + x] == rect_sum(src@, w as int, 0, 0, x, y),
            i <= n,
            goal == window_means(src@, w as int, h as int, radius as int),
            out@ == goal.take(i as int),
        decreases n - i,
    {
        out.push(mean_at(sums.as_slice(), w, h, radius, i, Ghost(src@)));
        i = i + 1;
        proof {
            assert(out@ =~= goal.take(i as int));
        }
    }
    proof {
        assert(out@ =~= goal);
    }
    out
}

/// The brightest channel of each pixel.
pub open spec fn lightness(picture: &Picture) -> Seq<u8> {
    Seq::new(picture.area() as nat, |i: int| picture.brightest(i))
}

/// How much brighter each pixel is than its surroundings within 15 columns and
/// rows leave open.
pub open spec fn excess(picture: &Picture) -> Seq<u8> {
    let (w, h) = (picture.width as int, picture.height as int);
    stand_out(lightness(picture), opened(lightness(picture), w, h, rectangle(15, 15)))
}

pub open spec fn widened(s: Seq<u8>) -> Seq<u32> {
    Seq::new(s.len(), |i: int| s[i] as u32)
}

pub open spec fn squared(s: Seq<u8>) -> Seq<u32> {
    Seq::new(s.len(), |i: int| (s[i] * s[i]) as u32)
}

/// The level that a stroke reaches: the local mean and a multiple of the local
/// deviation, but at least 10.
pub open spec fn level_from(mean: Number, square: Number, rel: Number) -> Number {
    let variance = square.spec_minus(mean.spec_times(mean).spec_short()).spec_short();
    let deviation = variance.spec_max(Number::spec_int(0)).spec_sqrt().spec_short();
    Number::spec_int(10).spec_max(
        mean.spec_plus(rel.spec_times(deviation).spec_short()).spec_short(),
    )
}

/// Pixel `i` is bright against its surroundings and nearly grey.
pub open spec fn is_bright_stroke(picture: &Picture, sat_max: int, rel: Number, i: int) -> bool {
    let (w, h) = (picture.width as int, picture.height as int);
    let d = excess(picture);
    let mean = window_mean(widened(d), w, h, 48, i);
    let square = window_mean(squared(d), w, h, 48, i);
    &&& !Number::spec_int(d[i] as int).spec_lt(level_from(mean, square, rel))
    &&& picture.brightest(i) - picture.darkest(i) <= sat_max
}

/// The cells of parts that hold at least `least` cells.
pub open spec fn large_parts(cells: Seq<bool>, w: int, least: int) -> Seq<bool> {
    let labels = labelling(cells, w);
    let parts = components(cells, w);
    Seq::new(cells.len(), |i: int| labels[i] > 0 && parts[labels[i] - 1].area >= least)
}

/// The bright strokes of a picture.
pub open spec fn bright_strokes(picture: &Picture, sat_max: int, rel: Number, least: int) -> Seq<
    bool,
> {
    large_parts(
        Seq::new(picture.area() as nat, |i: int| is_bright_stroke(picture, sat_max, rel, i)),
        picture.width as int,
        least,
    )
}

pub fn lightness_of(picture: &Picture) -> (r: Vec<u8>)
    requires
        picture.wf(),
    ensures
        r@ == lightness(picture),
{
    let total: usize = picture.data.len();
    let n: usize = total / 3;
    let mut out: Vec<u8> = Vec::new();
    let mut i: usize = 0;
    while i < n
        invariant
            picture.wf(),
            n == picture.area(),
            i <= n,
            out@ == lightness(picture).take(i as int),
        decreases n - i,
    {
        out.push(picture.brightest_of(i));
        i = i + 1;
        proof {
            assert(out@ =~= lightness(picture).take(i as int));
        }
    }
    proof {
        assert(out@ =~= lightness(picture));
    }
    out
}

fn widen(s: &[u8]) -> (r: (Vec<u32>, Vec<u32>))
    ensures
        r.0@ == widened(s@),
        r.1@ == squared(s@),
        small(r.0@),
        small(r.1@),
{
    let n: usize = s.len();
    let mut plain: Vec<u32> = Vec::new();
    let mut squares: Vec<u32> = Vec::new();
    let mut i: usize = 0;
    while i < n
        invariant
            n == s@.len(),
            i <= n,
            plain@ == widened(s@).take(i as int),
            squares@ == squared(s@).take(i as int),
            small(plain@),
            small(squares@),
        decreases n - i,
    {
        let v: u32 = s[i] as u32;
        proof {
            assert(v * v <= 255 * 255) by (nonlinear_arith)
                requires
                    0 <= v <= 255,
            ;
        }
        plain.push(v);
        squares.push(v * v);
        i = i + 1;
        proof {
            assert(plain@ =~= widened(s@).take(i as int));
            assert(squares@ =~= squared(s@).take(i as int));
        }
    }
    proof {
        assert(plain@ =~= widened(s@));
        assert(squares@ =~= squared(s@));
    }
    (plain, squares)
}

/// Keeps the parts of a grid that hold at least `least` cells.
pub fn keep_large(cells: &[bool], w: usize, h: usize, least: usize) -> (r: Vec<bool>)
    requires
        cells@.len() == w * h,
    ensures
        r@ == large_parts(cells@, w as int, least as int),
{
    let n: usize = cells.len();
    let found = labels_of(cells, w, h);
    let mut out: Vec<bool> = Vec::new();
    let mut i: usize = 0;
    let ghost goal = large_parts(cells@, w as int, least as int);
    while i < n
        invariant
            n == cells@.len(),
            found.labels@.len() == n,
            found.labels@ == labelling(cells@, w as int),
            found.parts@ == components(cells@, w as int),
            crate::components::is_count(found.labels@, found.parts@.len() as int),
            i <= n,
            goal == large_parts(cells@, w as int, least as int),
            out@ == goal.take(i as int),
        decreases n - i,
    {
        let label: usize = found.labels[i];
        let keep: bool = label > 0 && found.parts[label - 1].area >= least;
        out.push(keep);
        i = i + 1;
        proof {
            assert(out@ =~= goal.take(i as int));
        }
    }
    proof {
        assert(out@ =~= goal);
    }
    out
}

/// The sums from the corner take no more room than the colours of a picture,
/// but for a single pixel.
pub proof fn lemma_corner_cells(w: int, h: int)
    requires
        w >= 1,
        h >= 1,
    ensures
        (w + 1) * (h + 1) <= 3 * (w * h) || (w + 1) * (h + 1) == 4,
{
    if w == 1 && h == 1 {
        assert((w + 1) * (h + 1) == 4);
    } else {
        assert((w + 1) * (h + 1) <= 3 * (w * h)) by (nonlinear_arith)
            requires
                w >= 1,
                h >= 1,
                w >= 2 || h >= 2,
        ;
    }
}

/// Marks the strokes of a picture that are brighter than their surroundings:
/// nearly grey pixels above a local level, in parts of at least `least`.
pub fn stroke_mask(picture: &Picture, sat_max: u8, rel: Number, least: usize) -> (r: Vec<bool>)
    requires
        picture.wf(),
    ensures
        r@ == bright_strokes(picture, sat_max as int, rel, least as int),
        r@.len() == picture.area(),
{
    let w: usize = picture.width as usize;
    let h: usize = picture.height as usize;
    let total: usize = picture.data.len();
    let n: usize = total / 3;
    if n == 0 {
        let none: Vec<bool> = Vec::new();
        proof {
            assert(none@ =~= bright_strokes(picture, sat_max as int, rel, least as int));
        }
        return none;
    }
    proof {
        assert(w > 0 && h > 0) by (nonlinear_arith)
            requires
                w * h > 0,
                w >= 0,
                h >= 0,
        ;
        lemma_measurable_sides(w as int, h as int);
        assert(total == 3 * (w * h));
        lemma_corner_cells(w as int, h as int);
    }
    let gray = lightness_of(picture);
    let low = rect_opening(gray.as_slice(), w, h, 15, 15);
    let diff = difference(gray.as_slice(), low.as_slice());
    let (plain, squares) = widen(diff.as_slice());
    let means = box_mean(plain.as_slice(), w, h, 48);
    let seconds = box_mean(squares.as_slice(), w, h, 48);
    let mut cells: Vec<bool> = Vec::new();
    let ghost goal = Seq::new(
        picture.area() as nat,
        |i: int| is_bright_stroke(picture, sat_max as int, rel, i),
    );
    let mut i: usize = 0;
    while i < n
        invariant
            picture.wf(),
            w == picture.width,
            h == picture.height,
            n == picture.area(),
            diff@ == excess(picture),
            diff@.len() == n,
            means@ == window_means(widened(diff@), w as int, h as int, 48),
            seconds@ == window_means(squared(diff@), w as int, h as int, 48),
            i <= n,
            goal == Seq::new(
                picture.area() as nat,
                |i: int| is_bright_stroke(picture, sat_max as int, rel, i),
            ),
            cells@ == goal.take(i as int),
        decreases n - i,
    {
        let mean = means[i];
        let variance = seconds[i].minus(mean.times(mean).short()).short();
        let deviation = variance.max(Number::from_int(0)).sqrt().short();
        let level = Number::from_int(10).max(mean.plus(rel.times(deviation).short()).short());
        let high: u8 = picture.brightest_of(i);
        let low: u8 = picture.darkest_of(i);
        let on: bool = !Number::from_int(diff[i] as i64).less(level) && high as i64 - low as i64
            <= sat_max as i64;
        cells.push(on);
        i = i + 1;
        proof {
            assert(cells@ =~= goal.take(i as int));
        }
    }
    proof {
        assert(cells@ =~= goal);
    }
    keep_large(cells.as_slice(), w, h, least)
}

/// The lightness of a pixel is one of its three channels, and none is above it.
pub proof fn lemma_lightness_is_the_brightest(picture: &Picture, i: int)
    requires
        0 <= i < picture.area(),
    ensures
        ({
            let (v, d) = (lightness(picture)[i], picture.data@);
            &&& lightness(picture).len() == picture.area()
            &&& v >= d[3 * i] && v >= d[3 * i + 1] && v >= d[3 * i + 2]
            &&& v == d[3 * i] || v == d[3 * i + 1] || v == d[3 * i + 2]
        }),
{
}

} // verus!
