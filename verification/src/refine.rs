//! Narrowing a box to the strokes of the writing inside it.

use crate::boxes::{larger, smaller, Frame};
use crate::components::{components, is_count, labelling, labels_of, Component};
use crate::double::{ratio, whole, Double};
use crate::grid::{dilate, dilated, lemma_cell, lemma_position};
use crate::morph::{difference, ellipse, ellipse_opening, opened, stand_out};
use crate::raster::{
    lemma_measurable_area, lemma_measurable_part, measurable, region_colour, region_pixels,
    region_tones, stamp, stamp_mask, Mask, Picture, Region,
};
use crate::stats::{percentile, percentile_of};
use vstd::arithmetic::div_mod::*;
use vstd::prelude::*;

verus! {

/// Index `i` mirrored into `0..n` at the first and the last position, which
/// are not repeated.
pub open spec fn mirrored(i: int, n: int) -> int {
    if n <= 1 {
        0
    } else {
        let period = 2 * (n - 1);
        let r = i % period;
        if r < n {
            r
        } else {
            period - r
        }
    }
}

proof fn lemma_mirrored_inside(i: int, n: int)
    requires
        0 <= i < n,
        n > 1,
    ensures
        mirrored(i, n) == i,
{
    lemma_small_mod(i as nat, (2 * (n - 1)) as nat);
}

/// Turning an index over does not change where it lands.
pub proof fn lemma_mirrored_flip(i: int, n: int)
    requires
        n > 1,
    ensures
        mirrored(-i, n) == mirrored(i, n),
{
    let p = 2 * (n - 1);
    lemma_fundamental_div_mod(i, p);
    lemma_mod_bound(i, p);
    let (q, r) = (i / p, i % p);
    if r == 0 {
        assert(-i == p * (-q) + 0) by (nonlinear_arith)
            requires
                i == p * q + 0,
        ;
        lemma_fundamental_div_mod_converse(-i, p, -q, 0);
    } else {
        assert(-i == p * (-q - 1) + (p - r)) by (nonlinear_arith)
            requires
                i == p * q + r,
        ;
        assert((-q - 1) * p == p * (-q - 1)) by (nonlinear_arith);
        lemma_fundamental_div_mod_converse(-i, p, -q - 1, p - r);
    }
}

/// Moving an index by a whole period does not change where it lands.
pub proof fn lemma_mirrored_period(i: int, n: int)
    requires
        n > 1,
    ensures
        mirrored(i + 2 * (n - 1), n) == mirrored(i, n),
{
    lemma_mod_add_multiples_vanish(i, 2 * (n - 1));
}

/// A mirrored index lies in range.
pub proof fn lemma_mirrored_range(i: int, n: int)
    requires
        n > 0,
    ensures
        0 <= mirrored(i, n) < n,
{
    if n > 1 {
        lemma_mod_bound(i, 2 * (n - 1));
    }
}

/// Mirrors an index at the borders of `0..n`; the border itself is not
/// repeated.
pub fn reflect101(i: i64, n: i64) -> (r: i64)
    requires
        -0x4000_0000_0000_0000 < i < 0x4000_0000_0000_0000,
        n <= 0x2000_0000_0000_0000,
    ensures
        r == mirrored(i as int, n as int),
        n > 0 ==> 0 <= r < n,
{
    if n <= 1 {
        return 0;
    }
    let mut k: i64 = i;
    while k < 0 || k >= n
        invariant
            1 < n <= 0x2000_0000_0000_0000,
            -0x4000_0000_0000_0000 < k < 0x4000_0000_0000_0000,
            mirrored(k as int, n as int) == mirrored(i as int, n as int),
        decreases
                (if k < 0 {
                    -2 * k + 1
                } else {
                    2 * k
                }),
    {
        if k < 0 {
            proof {
                lemma_mirrored_flip(k as int, n as int);
            }
            k = -k;
        } else {
            proof {
                lemma_mirrored_flip(k as int, n as int);
                lemma_mirrored_period(-k as int, n as int);
            }
            k = 2 * (n - 1) - k;
        }
    }
    proof {
        lemma_mirrored_inside(k as int, n as int);
    }
    k
}

/// The side of the window for local averages.
pub const WINDOW: i64 = 96;

/// The sum of `k` tones of row `y`, mirrored at the borders, that starts 48
/// columns left of `x`.
pub open spec fn span_sum(s: Seq<u8>, w: int, y: int, x: int, k: int) -> int
    decreases k,
{
    if k <= 0 {
        0
    } else {
        span_sum(s, w, y, x, k - 1) + s[y * w + mirrored(x - 48 + (k - 1), w)]
    }
}

/// The same for the squares of the tones.
pub open spec fn span_squares(s: Seq<u8>, w: int, y: int, x: int, k: int) -> int
    decreases k,
{
    if k <= 0 {
        0
    } else {
        let v = s[y * w + mirrored(x - 48 + (k - 1), w)];
        span_squares(s, w, y, x, k - 1) + v * v
    }
}

/// The sum over the window around `(x, y)`, `k` of its rows.
pub open spec fn window_sum(s: Seq<u8>, w: int, h: int, x: int, y: int, k: int) -> int
    decreases k,
{
    if k <= 0 {
        0
    } else {
        window_sum(s, w, h, x, y, k - 1) + span_sum(s, w, mirrored(y - 48 + (k - 1), h), x, 96)
    }
}

/// The sum of the squares over the window around `(x, y)`, `k` of its rows.
pub open spec fn window_squares(s: Seq<u8>, w: int, h: int, x: int, y: int, k: int) -> int
    decreases k,
{
    if k <= 0 {
        0
    } else {
        window_squares(s, w, h, x, y, k - 1) + span_squares(
            s,
            w,
            mirrored(y - 48 + (k - 1), h),
            x,
            96,
        )
    }
}

/// The mean of the window around `(x, y)`.
pub open spec fn local_mean(s: Seq<u8>, w: int, h: int, x: int, y: int) -> Double {
    whole(window_sum(s, w, h, x, y, 96)).spec_over(whole(9216))
}

/// The standard deviation of the window around `(x, y)`.
pub open spec fn local_deviation(s: Seq<u8>, w: int, h: int, x: int, y: int) -> Double {
    let mean = local_mean(s, w, h, x, y);
    let squares = whole(window_squares(s, w, h, x, y, 96)).spec_over(whole(9216));
    squares.spec_minus(mean.spec_times(mean)).spec_max(whole(0)).spec_sqrt()
}

/// The tone from which on a pixel counts as stroke: the local mean plus 1.8
/// deviations, at least 10.
pub open spec fn stroke_level(s: Seq<u8>, w: int, h: int, x: int, y: int) -> Double {
    local_mean(s, w, h, x, y).spec_plus(
        ratio(18, 10).spec_times(local_deviation(s, w, h, x, y)),
    ).spec_max(whole(10))
}

proof fn lemma_span_bounds(s: Seq<u8>, w: int, y: int, x: int, k: int)
    requires
        0 <= k <= 96,
    ensures
        0 <= span_sum(s, w, y, x, k) <= 255 * k,
        0 <= span_squares(s, w, y, x, k) <= 65025 * k,
    decreases k,
{
    if k > 0 {
        lemma_span_bounds(s, w, y, x, k - 1);
        let v = s[y * w + mirrored(x - 48 + (k - 1), w)];
        assert(0 <= v * v <= 65025) by (nonlinear_arith)
            requires
                0 <= v <= 255,
        ;
    }
}

/// Sums of tones and of their squares along rows.
fn row_sums(s: &[u8], w: usize, h: usize) -> (r: (Vec<u32>, Vec<u32>))
    requires
        s@.len() == w * h,
        w <= 0xffff_ffff,
        h <= 0xffff_ffff,
    ensures
        r.0@.len() == s@.len(),
        r.1@.len() == s@.len(),
        forall|i: int|
            0 <= i < s@.len() ==> #[trigger] r.0@[i] == span_sum(
                s@,
                w as int,
                i / w as int,
                i % w as int,
                96,
            ),
        forall|i: int|
            0 <= i < s@.len() ==> #[trigger] r.1@[i] == span_squares(
                s@,
                w as int,
                i / w as int,
                i % w as int,
                96,
            ),
{
    let n: usize = s.len();
    let mut sums: Vec<u32> = Vec::new();
    let mut squares: Vec<u32> = Vec::new();
    let mut i: usize = 0;
    while i < n
        invariant
            n == w * h,
            s@.len() == n,
            w <= 0xffff_ffff,
            h <= 0xffff_ffff,
            i <= n,
            sums@.len() == i,
            squares@.len() == i,
            forall|j: int|
                0 <= j < i ==> #[trigger] sums@[j] == span_sum(
                    s@,
                    w as int,
                    j / w as int,
                    j % w as int,
                    96,
                ),
            forall|j: int|
                0 <= j < i ==> #[trigger] squares@[j] == span_squares(
                    s@,
                    w as int,
                    j / w as int,
                    j % w as int,
                    96,
                ),
        decreases n - i,
    {
        proof {
            lemma_position(w as int, h as int, i as int);
        }
        let x: usize = i % w;
        let y: usize = i / w;
        let mut sum: u32 = 0;
        let mut square: u32 = 0;
        let mut k: i64 = 0;
        while k < 96
            invariant
                n == w * h,
                s@.len() == n,
                0 < w <= 0xffff_ffff,
                h <= 0xffff_ffff,
                x < w,
                y < h,
                0 <= k <= 96,
                sum == span_sum(s@, w as int, y as int, x as int, k as int),
                square == span_squares(s@, w as int, y as int, x as int, k as int),
            decreases 96 - k,
        {
            let at: i64 = reflect101(x as i64 - 48 + k, w as i64);
            proof {
                lemma_cell(w as int, h as int, at as int, y as int);
                lemma_span_bounds(s@, w as int, y as int, x as int, k as int);
                lemma_span_bounds(s@, w as int, y as int, x as int, k + 1);
            }
            let v: u32 = s[y * w + at as usize] as u32;
            proof {
                assert(0 <= v * v <= 65025) by (nonlinear_arith)
                    requires
                        0 <= v <= 255,
                ;
            }
            sum = sum + v;
            square = square + v * v;
            k = k + 1;
        }
        sums.push(sum);
        squares.push(square);
        i = i + 1;
    }
    (sums, squares)
}

/// Whether a pixel counts as stroke: it stands out enough, and it is greyish.
pub open spec fn is_stroke(
    hat: Seq<u8>,
    colour: Seq<u8>,
    w: int,
    h: int,
    i: int,
) -> bool {
    !whole(hat[i] as int).spec_lt(stroke_level(hat, w, h, i % w, i / w)) && colour[i] <= 60
}

/// The stroke pixels of a part of a picture.
pub open spec fn strokes(hat: Seq<u8>, colour: Seq<u8>, w: int, h: int) -> Seq<bool> {
    Seq::new((w * h) as nat, |i: int| is_stroke(hat, colour, w, h, i))
}

/// The stroke level of one pixel, from the row sums.
fn level_at(
    sums: &[u32],
    squares: &[u32],
    w: usize,
    h: usize,
    x: usize,
    y: usize,
    Ghost(s): Ghost<Seq<u8>>,
) -> (r: Double)
    requires
        s.len() == w * h,
        w <= 0xffff_ffff,
        h <= 0xffff_ffff,
        sums@.len() == s.len(),
        squares@.len() == s.len(),
        forall|i: int|
            0 <= i < s.len() ==> #[trigger] sums@[i] == span_sum(
                s,
                w as int,
                i / w as int,
                i % w as int,
                96,
            ),
        forall|i: int|
            0 <= i < s.len() ==> #[trigger] squares@[i] == span_squares(
                s,
                w as int,
                i / w as int,
                i % w as int,
                96,
            ),
        x < w,
        y < h,
    ensures
        r == stroke_level(s, w as int, h as int, x as int, y as int),
        r.wf(),
{
    let n: usize = sums.len();
    let mut sum: i64 = 0;
    let mut square: i64 = 0;
    let mut k: i64 = 0;
    while k < 96
        invariant
            n == w * h,
            s.len() == n,
            sums@.len() == n,
            squares@.len() == n,
            w <= 0xffff_ffff,
            h <= 0xffff_ffff,
            forall|i: int|
                0 <= i < s.len() ==> #[trigger] sums@[i] == span_sum(
                    s,
                    w as int,
                    i / w as int,
                    i % w as int,
                    96,
                ),
            forall|i: int|
                0 <= i < s.len() ==> #[trigger] squares@[i] == span_squares(
                    s,
                    w as int,
                    i / w as int,
                    i % w as int,
                    96,
                ),
            x < w,
            y < h,
            0 <= k <= 96,
            sum == window_sum(s, w as int, h as int, x as int, y as int, k as int),
            square == window_squares(s, w as int, h as int, x as int, y as int, k as int),
            0 <= sum <= 0xffff_ffff * k,
            0 <= square <= 0xffff_ffff * k,
        decreases 96 - k,
    {
        let at: i64 = reflect101(y as i64 - 48 + k, h as i64);
        proof {
            lemma_cell(w as int, h as int, x as int, at as int);
        }
        let i: usize = at as usize * w + x;
        sum = sum + sums[i] as i64;
        square = square + squares[i] as i64;
        k = k + 1;
    }
    let area = Double::from_int(9216);
    let mean = Double::from_int(sum).over(area);
    let spread = Double::from_int(square).over(area);
    let deviation = spread.minus(mean.times(mean)).max(Double::zero()).sqrt();
    mean.plus(Double::decimal(18, 10).times(deviation)).max(Double::from_int(10))
}

/// Marks the stroke pixels of a part of a picture.
fn stroke_cells(hat: &[u8], colour: &[u8], w: usize, h: usize) -> (r: Vec<bool>)
    requires
        hat@.len() == w * h,
        colour@.len() == w * h,
        w <= 0xffff_ffff,
        h <= 0xffff_ffff,
    ensures
        r@ == strokes(hat@, colour@, w as int, h as int),
{
    let n: usize = hat.len();
    let (sums, squares) = row_sums(hat, w, h);
    let mut out: Vec<bool> = Vec::new();
    let mut i: usize = 0;
    let ghost goal = strokes(hat@, colour@, w as int, h as int);
    while i < n
        invariant
            n == w * h,
            hat@.len() == n,
            colour@.len() == n,
            w <= 0xffff_ffff,
            h <= 0xffff_ffff,
            sums@.len() == n,
            squares@.len() == n,
            forall|j: int|
                0 <= j < hat@.len() ==> #[trigger] sums@[j] == span_sum(
                    hat@,
                    w as int,
                    j / w as int,
                    j % w as int,
                    96,
                ),
            forall|j: int|
                0 <= j < hat@.len() ==> #[trigger] squares@[j] == span_squares(
                    hat@,
                    w as int,
                    j / w as int,
                    j % w as int,
                    96,
                ),
            goal == strokes(hat@, colour@, w as int, h as int),
            i <= n,
            out@ == goal.take(i as int),
        decreases n - i,
    {
        proof {
            lemma_position(w as int, h as int, i as int);
        }
        let level = level_at(
            sums.as_slice(),
            squares.as_slice(),
            w,
            h,
            i % w,
            i / w,
            Ghost(hat@),
        );
        let on: bool = !Double::from_int(hat[i] as i64).less(level) && colour[i] <= 60;
        out.push(on);
        i = i + 1;
        proof {
            assert(out@ =~= goal.take(i as int));
        }
    }
    proof {
        assert(out@ =~= goal);
    }
    out
}

/// The sum of the rows of the cells with label `k` among the first `n`.
pub open spec fn row_total(labels: Seq<usize>, w: int, k: int, n: int) -> int
    decreases n,
{
    if n <= 0 {
        0
    } else {
        row_total(labels, w, k, n - 1) + if labels[n - 1] == k {
            (n - 1) / w
        } else {
            0
        }
    }
}

/// The mean row of component `k`, counted from zero.
pub open spec fn centre(labels: Seq<usize>, w: int, parts: Seq<Component>, k: int) -> Double {
    whole(row_total(labels, w, k + 1, labels.len() as int)).spec_over(whole(parts[k].area as int))
}

/// Those of the first `n` components that have nine cells or more.
pub open spec fn solid(parts: Seq<Component>, n: int) -> Seq<usize>
    decreases n,
{
    if n <= 0 {
        seq![]
    } else if parts[n - 1].area >= 9 {
        solid(parts, n - 1).push((n - 1) as usize)
    } else {
        solid(parts, n - 1)
    }
}

/// The mean rows of the solid components.
pub open spec fn centres(labels: Seq<usize>, w: int, parts: Seq<Component>) -> Seq<Double> {
    let kept = solid(parts, parts.len() as int);
    Seq::new(kept.len(), |j: int| centre(labels, w, parts, kept[j] as int))
}

/// The middle of the band in which a line of writing lies.
pub open spec fn band_middle(labels: Seq<usize>, w: int, parts: Seq<Component>) -> Double {
    percentile_of(centres(labels, w, parts), 50)
}

/// How far the components lie off the middle of the band.
pub open spec fn offsets(ys: Seq<Double>, middle: Double) -> Seq<Double> {
    Seq::new(ys.len(), |j: int| ys[j].spec_minus(middle).spec_abs())
}

/// Half the height of the band.
pub open spec fn band_half(labels: Seq<usize>, w: int, parts: Seq<Component>) -> Double {
    percentile_of(
        offsets(centres(labels, w, parts), band_middle(labels, w, parts)),
        80,
    ).spec_times(ratio(15, 10)).spec_max(whole(15))
}

/// A component that belongs to the line of writing.
pub open spec fn in_line(labels: Seq<usize>, w: int, parts: Seq<Component>, k: int) -> bool {
    &&& parts[k].area >= 9
    &&& !band_half(labels, w, parts).spec_lt(
        centre(labels, w, parts, k).spec_minus(band_middle(labels, w, parts)).spec_abs(),
    )
}

/// How many of the first `n` components belong to the line.
pub open spec fn line_count(labels: Seq<usize>, w: int, parts: Seq<Component>, n: int) -> int
    decreases n,
{
    if n <= 0 {
        0
    } else {
        line_count(labels, w, parts, n - 1) + if in_line(labels, w, parts, n - 1) {
            1int
        } else {
            0
        }
    }
}

/// The cells of the components that belong to the line.
pub open spec fn line_cells(labels: Seq<usize>, w: int, parts: Seq<Component>) -> Seq<bool> {
    Seq::new(
        labels.len(),
        |i: int| labels[i] > 0 && in_line(labels, w, parts, labels[i] - 1),
    )
}

/// How many of the first `n` cells are set.
pub open spec fn set_count(cells: Seq<bool>, n: int) -> int
    decreases n,
{
    if n <= 0 {
        0
    } else {
        set_count(cells, n - 1) + if cells[n - 1] {
            1int
        } else {
            0
        }
    }
}

/// The part of a picture around a box: 16 pixels more on each side.
pub open spec fn surroundings(picture: &Picture, b: Frame) -> (int, int, int, int) {
    (
        larger(b.0 - 16, 0),
        larger(b.1 - 16, 0),
        smaller(b.2 + 16, picture.width as int),
        smaller(b.3 + 16, picture.height as int),
    )
}

/// A box whose size can be computed in 64 bits.
pub open spec fn computable(b: Frame) -> bool {
    &&& i64::MIN + 16 <= b.0
    &&& i64::MIN + 16 <= b.1
    &&& b.2 <= i64::MAX - 16
    &&& b.3 <= i64::MAX - 16
    &&& i64::MIN <= b.2 - b.0 <= i64::MAX
    &&& i64::MIN <= b.3 - b.1 <= i64::MAX
    &&& i64::MIN <= (b.2 - b.0) * (b.3 - b.1) <= i64::MAX
}

/// The outcome of narrowing a box: `None` where nothing writing-like is found,
/// where the strokes fill more than 60 % of the box, or where they fall into
/// more than 300 pieces; else the strokes of the line, grown by 9 columns and 5
/// rows.
pub open spec fn refined(picture: &Picture, b: Frame) -> Option<Seq<u8>> {
    let s = surroundings(picture, b);
    if s.2 - s.0 < 8 || s.3 - s.1 < 8 {
        None
    } else {
        let region = Region {
            x0: s.0 as usize,
            y0: s.1 as usize,
            rw: (s.2 - s.0) as usize,
            rh: (s.3 - s.1) as usize,
        };
        let (rw, rh) = (region.rw as int, region.rh as int);
        let tones = region_tones(picture, &region);
        let hat = stand_out(tones, opened(tones, rw, rh, ellipse(15)));
        let active = strokes(hat, region_colour(picture, &region), rw, rh);
        let labels = labelling(active, rw);
        let parts = components(active, rw);
        let cells = line_cells(labels, rw, parts);
        let found = set_count(cells, cells.len() as int);
        let limit = whole((b.2 - b.0) * (b.3 - b.1)).spec_times(ratio(6, 10));
        if solid(parts, parts.len() as int).len() == 0 || found == 0 || limit.spec_lt(whole(found))
            || line_count(labels, rw, parts, parts.len() as int) > 300 {
            None
        } else {
            Some(
                stamp_mask(
                    dilated(cells, rw, rh, 9, 5),
                    rw,
                    rh,
                    s.0,
                    s.1,
                    picture.width as int,
                    picture.height as int,
                ),
            )
        }
    }
}

proof fn lemma_row_total_bound(labels: Seq<usize>, w: int, h: int, k: int, n: int)
    requires
        0 <= n <= labels.len(),
        labels.len() == w * h,
        0 <= w,
        0 <= h,
    ensures
        0 <= row_total(labels, w, k, n) <= h * n,
    decreases n,
{
    if n > 0 {
        lemma_row_total_bound(labels, w, h, k, n - 1);
        lemma_position(w, h, n - 1);
        assert(h * n == h * (n - 1) + h) by (nonlinear_arith);
    }
}

/// The sums of rows per component.
fn row_totals(labels: &[usize], w: usize, h: usize, count: usize) -> (r: Vec<u64>)
    requires
        labels@.len() == w * h,
        measurable(w as int, h as int),
        is_count(labels@, count as int),
    ensures
        r@.len() == count,
        forall|k: int|
            0 <= k < count ==> #[trigger] r@[k] == row_total(
                labels@,
                w as int,
                k + 1,
                labels@.len() as int,
            ),
{
    let n: usize = labels.len();
    let mut out: Vec<u64> = vec![0; count];
    let mut i: usize = 0;
    while i < n
        invariant
            n == w * h,
            labels@.len() == n,
            measurable(w as int, h as int),
            is_count(labels@, count as int),
            i <= n,
            out@.len() == count,
            forall|k: int|
                0 <= k < count ==> #[trigger] out@[k] == row_total(
                    labels@,
                    w as int,
                    k + 1,
                    i as int,
                ),
        decreases n - i,
    {
        proof {
            lemma_position(w as int, h as int, i as int);
        }
        let v: usize = labels[i];
        if v > 0 {
            proof {
                lemma_row_total_bound(labels@, w as int, h as int, v as int, i as int);
                lemma_measurable_area(w as int, h as int);
                assert(h * i <= h * (w * h)) by (nonlinear_arith)
                    requires
                        i <= w * h,
                ;
                assert(out@[v - 1] == row_total(labels@, w as int, v as int, i as int));
            }
            let sum: u64 = out[v - 1];
            out.set(v - 1, sum + (i / w) as u64);
        }
        i = i + 1;
    }
    out
}

/// The solid components.
fn solid_of(parts: &[Component]) -> (r: Vec<usize>)
    ensures
        r@ == solid(parts@, parts@.len() as int),
        r@.len() <= parts@.len(),
        forall|j: int|
            0 <= j < r@.len() ==> #[trigger] r@[j] < parts@.len() && parts@[r@[j] as int].area >= 9,
{
    let n: usize = parts.len();
    let mut out: Vec<usize> = Vec::new();
    let mut i: usize = 0;
    while i < n
        invariant
            n == parts@.len(),
            i <= n,
            out@ == solid(parts@, i as int),
            out@.len() <= i,
            forall|j: int|
                0 <= j < out@.len() ==> #[trigger] out@[j] < n && parts@[out@[j] as int].area >= 9,
        decreases n - i,
    {
        if parts[i].area >= 9 {
            out.push(i);
        }
        i = i + 1;
    }
    out
}

/// The mean row of a component.
fn centre_of(total: u64, area: usize) -> (r: Double)
    requires
        total <= 0x1fff_ffff_e000_0000,
        area > 0,
    ensures
        r == whole(total as int).spec_over(whole(area as int)),
        r.wf(),
        r.spread() <= 264,
{
    Double::from_int(total as i64).over(Double::from_count(area))
}

/// The middle of the band of a line of writing and half its height.
fn band_of(
    totals: &[u64],
    parts: &[Component],
    kept: &[usize],
    Ghost(labels): Ghost<Seq<usize>>,
    Ghost(w): Ghost<int>,
) -> (r: (Double, Double))
    requires
        totals@.len() == parts@.len(),
        parts@.len() <= 0x10_0000_0000_0000,
        kept@ == solid(parts@, parts@.len() as int),
        kept@.len() <= parts@.len(),
        forall|j: int|
            0 <= j < kept@.len() ==> #[trigger] kept@[j] < parts@.len()
                && parts@[kept@[j] as int].area >= 9,
        forall|k: int|
            0 <= k < totals@.len() ==> #[trigger] totals@[k] == row_total(
                labels,
                w,
                k + 1,
                labels.len() as int,
            ) && totals@[k] <= 0x1fff_ffff_e000_0000,
    ensures
        r.0 == band_middle(labels, w, parts@),
        r.1 == band_half(labels, w, parts@),
        r.0.wf(),
        r.0.spread() <= 1100,
        r.1.wf(),
{
    let n: usize = kept.len();
    let mut ys: Vec<Double> = Vec::new();
    let mut i: usize = 0;
    let ghost all = centres(labels, w, parts@);
    while i < n
        invariant
            n == kept@.len(),
            totals@.len() == parts@.len(),
            kept@ == solid(parts@, parts@.len() as int),
            forall|j: int|
                0 <= j < kept@.len() ==> #[trigger] kept@[j] < parts@.len()
                    && parts@[kept@[j] as int].area >= 9,
            forall|k: int|
                0 <= k < totals@.len() ==> #[trigger] totals@[k] == row_total(
                    labels,
                    w,
                    k + 1,
                    labels.len() as int,
                ) && totals@[k] <= 0x1fff_ffff_e000_0000,
            all == centres(labels, w, parts@),
            i <= n,
            ys@ == all.take(i as int),
            forall|j: int|
                0 <= j < ys@.len() ==> (#[trigger] ys@[j]).wf() && ys@[j].spread() <= 264,
        decreases n - i,
    {
        let k: usize = kept[i];
        let y = centre_of(totals[k], parts[k].area);
        ys.push(y);
        i = i + 1;
        proof {
            assert(ys@ =~= all.take(i as int));
        }
    }
    proof {
        assert(ys@ =~= all);
    }
    let middle = percentile(ys.as_slice(), 50, Ghost(264));
    let mut away: Vec<Double> = Vec::new();
    let mut j: usize = 0;
    let ghost goal = offsets(all, middle);
    while j < n
        invariant
            n == ys@.len(),
            ys@ == all,
            middle.wf(),
            middle.spread() <= 1064,
            goal == offsets(all, middle),
            j <= n,
            away@ == goal.take(j as int),
            forall|m: int|
                0 <= m < ys@.len() ==> (#[trigger] ys@[m]).wf() && ys@[m].spread() <= 264,
            forall|m: int|
                0 <= m < away@.len() ==> (#[trigger] away@[m]).wf() && away@[m].spread() <= 1200,
        decreases n - j,
    {
        let d = ys[j].minus(middle).abs();
        away.push(d);
        j = j + 1;
        proof {
            assert(away@ =~= goal.take(j as int));
        }
    }
    proof {
        assert(away@ =~= goal);
    }
    let half = percentile(away.as_slice(), 80, Ghost(1200)).times(Double::decimal(15, 10)).max(
        Double::from_int(15),
    );
    (middle, half)
}

/// The flags of the components that belong to the line, and how many there
/// are.
fn line_flags(
    totals: &[u64],
    parts: &[Component],
    middle: Double,
    half: Double,
    Ghost(labels): Ghost<Seq<usize>>,
    Ghost(w): Ghost<int>,
) -> (r: (Vec<bool>, usize))
    requires
        totals@.len() == parts@.len(),
        forall|k: int| 0 <= k < parts@.len() ==> (#[trigger] parts@[k]).area >= 1,
        forall|k: int|
            0 <= k < totals@.len() ==> #[trigger] totals@[k] == row_total(
                labels,
                w,
                k + 1,
                labels.len() as int,
            ) && totals@[k] <= 0x1fff_ffff_e000_0000,
        middle == band_middle(labels, w, parts@),
        half == band_half(labels, w, parts@),
        middle.wf(),
        middle.spread() <= 1100,
        half.wf(),
    ensures
        r.0@.len() == parts@.len(),
        forall|k: int|
            0 <= k < parts@.len() ==> #[trigger] r.0@[k] == in_line(labels, w, parts@, k),
        r.1 == line_count(labels, w, parts@, parts@.len() as int),
{
    let n: usize = parts.len();
    let mut flags: Vec<bool> = Vec::new();
    let mut count: usize = 0;
    let mut k: usize = 0;
    while k < n
        invariant
            n == parts@.len(),
            totals@.len() == n,
            forall|j: int| 0 <= j < parts@.len() ==> (#[trigger] parts@[j]).area >= 1,
            forall|j: int|
                0 <= j < totals@.len() ==> #[trigger] totals@[j] == row_total(
                    labels,
                    w,
                    j + 1,
                    labels.len() as int,
                ) && totals@[j] <= 0x1fff_ffff_e000_0000,
            middle == band_middle(labels, w, parts@),
            half == band_half(labels, w, parts@),
            middle.wf(),
            middle.spread() <= 1100,
            half.wf(),
            k <= n,
            flags@.len() == k,
            forall|j: int| 0 <= j < k ==> #[trigger] flags@[j] == in_line(labels, w, parts@, j),
            count == line_count(labels, w, parts@, k as int),
            count <= k,
        decreases n - k,
    {
        let c: Component = parts[k];
        let off = centre_of(totals[k], c.area).minus(middle).abs();
        let on: bool = c.area >= 9 && !half.less(off);
        flags.push(on);
        if on {
            count = count + 1;
        }
        k = k + 1;
    }
    (flags, count)
}

/// The cells of the flagged components, and how many there are.
fn flagged_cells(
    labels: &[usize],
    flags: &[bool],
    Ghost(w): Ghost<int>,
    Ghost(parts): Ghost<Seq<Component>>,
) -> (r: (Vec<bool>, usize))
    requires
        is_count(labels@, parts.len() as int),
        flags@.len() == parts.len(),
        forall|k: int|
            0 <= k < parts.len() ==> #[trigger] flags@[k] == in_line(labels@, w, parts, k),
    ensures
        r.0@ == line_cells(labels@, w, parts),
        r.0@.len() == labels@.len(),
        r.1 == set_count(r.0@, r.0@.len() as int),
        r.1 <= labels@.len(),
{
    let n: usize = labels.len();
    let mut cells: Vec<bool> = Vec::new();
    let mut count: usize = 0;
    let mut i: usize = 0;
    let ghost goal = line_cells(labels@, w, parts);
    while i < n
        invariant
            n == labels@.len(),
            is_count(labels@, parts.len() as int),
            flags@.len() == parts.len(),
            forall|k: int|
                0 <= k < parts.len() ==> #[trigger] flags@[k] == in_line(labels@, w, parts, k),
            goal == line_cells(labels@, w, parts),
            i <= n,
            cells@ == goal.take(i as int),
            count == set_count(goal, i as int),
            count <= i,
        decreases n - i,
    {
        let v: usize = labels[i];
        let on: bool = v > 0 && flags[v - 1];
        cells.push(on);
        if on {
            count = count + 1;
        }
        i = i + 1;
        proof {
            assert(cells@ =~= goal.take(i as int));
        }
    }
    proof {
        assert(cells@ =~= goal);
    }
    (cells, count)
}

/// Narrows a box to the strokes of the line of writing inside it.
pub fn refine_box_mask(picture: &Picture, b: Frame) -> (r: Option<Mask>)
    requires
        picture.wf(),
        computable(b),
    ensures
        match refined(picture, b) {
            Some(data) => r matches Some(mask) && mask.data@ == data,
            None => r is None,
        },
        r matches Some(mask) ==> mask.wf() && mask.width == picture.width && mask.height
            == picture.height,
{
    let iw: i64 = picture.width as i64;
    let ih: i64 = picture.height as i64;
    let x1: i64 = if b.0 - 16 < 0 {
        0
    } else {
        b.0 - 16
    };
    let y1: i64 = if b.1 - 16 < 0 {
        0
    } else {
        b.1 - 16
    };
    let x2: i64 = if iw < b.2 + 16 {
        iw
    } else {
        b.2 + 16
    };
    let y2: i64 = if ih < b.3 + 16 {
        ih
    } else {
        b.3 + 16
    };
    if x2 < x1 + 8 || y2 < y1 + 8 {
        return None;
    }
    let region = Region {
        x0: x1 as usize,
        y0: y1 as usize,
        rw: (x2 - x1) as usize,
        rh: (y2 - y1) as usize,
    };
    let (rw, rh): (usize, usize) = (region.rw, region.rh);
    proof {
        lemma_measurable_part(
            picture.width as int,
            picture.height as int,
            rw as int,
            rh as int,
        );
        lemma_measurable_area(rw as int, rh as int);
    }
    let (tones, colour) = region_pixels(picture, &region);
    let opening = ellipse_opening(tones.as_slice(), rw, rh, 15);
    let hat = difference(tones.as_slice(), opening.as_slice());
    let active = stroke_cells(hat.as_slice(), colour.as_slice(), rw, rh);
    let found = labels_of(active.as_slice(), rw, rh);
    let kept = solid_of(found.parts.as_slice());
    if kept.len() == 0 {
        return None;
    }
    let totals = row_totals(found.labels.as_slice(), rw, rh, found.parts.len());
    let ghost labels = found.labels@;
    let ghost parts = found.parts@;
    proof {
        assert forall|k: int| 0 <= k < totals@.len() implies #[trigger] totals@[k]
            <= 0x1fff_ffff_e000_0000 by {
            lemma_row_total_bound(labels, rw as int, rh as int, k + 1, labels.len() as int);
        }
    }
    let (middle, half) = band_of(
        totals.as_slice(),
        found.parts.as_slice(),
        kept.as_slice(),
        Ghost(labels),
        Ghost(rw as int),
    );
    let (flags, pieces) = line_flags(
        totals.as_slice(),
        found.parts.as_slice(),
        middle,
        half,
        Ghost(labels),
        Ghost(rw as int),
    );
    let (cells, count) = flagged_cells(
        found.labels.as_slice(),
        flags.as_slice(),
        Ghost(rw as int),
        Ghost(parts),
    );
    let area: i64 = (b.2 - b.0) * (b.3 - b.1);
    let limit = Double::from_int(area).times(Double::decimal(6, 10));
    if count == 0 || limit.less(Double::from_count(count)) || pieces > 300 {
        return None;
    }
    let grown = dilate(cells.as_slice(), rw, rh, 9, 5);
    let total: usize = picture.data.len();
    Some(
        stamp(
            grown.as_slice(),
            rw,
            rh,
            region.x0,
            region.y0,
            picture.width,
            picture.height,
        ),
    )
}

} // verus!
