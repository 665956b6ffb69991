//! Correlating a plane with a mark: planes of mean zero and spread one, planes
//! at a quarter of their size, and the place where a mark fits best.

use crate::boxes::smaller;
use crate::grid::{lemma_cell, lemma_position};
use crate::learning::{level, level_of};
use crate::number::{lemma_number_order, lemma_number_strict, Class, Number};
use vstd::prelude::*;

verus! {

/// The sum of the first `n` values, one after the other in single precision.
pub open spec fn sum_of(v: Seq<Number>, n: int) -> Number
    decreases n,
{
    if n <= 0 {
        Number::spec_int(0)
    } else {
        sum_of(v, n - 1).spec_plus(v[n - 1]).spec_short()
    }
}

/// The mean of the values.
pub open spec fn mean_of(v: Seq<Number>) -> Number {
    let n = v.len() as int;
    sum_of(v, n).spec_over(Number::spec_int(n).spec_short()).spec_short()
}

/// How far a value lies above the mean.
pub open spec fn above_mean(v: Number, mean: Number) -> Number {
    v.spec_minus(mean).spec_short()
}

/// The sum of the first `n` squared distances from the mean.
pub open spec fn square_sum(v: Seq<Number>, mean: Number, n: int) -> Number
    decreases n,
{
    if n <= 0 {
        Number::spec_int(0)
    } else {
        let d = above_mean(v[n - 1], mean);
        square_sum(v, mean, n - 1).spec_plus(d.spec_times(d).spec_short()).spec_short()
    }
}

/// The spread of the values, at least a millionth.
pub open spec fn spread_of(v: Seq<Number>) -> Number {
    let n = v.len() as int;
    square_sum(v, mean_of(v), n).spec_over(
        Number::spec_int(n).spec_short(),
    ).spec_short().spec_sqrt().spec_short().spec_max(level(1, 1_000_000))
}

/// The values with mean zero and spread one.
pub open spec fn unit_plane(v: Seq<Number>) -> Seq<Number> {
    Seq::new(
        v.len(),
        |i: int| above_mean(v[i], mean_of(v)).spec_over(spread_of(v)).spec_short(),
    )
}

/// Gives a plane mean zero and spread one.
pub fn normalize_unit(v: &[Number]) -> (r: Vec<Number>)
    ensures
        r@ == unit_plane(v@),
{
    let n: usize = v.len();
    let count = Number::from_count(n).short();
    let mut sum = Number::from_int(0);
    let mut i: usize = 0;
    while i < n
        invariant
            n == v@.len(),
            i <= n,
            sum == sum_of(v@, i as int),
        decreases n - i,
    {
        sum = sum.plus(v[i]).short();
        i = i + 1;
    }
    let mean = sum.over(count).short();
    let mut squares = Number::from_int(0);
    i = 0;
    while i < n
        invariant
            n == v@.len(),
            i <= n,
            mean == mean_of(v@),
            squares == square_sum(v@, mean, i as int),
        decreases n - i,
    {
        let d = v[i].minus(mean).short();
        squares = squares.plus(d.times(d).short()).short();
        i = i + 1;
    }
    let spread = squares.over(count).short().sqrt().short().max(level_of(1, 1_000_000));
    let mut out: Vec<Number> = Vec::new();
    i = 0;
    while i < n
        invariant
            n == v@.len(),
            i <= n,
            mean == mean_of(v@),
            spread == spread_of(v@),
            out@.len() == i,
            forall|k: int| 0 <= k < i ==> #[trigger] out@[k] == unit_plane(v@)[k],
        decreases n - i,
    {
        out.push(v[i].minus(mean).short().over(spread).short());
        i = i + 1;
    }
    proof {
        assert(out@ =~= unit_plane(v@));
    }
    out
}

/// How many blocks of four it takes to cover `n`.
pub open spec fn quarter(n: int) -> int {
    (n + 3) / 4
}

/// How long block `k` of a side of `n` is: four, or what is left.
pub open spec fn block_side(k: int, n: int) -> int {
    smaller(4, n - 4 * k)
}

/// The sum of the first `n` values of block `x`, `y`.
pub open spec fn block_sum(src: Seq<Number>, w: int, x: int, y: int, n: int) -> Number
    decreases n,
{
    if n <= 0 {
        Number::spec_int(0)
    } else {
        let bw = block_side(x, w);
        let (dx, dy) = ((n - 1) % bw, (n - 1) / bw);
        block_sum(src, w, x, y, n - 1).spec_plus(src[(4 * y + dy) * w + 4 * x + dx])
    }
}

/// The mean of block `x`, `y`.
pub open spec fn block_mean(src: Seq<Number>, w: int, h: int, x: int, y: int) -> Number {
    let n = block_side(x, w) * block_side(y, h);
    block_sum(src, w, x, y, n).spec_over(Number::spec_int(n)).spec_short()
}

/// A plane at a quarter of its size: the means of its blocks of four by four.
pub open spec fn quartered(src: Seq<Number>, w: int, h: int) -> Seq<Number> {
    Seq::new(
        (quarter(w) * quarter(h)) as nat,
        |i: int| block_mean(src, w, h, i % quarter(w), i / quarter(w)),
    )
}

fn block_of(src: &[Number], w: usize, h: usize, x: usize, y: usize) -> (r: Number)
    requires
        src@.len() == w * h,
        w <= 0xffff_ffff,
        h <= 0xffff_ffff,
        x < quarter(w as int),
        y < quarter(h as int),
    ensures
        r == block_mean(src@, w as int, h as int, x as int, y as int),
{
    let (left, top): (usize, usize) = (4 * x, 4 * y);
    let bw: usize = if w - left < 4 {
        w - left
    } else {
        4
    };
    let bh: usize = if h - top < 4 {
        h - top
    } else {
        4
    };
    proof {
        assert(0 < bw * bh && bw * bh <= 16) by (nonlinear_arith)
            requires
                0 < bw <= 4,
                0 < bh <= 4,
        ;
    }
    let n: usize = bw * bh;
    let total: usize = src.len();
    let mut sum = Number::from_int(0);
    let mut k: usize = 0;
    while k < n
        invariant
            src@.len() == w * h,
            total == w * h,
            left == 4 * x,
            top == 4 * y,
            bw == block_side(x as int, w as int),
            0 < bw <= w - left,
            0 < bh <= h - top,
            n == bw * bh,
            k <= n,
            sum == block_sum(src@, w as int, x as int, y as int, k as int),
        decreases n - k,
    {
        proof {
            lemma_position(bw as int, bh as int, k as int);
            lemma_cell(w as int, h as int, left + k as int % bw as int, top + k as int / bw as int);
        }
        sum = sum.plus(src[(top + k / bw) * w + left + k % bw]);
        k = k + 1;
    }
    sum.over(Number::from_count(n)).short()
}

/// A plane at a quarter of its size, and that size.
pub fn downscale(src: &[Number], w: usize, h: usize) -> (r: (Vec<Number>, usize, usize))
    requires
        src@.len() == w * h,
        w <= 0xffff_ffff,
        h <= 0xffff_ffff,
    ensures
        r.0@ == quartered(src@, w as int, h as int),
        r.1 == quarter(w as int),
        r.2 == quarter(h as int),
{
    let dw: usize = if w == 0 {
        0
    } else {
        (w - 1) / 4 + 1
    };
    let dh: usize = if h == 0 {
        0
    } else {
        (h - 1) / 4 + 1
    };
    let total: usize = src.len();
    proof {
        assert(0 <= dw * dh && dw * dh <= w * h) by (nonlinear_arith)
            requires
                0 <= dw <= w,
                0 <= dh <= h,
        ;
    }
    let n: usize = dw * dh;
    let mut out: Vec<Number> = Vec::new();
    let mut i: usize = 0;
    while i < n
        invariant
            src@.len() == w * h,
            w <= 0xffff_ffff,
            h <= 0xffff_ffff,
            dw == quarter(w as int),
            dh == quarter(h as int),
            n == dw * dh,
            i <= n,
            out@.len() == i,
            forall|k: int|
                0 <= k < i ==> #[trigger] out@[k] == quartered(src@, w as int, h as int)[k],
        decreases n - i,
    {
        proof {
            lemma_position(dw as int, dh as int, i as int);
        }
        out.push(block_of(src, w, h, i % dw, i / dw));
        i = i + 1;
    }
    proof {
        assert(out@ =~= quartered(src@, w as int, h as int));
    }
    (out, dw, dh)
}

/// The sum of the first `n` products of a mark of width `tw` and the plane
/// below it.
pub open spec fn window_dot(
    plane: Seq<Number>,
    pw: int,
    mark: Seq<Number>,
    tw: int,
    px: int,
    py: int,
    n: int,
) -> Number
    decreases n,
{
    if n <= 0 {
        Number::spec_int(0)
    } else {
        let v = plane[(py + (n - 1) / tw) * pw + px + (n - 1) % tw];
        window_dot(plane, pw, mark, tw, px, py, n - 1).spec_plus(mark[n - 1].spec_times(v))
    }
}

/// The sum of the first `n` squares of the plane below a mark of width `tw`.
pub open spec fn window_norm(
    plane: Seq<Number>,
    pw: int,
    tw: int,
    px: int,
    py: int,
    n: int,
) -> Number
    decreases n,
{
    if n <= 0 {
        Number::spec_int(0)
    } else {
        let v = plane[(py + (n - 1) / tw) * pw + px + (n - 1) % tw];
        window_norm(plane, pw, tw, px, py, n - 1).spec_plus(v.spec_times(v))
    }
}

/// The cosine between a mark of spread one and the plane below it.
pub open spec fn cosine(
    plane: Seq<Number>,
    pw: int,
    mark: Seq<Number>,
    size: (int, int),
    px: int,
    py: int,
) -> Number {
    let n = size.0 * size.1;
    let length = Number::spec_int(n).spec_sqrt().spec_times(
        window_norm(plane, pw, size.0, px, py, n).spec_sqrt(),
    );
    window_dot(plane, pw, mark, size.0, px, py, n).spec_over(
        length.spec_max(Number::spec_ratio(1, 1_000_000_000)),
    )
}

/// The best place after `n` tries, row by row from `first`, with its cosine;
/// the first of equals stays.
pub open spec fn best_cosine(
    plane: Seq<Number>,
    pw: int,
    mark: Seq<Number>,
    size: (int, int),
    first: (int, int),
    across: int,
    n: int,
) -> Option<(Number, int, int)>
    decreases n,
{
    if n <= 0 {
        None
    } else {
        let before = best_cosine(plane, pw, mark, size, first, across, n - 1);
        let (px, py) = (first.0 + (n - 1) % across, first.1 + (n - 1) / across);
        let score = cosine(plane, pw, mark, size, px, py);
        if before is None || before.unwrap().0.spec_lt(score) {
            Some((score, px, py))
        } else {
            before
        }
    }
}

/// Where a mark fits best into a plane, from `first` to `last`. Nothing where
/// the mark does not fit or no place is left.
pub open spec fn scanned(
    plane: Seq<Number>,
    pw: int,
    ph: int,
    mark: Seq<Number>,
    size: (int, int),
    first: (int, int),
    last: (int, int),
) -> Option<(Number, int, int)> {
    if size.0 >= pw || size.1 >= ph || first.0 > last.0 || first.1 > last.1 {
        None
    } else {
        let across = last.0 - first.0 + 1;
        best_cosine(plane, pw, mark, size, first, across, across * (last.1 - first.1 + 1))
    }
}

fn squares_of(plane: &[Number]) -> (r: Vec<Number>)
    ensures
        r@.len() == plane@.len(),
        forall|i: int|
            0 <= i < plane@.len() ==> #[trigger] r@[i] == plane@[i].spec_times(plane@[i]),
{
    let n: usize = plane.len();
    let mut out: Vec<Number> = Vec::new();
    let mut i: usize = 0;
    while i < n
        invariant
            n == plane@.len(),
            i <= n,
            out@.len() == i,
            forall|k: int| 0 <= k < i ==> #[trigger] out@[k] == plane@[k].spec_times(plane@[k]),
        decreases n - i,
    {
        out.push(plane[i].times(plane[i]));
        i = i + 1;
    }
    out
}

fn cosine_of(
    plane: &[Number],
    squares: &[Number],
    pw: usize,
    ph: usize,
    mark: &[Number],
    size: (usize, usize),
    px: usize,
    py: usize,
) -> (r: Number)
    requires
        plane@.len() == pw * ph,
        squares@.len() == plane@.len(),
        forall|i: int|
            0 <= i < plane@.len() ==> #[trigger] squares@[i] == plane@[i].spec_times(plane@[i]),
        mark@.len() == size.0 * size.1,
        px + size.0 <= pw,
        py + size.1 <= ph,
    ensures
        r == cosine(
            plane@,
            pw as int,
            mark@,
            (size.0 as int, size.1 as int),
            px as int,
            py as int,
        ),
{
    let n: usize = mark.len();
    let total: usize = plane.len();
    let (tw, th): (usize, usize) = size;
    let mut dot = Number::from_int(0);
    let mut norm = Number::from_int(0);
    let mut k: usize = 0;
    while k < n
        invariant
            plane@.len() == pw * ph,
            squares@.len() == plane@.len(),
            forall|i: int|
                0 <= i < plane@.len() ==> #[trigger] squares@[i] == plane@[i].spec_times(
                    plane@[i],
                ),
            total == pw * ph,
            n == mark@.len(),
            n == tw * th,
            px + tw <= pw,
            py + th <= ph,
            k <= n,
            dot == window_dot(
                plane@,
                pw as int,
                mark@,
                tw as int,
                px as int,
                py as int,
                k as int,
            ),
            norm == window_norm(plane@, pw as int, tw as int, px as int, py as int, k as int),
        decreases n - k,
    {
        proof {
            lemma_position(tw as int, th as int, k as int);
            lemma_cell(pw as int, ph as int, px + k as int % tw as int, py + k as int / tw as int);
        }
        let at: usize = (py + k / tw) * pw + px + k % tw;
        dot = dot.plus(mark[k].times(plane[at]));
        norm = norm.plus(squares[at]);
        k = k + 1;
    }
    let length = Number::from_count(n).sqrt().times(norm.sqrt());
    dot.over(length.max(Number::decimal(1, 1_000_000_000)))
}

/// Where a mark of spread one fits best into a plane.
pub fn cosine_scan(
    plane: &[Number],
    pw: usize,
    ph: usize,
    mark: &[Number],
    size: (usize, usize),
    first: (usize, usize),
    last: (usize, usize),
) -> (r: Option<(Number, usize, usize)>)
    requires
        plane@.len() == pw * ph,
        mark@.len() == size.0 * size.1,
        size.0 < pw ==> last.0 <= pw - size.0,
        size.1 < ph ==> last.1 <= ph - size.1,
        size.0 > 0,
        size.1 > 0,
    ensures
        match scanned(
            plane@,
            pw as int,
            ph as int,
            mark@,
            (size.0 as int, size.1 as int),
            (first.0 as int, first.1 as int),
            (last.0 as int, last.1 as int),
        ) {
            None => r is None,
            Some(f) => r matches Some(g) && g.0 == f.0 && g.1 == f.1 && g.2 == f.2,
        },
        r matches Some(g) ==> g.1 <= last.0 && g.2 <= last.1 && g.1 + size.0 <= pw && g.2 + size.1
            <= ph,
{
    if size.0 >= pw || size.1 >= ph || first.0 > last.0 || first.1 > last.1 {
        return None;
    }
    let squares = squares_of(plane);
    let across: usize = last.0 - first.0 + 1;
    let down: usize = last.1 - first.1 + 1;
    let total: usize = plane.len();
    proof {
        assert(0 <= across * down && across * down <= pw * ph) by (nonlinear_arith)
            requires
                0 <= across <= pw,
                0 <= down <= ph,
        ;
    }
    let n: usize = across * down;
    let mut best: Option<(Number, usize, usize)> = None;
    let mut k: usize = 0;
    while k < n
        invariant
            plane@.len() == pw * ph,
            squares@.len() == plane@.len(),
            forall|i: int|
                0 <= i < plane@.len() ==> #[trigger] squares@[i] == plane@[i].spec_times(
                    plane@[i],
                ),
            mark@.len() == size.0 * size.1,
            first.0 <= last.0 <= pw - size.0,
            first.1 <= last.1 <= ph - size.1,
            across == last.0 - first.0 + 1,
            down == last.1 - first.1 + 1,
            n == across * down,
            k <= n,
            match best_cosine(
                plane@,
                pw as int,
                mark@,
                (size.0 as int, size.1 as int),
                (first.0 as int, first.1 as int),
                across as int,
                k as int,
            ) {
                None => best is None,
                Some(f) => best matches Some(g) && g.0 == f.0 && g.1 == f.1 && g.2 == f.2,
            },
            best matches Some(g) ==> g.1 <= last.0 && g.2 <= last.1,
        decreases n - k,
    {
        proof {
            lemma_position(across as int, down as int, k as int);
        }
        let px: usize = first.0 + k % across;
        let py: usize = first.1 + k / across;
        let score = cosine_of(plane, squares.as_slice(), pw, ph, mark, size, px, py);
        let better: bool = match best {
            None => true,
            Some(b) => b.0.less(score),
        };
        if better {
            best = Some((score, px, py));
        }
        k = k + 1;
    }
    best
}

/// No place that was scanned fits better than the one that is found, if every
/// cosine is a number.
pub proof fn lemma_best_cosine_highest(
    plane: Seq<Number>,
    pw: int,
    mark: Seq<Number>,
    size: (int, int),
    first: (int, int),
    across: int,
    n: int,
    k: int,
)
    requires
        0 <= k < n,
        forall|px: int, py: int|
            #[trigger] cosine(plane, pw, mark, size, px, py).kind() != Class::Nan,
    ensures
        best_cosine(plane, pw, mark, size, first, across, n) matches Some(b) && {
            &&& b.0 == cosine(plane, pw, mark, size, b.1, b.2)
            &&& !b.0.spec_lt(
                cosine(plane, pw, mark, size, first.0 + k % across, first.1 + k / across),
            )
        },
    decreases n,
{
    let score = cosine(plane, pw, mark, size, first.0 + k % across, first.1 + k / across);
    let (lx, ly) = (first.0 + (n - 1) % across, first.1 + (n - 1) / across);
    let last = cosine(plane, pw, mark, size, lx, ly);
    assert(score.kind() != Class::Nan && last.kind() != Class::Nan);
    lemma_number_strict(last, last);
    if n > 1 {
        if k < n - 1 {
            lemma_best_cosine_highest(plane, pw, mark, size, first, across, n - 1, k);
        } else {
            lemma_best_cosine_highest(plane, pw, mark, size, first, across, n - 1, 0);
        }
        let high = best_cosine(plane, pw, mark, size, first, across, n - 1).unwrap().0;
        assert(high.kind() != Class::Nan);
        if high.spec_lt(last) && k < n - 1 {
            lemma_number_strict(high, last);
            lemma_number_order(score, high, last);
        }
    }
}

} // verus!
