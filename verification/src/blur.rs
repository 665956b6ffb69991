//! Blurring planes of numbers by a row of weights, and what sticks out of the
//! blur.

use crate::grid::{lemma_cell, lemma_position};
use crate::number::Number;
use crate::scaling::lemma_channel;
use crate::shift::moved;
use vstd::prelude::*;

verus! {

/// The weighted sum of the first `n` values around position `x` of a row of
/// `len`, the edges repeated; `value` tells the value at a position.
pub open spec fn weighted(
    value: spec_fn(int) -> Number,
    kernel: Seq<Number>,
    x: int,
    len: int,
    n: int,
) -> Number
    decreases n,
{
    if n <= 0 {
        Number::spec_int(0)
    } else {
        let at = moved(x, n - 1 - (kernel.len() - 1) / 2, len);
        weighted(value, kernel, x, len, n - 1).spec_plus(kernel[n - 1].spec_times(value(at)))
    }
}

/// Channel `c` of row `y`.
pub open spec fn row_of(src: Seq<Number>, w: int, nc: int, y: int, c: int) -> spec_fn(int) -> Number {
    |x: int| src[(y * w + x) * nc + c]
}

/// Channel `c` of column `x`.
pub open spec fn column_of(src: Seq<Number>, w: int, nc: int, x: int, c: int) -> spec_fn(
    int,
) -> Number {
    |y: int| src[(y * w + x) * nc + c]
}

/// The rows of a plane blurred.
pub open spec fn blurred_rows(src: Seq<Number>, w: int, nc: int, kernel: Seq<Number>) -> Seq<Number> {
    Seq::new(
        src.len(),
        |j: int| {
            let i = j / nc;
            weighted(
                row_of(src, w, nc, i / w, j % nc),
                kernel,
                i % w,
                w,
                kernel.len() as int,
            ).spec_short()
        },
    )
}

/// The columns of a plane blurred.
pub open spec fn blurred_columns(
    src: Seq<Number>,
    w: int,
    h: int,
    nc: int,
    kernel: Seq<Number>,
) -> Seq<Number> {
    Seq::new(
        src.len(),
        |j: int| {
            let i = j / nc;
            weighted(
                column_of(src, w, nc, i % w, j % nc),
                kernel,
                i / w,
                h,
                kernel.len() as int,
            ).spec_short()
        },
    )
}

/// A plane blurred both ways, rows first.
pub open spec fn blurred(
    src: Seq<Number>,
    w: int,
    h: int,
    nc: int,
    kernel: Seq<Number>,
) -> Seq<Number> {
    blurred_columns(blurred_rows(src, w, nc, kernel), w, h, nc, kernel)
}

fn shifted(x: usize, k: usize, reach: usize, n: usize) -> (r: usize)
    requires
        x < n <= 0xffff_ffff,
        reach <= 1000,
        k <= 2 * reach + 1,
    ensures
        r == moved(x as int, k - reach, n as int),
        r < n,
{
    let at: i64 = x as i64 + k as i64 - reach as i64;
    if at < 0 {
        0
    } else if at >= n as i64 {
        n - 1
    } else {
        at as usize
    }
}

/// The blur along one row or column at one position.
fn weigh(
    src: &[Number],
    w: usize,
    h: usize,
    nc: usize,
    kernel: &[Number],
    i: usize,
    c: usize,
    along: bool,
) -> (r: Number)
    requires
        src@.len() == (w * h) * nc,
        0 < nc <= 4,
        w <= 0xffff_ffff,
        h <= 0xffff_ffff,
        0 < kernel@.len() <= 1001,
        i < w * h,
        c < nc,
    ensures
        ({
            let (x, y) = (i as int % w as int, i as int / w as int);
            r == if along {
                weighted(
                    column_of(src@, w as int, nc as int, x, c as int),
                    kernel@,
                    y,
                    h as int,
                    kernel@.len() as int,
                )
            } else {
                weighted(
                    row_of(src@, w as int, nc as int, y, c as int),
                    kernel@,
                    x,
                    w as int,
                    kernel@.len() as int,
                )
            }
        }),
{
    let total: usize = src.len();
    let n: usize = kernel.len();
    let reach: usize = (n - 1) / 2;
    proof {
        lemma_position(w as int, h as int, i as int);
    }
    let (x, y): (usize, usize) = (i % w, i / w);
    let ghost value = if along {
        column_of(src@, w as int, nc as int, x as int, c as int)
    } else {
        row_of(src@, w as int, nc as int, y as int, c as int)
    };
    let ghost (at, len) = if along {
        (y as int, h as int)
    } else {
        (x as int, w as int)
    };
    let mut sum = Number::from_int(0);
    let mut k: usize = 0;
    while k < n
        invariant
            total == src@.len(),
            src@.len() == (w * h) * nc,
            0 < nc <= 4,
            w <= 0xffff_ffff,
            h <= 0xffff_ffff,
            n == kernel@.len(),
            0 < n <= 1001,
            reach == (n - 1) / 2,
            x < w,
            y < h,
            c < nc,
            value == if along {
                column_of(src@, w as int, nc as int, x as int, c as int)
            } else {
                row_of(src@, w as int, nc as int, y as int, c as int)
            },
            at == if along {
                y as int
            } else {
                x as int
            },
            len == if along {
                h as int
            } else {
                w as int
            },
            k <= n,
            sum == weighted(value, kernel@, at, len, k as int),
        decreases n - k,
    {
        let (sx, sy): (usize, usize) = if along {
            (x, shifted(y, k, reach, h))
        } else {
            (shifted(x, k, reach, w), y)
        };
        proof {
            lemma_cell(w as int, h as int, sx as int, sy as int);
            lemma_channel(w * h, nc as int, sy * w + sx, c as int);
            assert(w * h <= total) by (nonlinear_arith)
                requires
                    total == (w * h) * nc,
                    nc >= 1,
                    w * h >= 0,
            ;
        }
        sum = sum.plus(kernel[k].times(src[(sy * w + sx) * nc + c]));
        k = k + 1;
    }
    sum
}

fn blur_pass(src: &[Number], w: usize, h: usize, nc: usize, kernel: &[Number], along: bool) -> (r:
    Vec<Number>)
    requires
        src@.len() == (w * h) * nc,
        0 < nc <= 4,
        w <= 0xffff_ffff,
        h <= 0xffff_ffff,
        0 < kernel@.len() <= 1001,
    ensures
        r@ == if along {
            blurred_columns(src@, w as int, h as int, nc as int, kernel@)
        } else {
            blurred_rows(src@, w as int, nc as int, kernel@)
        },
        r@.len() == src@.len(),
{
    let n: usize = src.len();
    let ghost goal = if along {
        blurred_columns(src@, w as int, h as int, nc as int, kernel@)
    } else {
        blurred_rows(src@, w as int, nc as int, kernel@)
    };
    let mut out: Vec<Number> = Vec::new();
    let mut j: usize = 0;
    while j < n
        invariant
            n == src@.len(),
            n == (w * h) * nc,
            0 < nc <= 4,
            w <= 0xffff_ffff,
            h <= 0xffff_ffff,
            0 < kernel@.len() <= 1001,
            goal == if along {
                blurred_columns(src@, w as int, h as int, nc as int, kernel@)
            } else {
                blurred_rows(src@, w as int, nc as int, kernel@)
            },
            goal.len() == n,
            j <= n,
            out@ == goal.take(j as int),
        decreases n - j,
    {
        proof {
            assert((w * h) * nc == nc * (w * h)) by (nonlinear_arith);
            assert(w * h >= 0) by (nonlinear_arith)
                requires
                    w >= 0,
                    h >= 0,
            ;
            lemma_position(nc as int, w * h, j as int);
        }
        out.push(weigh(src, w, h, nc, kernel, j / nc, j % nc, along).short());
        j = j + 1;
        proof {
            assert(out@ =~= goal.take(j as int));
        }
    }
    proof {
        assert(out@ =~= goal);
    }
    out
}

/// Blurs a plane of `nc` channels by a row of weights, an odd number of them.
pub fn gauss_blur(src: &[Number], w: usize, h: usize, nc: usize, kernel: &[Number]) -> (r: Vec<
    Number,
>)
    requires
        src@.len() == (w * h) * nc,
        0 < nc <= 4,
        w <= 0xffff_ffff,
        h <= 0xffff_ffff,
        0 < kernel@.len() <= 1001,
    ensures
        r@ == blurred(src@, w as int, h as int, nc as int, kernel@),
        r@.len() == src@.len(),
{
    let rows = blur_pass(src, w, h, nc, kernel, false);
    blur_pass(rows.as_slice(), w, h, nc, kernel, true)
}

/// The distances of the first `n` values of two planes, summed.
pub open spec fn distance_sum(a: Seq<Number>, b: Seq<Number>, n: int) -> Number
    decreases n,
{
    if n <= 0 {
        Number::spec_int(0)
    } else {
        distance_sum(a, b, n - 1).spec_plus(a[n - 1].spec_minus(b[n - 1]).spec_abs())
    }
}

/// How far a plane is from its blur, on average; zero for an empty plane.
pub open spec fn roughness(src: Seq<Number>, w: int, h: int, kernel: Seq<Number>) -> Number {
    if w == 0 || h == 0 {
        Number::spec_int(0)
    } else {
        distance_sum(src, blurred(src, w, h, 3, kernel), src.len() as int).spec_over(
            Number::spec_int(src.len() as int),
        )
    }
}

/// How far a plane of three channels is from its blur, on average.
pub fn roughness_of(src: &[Number], w: usize, h: usize, kernel: &[Number]) -> (r: Number)
    requires
        src@.len() == (w * h) * 3,
        w <= 0xffff_ffff,
        h <= 0xffff_ffff,
        0 < kernel@.len() <= 1001,
    ensures
        r == roughness(src@, w as int, h as int, kernel@),
{
    if w == 0 || h == 0 {
        return Number::from_int(0);
    }
    let soft = gauss_blur(src, w, h, 3, kernel);
    let n: usize = src.len();
    let mut sum = Number::from_int(0);
    let mut j: usize = 0;
    while j < n
        invariant
            n == src@.len(),
            n == soft@.len(),
            j <= n,
            sum == distance_sum(src@, soft@, j as int),
        decreases n - j,
    {
        sum = sum.plus(src[j].minus(soft[j]).abs());
        j = j + 1;
    }
    sum.over(Number::from_count(n))
}

/// A weighted sum depends on the values in the row alone.
proof fn lemma_weighted_agrees(
    f: spec_fn(int) -> Number,
    g: spec_fn(int) -> Number,
    kernel: Seq<Number>,
    x: int,
    len: int,
    n: int,
)
    requires
        0 <= x < len,
        forall|k: int| 0 <= k < len ==> #[trigger] f(k) == g(k),
    ensures
        weighted(f, kernel, x, len, n) == weighted(g, kernel, x, len, n),
    decreases n,
{
    if n > 0 {
        lemma_weighted_agrees(f, g, kernel, x, len, n - 1);
        let at = moved(x, n - 1 - (kernel.len() - 1) / 2, len);
        assert(0 <= at < len);
        assert(f(at) == g(at));
    }
}

/// Blurring keeps the channels apart: two planes that agree in one channel agree
/// in that channel when they are blurred, whatever their other channels hold.
pub proof fn lemma_blurring_keeps_channels_apart(
    a: Seq<Number>,
    b: Seq<Number>,
    w: int,
    h: int,
    nc: int,
    kernel: Seq<Number>,
    c: int,
    i: int,
)
    requires
        0 < w,
        0 < h,
        0 <= c < nc,
        a.len() == w * h * nc,
        b.len() == w * h * nc,
        forall|k: int| 0 <= k < w * h ==> #[trigger] a[k * nc + c] == b[k * nc + c],
        0 <= i < w * h,
    ensures
        blurred(a, w, h, nc, kernel)[i * nc + c] == blurred(b, w, h, nc, kernel)[i * nc + c],
{
    let (p, q) = (blurred_rows(a, w, nc, kernel), blurred_rows(b, w, nc, kernel));
    let n = kernel.len() as int;
    assert forall|k: int| 0 <= k < w * h implies #[trigger] p[k * nc + c] == q[k * nc + c] by {
        lemma_channel(w * h, nc, k, c);
        lemma_position(w, h, k);
        let y = k / w;
        let (f, g) = (row_of(a, w, nc, y, c), row_of(b, w, nc, y, c));
        assert forall|x: int| 0 <= x < w implies #[trigger] f(x) == g(x) by {
            lemma_cell(w, h, x, y);
            assert(a[(y * w + x) * nc + c] == b[(y * w + x) * nc + c]);
        }
        lemma_weighted_agrees(f, g, kernel, k % w, w, n);
    }
    lemma_channel(w * h, nc, i, c);
    lemma_position(w, h, i);
    let x = i % w;
    let (f, g) = (column_of(p, w, nc, x, c), column_of(q, w, nc, x, c));
    assert forall|y: int| 0 <= y < h implies #[trigger] f(y) == g(y) by {
        lemma_cell(w, h, x, y);
        assert(p[(y * w + x) * nc + c] == q[(y * w + x) * nc + c]);
    }
    lemma_weighted_agrees(f, g, kernel, i / w, h, n);
}

} // verus!
