//! Bilinear scaling of planes of numbers in single precision.

use crate::boxes::{larger, smaller};
use crate::grid::{lemma_cell, lemma_position};
use crate::number::Number;
use vstd::prelude::*;

verus! {

/// Where the middle of target `k` of `m` lies among `n` sources.
pub open spec fn source_place(k: int, n: int, m: int) -> Number {
    let step = Number::spec_int(n).spec_short().spec_over(
        Number::spec_int(m).spec_short(),
    ).spec_short();
    let half = Number::spec_ratio(1, 2);
    Number::spec_int(k).spec_short().spec_plus(half).spec_short().spec_times(
        step,
    ).spec_short().spec_minus(half).spec_short()
}

/// The source at or before a place.
pub open spec fn source_before(place: Number, n: int) -> int {
    larger(smaller(place.spec_floor().spec_max(Number::spec_int(0)).spec_trunc(), n - 1), 0)
}

/// The source after source `i`, or the last.
pub open spec fn source_after(i: int, n: int) -> int {
    smaller(i + 1, n - 1)
}

/// How far a place lies behind the source before it.
pub open spec fn share(place: Number) -> Number {
    place.spec_minus(place.spec_floor()).spec_short()
}

/// `a` and `b` mixed, with the share `t` for `b`.
pub open spec fn mix(a: Number, b: Number, t: Number) -> Number {
    a.spec_times(Number::spec_int(1).spec_minus(t).spec_short()).spec_short().spec_plus(
        b.spec_times(t).spec_short(),
    ).spec_short()
}

/// The value of channel `c` at column `x` of row `y` of the scaled plane.
pub open spec fn scaled_value(
    src: Seq<Number>,
    sw: int,
    sh: int,
    nc: int,
    dw: int,
    dh: int,
    x: int,
    y: int,
    c: int,
) -> Number {
    let (fx, fy) = (source_place(x, sw, dw), source_place(y, sh, dh));
    let (x0, y0) = (source_before(fx, sw), source_before(fy, sh));
    let (x1, y1) = (source_after(x0, sw), source_after(y0, sh));
    mix(
        mix(src[(y0 * sw + x0) * nc + c], src[(y0 * sw + x1) * nc + c], share(fx)),
        mix(src[(y1 * sw + x0) * nc + c], src[(y1 * sw + x1) * nc + c], share(fx)),
        share(fy),
    )
}

/// A plane of `nc` channels scaled from `sw` x `sh` to `dw` x `dh`; zeros for
/// an empty plane.
pub open spec fn scaled_plane(
    src: Seq<Number>,
    sw: int,
    sh: int,
    nc: int,
    dw: int,
    dh: int,
) -> Seq<Number> {
    Seq::new(
        ((dw * dh) * nc) as nat,
        |j: int|
            if sw == 0 || sh == 0 {
                Number::spec_int(0)
            } else {
                scaled_value(src, sw, sh, nc, dw, dh, (j / nc) % dw, (j / nc) / dw, j % nc)
            },
    )
}

fn place_of(k: usize, n: usize, m: usize) -> (r: Number)
    ensures
        r == source_place(k as int, n as int, m as int),
{
    let step = Number::from_count(n).short().over(Number::from_count(m).short()).short();
    let half = Number::decimal(1, 2);
    Number::from_count(k).short().plus(half).short().times(step).short().minus(half).short()
}

/// The two sources around target `k` and the share of the second.
fn sources(k: usize, n: usize, m: usize) -> (r: (usize, usize, Number))
    requires
        0 < n <= 0xffff_ffff,
    ensures
        r.0 == source_before(source_place(k as int, n as int, m as int), n as int),
        r.1 == source_after(r.0 as int, n as int),
        r.2 == share(source_place(k as int, n as int, m as int)),
        r.0 < n,
        r.1 < n,
{
    let place = place_of(k, n, m);
    let low = place.floor();
    let t: i64 = low.max(Number::from_int(0)).trunc();
    let before: usize = if t < 0 {
        0
    } else if t < n as i64 {
        t as usize
    } else {
        n - 1
    };
    let after: usize = if before + 1 < n {
        before + 1
    } else {
        n - 1
    };
    (before, after, place.minus(low).short())
}

fn mix_of(a: Number, b: Number, t: Number) -> (r: Number)
    ensures
        r == mix(a, b, t),
{
    a.times(Number::from_int(1).minus(t).short()).short().plus(b.times(t).short()).short()
}

/// Where channel `c` of cell `i` stands.
pub proof fn lemma_channel(cells: int, nc: int, i: int, c: int)
    requires
        0 <= i < cells,
        0 <= c < nc,
    ensures
        0 <= i * nc + c < cells * nc,
        0 <= i * nc <= i * nc + c,
        (i * nc + c) / nc == i,
        (i * nc + c) % nc == c,
{
    assert((i + 1) * nc <= cells * nc && (i + 1) * nc == i * nc + nc && 0 <= i * nc) by (
    nonlinear_arith)
        requires
            0 <= i,
            i + 1 <= cells,
            nc > 0,
    ;
    vstd::arithmetic::div_mod::lemma_fundamental_div_mod_converse(i * nc + c, nc, i, c);
    assert(nc * i == i * nc) by (nonlinear_arith);
}

/// The channels of one scaled pixel.
fn scale_pixel(
    src: &[Number],
    sw: usize,
    sh: usize,
    nc: usize,
    across: (usize, usize, Number),
    along: (usize, usize, Number),
    out: &mut Vec<Number>,
    Ghost(place): Ghost<(int, int, int, int)>,
)
    requires
        src@.len() == (sw * sh) * nc,
        0 < nc <= 4,
        across.0 < sw,
        across.1 < sw,
        along.0 < sh,
        along.1 < sh,
        across.0 == source_before(source_place(place.2, sw as int, place.0), sw as int),
        across.1 == source_after(across.0 as int, sw as int),
        across.2 == share(source_place(place.2, sw as int, place.0)),
        along.0 == source_before(source_place(place.3, sh as int, place.1), sh as int),
        along.1 == source_after(along.0 as int, sh as int),
        along.2 == share(source_place(place.3, sh as int, place.1)),
    ensures
        final(out)@ == old(out)@ + Seq::new(
            nc as nat,
            |c: int|
                scaled_value(
                    src@,
                    sw as int,
                    sh as int,
                    nc as int,
                    place.0,
                    place.1,
                    place.2,
                    place.3,
                    c,
                ),
        ),
{
    let total: usize = src.len();
    let ghost before = out@;
    let ghost pixel = Seq::new(
        nc as nat,
        |c: int|
            scaled_value(
                src@,
                sw as int,
                sh as int,
                nc as int,
                place.0,
                place.1,
                place.2,
                place.3,
                c,
            ),
    );
    let mut c: usize = 0;
    proof {
        assert(out@ =~= before + pixel.take(0));
    }
    while c < nc
        invariant
            total == src@.len(),
            src@.len() == (sw * sh) * nc,
            0 < nc <= 4,
            across.0 < sw,
            across.1 < sw,
            along.0 < sh,
            along.1 < sh,
            across.0 == source_before(source_place(place.2, sw as int, place.0), sw as int),
            across.1 == source_after(across.0 as int, sw as int),
            across.2 == share(source_place(place.2, sw as int, place.0)),
            along.0 == source_before(source_place(place.3, sh as int, place.1), sh as int),
            along.1 == source_after(along.0 as int, sh as int),
            along.2 == share(source_place(place.3, sh as int, place.1)),
            pixel == Seq::new(
                nc as nat,
                |c: int|
                    scaled_value(
                        src@,
                        sw as int,
                        sh as int,
                        nc as int,
                        place.0,
                        place.1,
                        place.2,
                        place.3,
                        c,
                    ),
            ),
            c <= nc,
            out@ == before + pixel.take(c as int),
        decreases nc - c,
    {
        proof {
            let (w, h, n) = (sw as int, sh as int, nc as int);
            lemma_cell(w, h, across.0 as int, along.0 as int);
            lemma_cell(w, h, across.1 as int, along.0 as int);
            lemma_cell(w, h, across.0 as int, along.1 as int);
            lemma_cell(w, h, across.1 as int, along.1 as int);
            lemma_channel(w * h, n, along.0 * w + across.0, c as int);
            lemma_channel(w * h, n, along.0 * w + across.1, c as int);
            lemma_channel(w * h, n, along.1 * w + across.0, c as int);
            lemma_channel(w * h, n, along.1 * w + across.1, c as int);
            assert(w * h <= total) by (nonlinear_arith)
                requires
                    total == (w * h) * n,
                    n >= 1,
                    w * h >= 0,
            ;
        }
        let p00 = src[(along.0 * sw + across.0) * nc + c];
        let p01 = src[(along.0 * sw + across.1) * nc + c];
        let p10 = src[(along.1 * sw + across.0) * nc + c];
        let p11 = src[(along.1 * sw + across.1) * nc + c];
        let top = mix_of(p00, p01, across.2);
        let low = mix_of(p10, p11, across.2);
        out.push(mix_of(top, low, along.2));
        c = c + 1;
        proof {
            assert(out@ =~= before + pixel.take(c as int));
        }
    }
    proof {
        assert(pixel.take(nc as int) =~= pixel);
    }
}

/// Scales a plane of `nc` channels bilinearly.
pub fn resize_plane(
    src: &[Number],
    sw: usize,
    sh: usize,
    nc: usize,
    dw: usize,
    dh: usize,
) -> (r: Vec<Number>)
    requires
        src@.len() == (sw * sh) * nc,
        0 < nc <= 4,
        sw <= 0xffff_ffff,
        sh <= 0xffff_ffff,
        (dw * dh) * nc <= usize::MAX,
        dw * dh <= usize::MAX,
    ensures
        r@ == scaled_plane(src@, sw as int, sh as int, nc as int, dw as int, dh as int),
        r@.len() == (dw * dh) * nc,
{
    let ghost goal = scaled_plane(src@, sw as int, sh as int, nc as int, dw as int, dh as int);
    let n: usize = dw * dh;
    let mut out: Vec<Number> = Vec::new();
    proof {
        assert(n * nc >= 0) by (nonlinear_arith)
            requires
                n >= 0,
                nc >= 0,
        ;
    }
    if sw == 0 || sh == 0 {
        let len: usize = n * nc;
        let mut j: usize = 0;
        while j < len
            invariant
                sw == 0 || sh == 0,
                len == (dw * dh) * nc,
                j <= len,
                goal == scaled_plane(
                    src@,
                    sw as int,
                    sh as int,
                    nc as int,
                    dw as int,
                    dh as int,
                ),
                out@ == goal.take(j as int),
            decreases len - j,
        {
            out.push(Number::from_int(0));
            j = j + 1;
            proof {
                assert(out@ =~= goal.take(j as int));
            }
        }
        proof {
            assert(out@ =~= goal);
        }
        return out;
    }
    let mut i: usize = 0;
    while i < n
        invariant
            n == dw * dh,
            n * nc <= usize::MAX,
            sw > 0,
            sh > 0,
            sw <= 0xffff_ffff,
            sh <= 0xffff_ffff,
            src@.len() == (sw * sh) * nc,
            0 < nc <= 4,
            i <= n,
            goal == scaled_plane(src@, sw as int, sh as int, nc as int, dw as int, dh as int),
            out@ == goal.take(i * nc),
        decreases n - i,
    {
        proof {
            lemma_position(dw as int, dh as int, i as int);
            lemma_channel(n as int, nc as int, i as int, nc - 1);
        }
        let x: usize = i % dw;
        let y: usize = i / dw;
        let across = sources(x, sw, dw);
        let along = sources(y, sh, dh);
        let ghost before = out@;
        scale_pixel(
            src,
            sw,
            sh,
            nc,
            across,
            along,
            &mut out,
            Ghost((dw as int, dh as int, x as int, y as int)),
        );
        proof {
            let k = i * nc;
            assert((i + 1) * nc == k + nc) by (nonlinear_arith)
                requires
                    k == i * nc,
            ;
            assert forall|j: int| k <= j < k + nc implies goal[j] == #[trigger] out@[j] by {
                lemma_channel(n as int, nc as int, i as int, j - k);
            }
            assert(out@ =~= goal.take((i + 1) * nc)) by {
                assert forall|j: int| 0 <= j < k implies goal[j] == #[trigger] out@[j] by {
                    assert(before[j] == goal[j]);
                }
            }
        }
        i = i + 1;
    }
    proof {
        assert(out@ =~= goal);
    }
    out
}

/// Scaling keeps the channels apart: two planes that agree in one channel agree
/// in that channel when they are scaled, whatever their other channels hold.
pub proof fn lemma_scaling_keeps_channels_apart(
    a: Seq<Number>,
    b: Seq<Number>,
    sw: int,
    sh: int,
    nc: int,
    dw: int,
    dh: int,
    c: int,
    x: int,
    y: int,
)
    requires
        0 < sw,
        0 < sh,
        0 <= x < dw,
        0 <= y < dh,
        0 <= c < nc,
        forall|i: int|
            0 <= i < sw * sh ==> #[trigger] a[i * nc + c] == b[i * nc + c],
    ensures
        scaled_plane(a, sw, sh, nc, dw, dh)[(y * dw + x) * nc + c] == scaled_plane(
            b,
            sw,
            sh,
            nc,
            dw,
            dh,
        )[(y * dw + x) * nc + c],
{
    lemma_cell(dw, dh, x, y);
    lemma_channel(dw * dh, nc, y * dw + x, c);
    let (fx, fy) = (source_place(x, sw, dw), source_place(y, sh, dh));
    let (x0, y0) = (source_before(fx, sw), source_before(fy, sh));
    let (x1, y1) = (source_after(x0, sw), source_after(y0, sh));
    lemma_cell(sw, sh, x0, y0);
    lemma_cell(sw, sh, x1, y0);
    lemma_cell(sw, sh, x0, y1);
    lemma_cell(sw, sh, x1, y1);
    assert(a[(y0 * sw + x0) * nc + c] == b[(y0 * sw + x0) * nc + c]);
    assert(a[(y0 * sw + x1) * nc + c] == b[(y0 * sw + x1) * nc + c]);
    assert(a[(y1 * sw + x0) * nc + c] == b[(y1 * sw + x0) * nc + c]);
    assert(a[(y1 * sw + x1) * nc + c] == b[(y1 * sw + x1) * nc + c]);
}

} // verus!
