//! Learning a mark from a batch of pictures of one size that all carry it.

use crate::accuracy::{amount, lemma_max_by_amount, sound};
use crate::fill::{fill_inpaint, inpainted};
use crate::grid::{dilate, dilated, lemma_cell, lemma_position};
use crate::lama::crop_rgb;
use crate::learning::{
    add_misses, beyond, box_area, box_bytes, count_beyond, crop_mark, half, holds_mark, kept_box,
    level, level_of, mark_profile, miss_sum, place_at, placed_box, told_place, unit, GivenBox,
    Refusal,
};
use crate::number::Number;
use crate::outline::{above, cells_above, clean_alpha, cleaned, count_set, set_count};
use crate::raster::{lemma_measurable_part, Picture};
use crate::shift::{lemma_ranked_below, moved, ranked, twice_median, Histogram};
use crate::text::{decimal, push_decimal};
use crate::watermark_profiles::{
    edges, meant_edges, numbers_of, plain_numbers, resolve_box, Corners, Edges, Profile,
};
use vstd::prelude::*;

verus! {

/// The brightest channel of pixel `i`.
pub open spec fn byte_max(s: Seq<u8>, i: int) -> u8 {
    let (r, g, b) = (s[3 * i], s[3 * i + 1], s[3 * i + 2]);
    let m = if r < g {
        g
    } else {
        r
    };
    if m < b {
        b
    } else {
        m
    }
}

pub open spec fn byte_tones(s: Seq<u8>, n: int) -> Seq<u8> {
    Seq::new(n as nat, |i: int| byte_max(s, i))
}

fn byte_max_of(s: &[u8], i: usize) -> (r: u8)
    requires
        3 * i + 2 < s@.len(),
    ensures
        r == byte_max(s@, i as int),
{
    let total: usize = s.len();
    let (r, g, b): (u8, u8, u8) = (s[3 * i], s[3 * i + 1], s[3 * i + 2]);
    let m: u8 = if r < g {
        g
    } else {
        r
    };
    if m < b {
        b
    } else {
        m
    }
}

fn byte_tones_of(s: &[u8], n: usize) -> (r: Vec<u8>)
    requires
        s@.len() == 3 * n,
    ensures
        r@ == byte_tones(s@, n as int),
{
    let total: usize = s.len();
    let mut out: Vec<u8> = Vec::new();
    let mut i: usize = 0;
    while i < n
        invariant
            total == s@.len(),
            total == 3 * n,
            i <= n,
            out@ == byte_tones(s@, n as int).take(i as int),
        decreases n - i,
    {
        out.push(byte_max_of(s, i));
        i = i + 1;
        proof {
            assert(out@ =~= byte_tones(s@, n as int).take(i as int));
        }
    }
    proof {
        assert(out@ =~= byte_tones(s@, n as int));
    }
    out
}

/// How far the median window reaches in a box of `rh` rows: 7 to 15.
pub open spec fn blur_reach(rh: int) -> int {
    let k = if rh / 3 < 15 {
        15
    } else if rh / 3 > 31 {
        31
    } else {
        rh / 3
    };
    (if k % 2 == 0 {
        k + 1
    } else {
        k
    }) / 2
}

/// The tones within `r` columns and rows of cell `i`, edges repeated.
pub open spec fn blur_values(tones: Seq<u8>, w: int, h: int, r: int, i: int) -> Seq<u16> {
    let side = 2 * r + 1;
    Seq::new(
        (side * side) as nat,
        |k: int|
            tones[moved(i / w, k / side - r, h) * w + moved(i % w, k % side - r, w)] as u16,
    )
}

/// How far a tone is above the median around it.
pub open spec fn detail(tones: Seq<u8>, w: int, h: int, r: int, i: int) -> int {
    let side = 2 * r + 1;
    tones[i] - ranked(blur_values(tones, w, h, r, i), side * side / 2)
}

pub open spec fn details(tones: Seq<u8>, w: int, h: int, r: int) -> Seq<int> {
    Seq::new(tones.len(), |i: int| detail(tones, w, h, r, i))
}

fn clamp_move(x: usize, k: usize, r: usize, n: usize) -> (p: usize)
    requires
        x < n <= 0xffff_ffff,
        k <= 2 * r,
        r <= 100,
    ensures
        p == moved(x as int, k - r, n as int),
        p < n,
{
    let at: i64 = x as i64 + k as i64 - r as i64;
    if at < 0 {
        0
    } else if at >= n as i64 {
        n - 1
    } else {
        at as usize
    }
}

fn detail_of(tones: &[u8], w: usize, h: usize, r: usize, i: usize) -> (d: i64)
    requires
        tones@.len() == w * h,
        w <= 0xffff_ffff,
        h <= 0xffff_ffff,
        1 <= r <= 20,
        i < tones@.len(),
    ensures
        d == detail(tones@, w as int, h as int, r as int, i as int),
        -255 <= d <= 255,
{
    let n: usize = tones.len();
    let side: usize = 2 * r + 1;
    proof {
        lemma_position(w as int, h as int, i as int);
        assert(9 <= side * side <= 41 * 41) by (nonlinear_arith)
            requires
                3 <= side <= 41,
        ;
    }
    let (x, y): (usize, usize) = (i % w, i / w);
    let count: usize = side * side;
    let ghost goal = blur_values(tones@, w as int, h as int, r as int, i as int);
    let mut found = Histogram::new();
    let mut k: usize = 0;
    proof {
        assert(goal.take(0) =~= Seq::<u16>::empty());
    }
    while k < count
        invariant
            n == tones@.len(),
            n == w * h,
            w <= 0xffff_ffff,
            h <= 0xffff_ffff,
            1 <= r <= 20,
            side == 2 * r + 1,
            count == side * side,
            count <= 41 * 41,
            x == i as int % w as int,
            y == i as int / w as int,
            x < w,
            y < h,
            goal == blur_values(tones@, w as int, h as int, r as int, i as int),
            k <= count,
            found.wf(),
            found.counted() == goal.take(k as int),
        decreases count - k,
    {
        proof {
            lemma_position(side as int, side as int, k as int);
        }
        let sx: usize = clamp_move(x, k % side, r, w);
        let sy: usize = clamp_move(y, k / side, r, h);
        proof {
            lemma_cell(w as int, h as int, sx as int, sy as int);
        }
        found.count(tones[sy * w + sx] as u16);
        k = k + 1;
        proof {
            assert(found.counted() =~= goal.take(k as int));
        }
    }
    proof {
        assert(found.counted() =~= goal);
    }
    let middle: u16 = found.rank(count / 2);
    proof {
        assert forall|k: int| 0 <= k < goal.len() implies #[trigger] goal[k] < 256 by {}
        lemma_ranked_below(goal, (count / 2) as int, middle as int, 256);
    }
    tones[i] as i64 - middle as i64
}

/// The details of a window, moved up by 255.
fn details_of(tones: &[u8], w: usize, h: usize, r: usize) -> (d: Vec<u16>)
    requires
        tones@.len() == w * h,
        w <= 0xffff_ffff,
        h <= 0xffff_ffff,
        1 <= r <= 20,
    ensures
        d@.len() == tones@.len(),
        forall|i: int|
            0 <= i < d@.len() ==> #[trigger] d@[i] == details(
                tones@,
                w as int,
                h as int,
                r as int,
            )[i] + 255 && d@[i] <= 510,
{
    let n: usize = tones.len();
    let mut out: Vec<u16> = Vec::new();
    let mut i: usize = 0;
    while i < n
        invariant
            n == tones@.len(),
            n == w * h,
            w <= 0xffff_ffff,
            h <= 0xffff_ffff,
            1 <= r <= 20,
            i <= n,
            out@.len() == i,
            forall|k: int|
                0 <= k < i ==> #[trigger] out@[k] == details(
                    tones@,
                    w as int,
                    h as int,
                    r as int,
                )[k] + 255 && out@[k] <= 510,
        decreases n - i,
    {
        let d: i64 = detail_of(tones, w, h, r, i);
        out.push((d + 255) as u16);
        i = i + 1;
    }
    out
}

/// The bytes of a box in each picture.
pub open spec fn batch_bytes(pictures: Seq<Picture>, b: Edges) -> Seq<Seq<u8>> {
    Seq::new(pictures.len(), |j: int| box_bytes(&pictures[j], b))
}

/// What the first `n` samples show at cell `i`, moved up by 255.
pub open spec fn details_at(seen: Seq<Seq<u8>>, w: int, h: int, i: int) -> Seq<u16> {
    Seq::new(
        seen.len(),
        |j: int|
            (details(byte_tones(seen[j], w * h), w, h, blur_reach(h))[i] + 255) as u16,
    )
}

/// The median detail of the samples at cell `i`.
pub open spec fn common_detail(seen: Seq<Seq<u8>>, w: int, h: int, i: int) -> Number {
    half(twice_median(details_at(seen, w, h, i)) - 510)
}

/// The cells whose median detail exceeds a level, grown by one: what the
/// samples have in common.
pub open spec fn common_strokes(seen: Seq<Seq<u8>>, w: int, h: int, least: Number) -> Seq<bool> {
    dilated(
        Seq::new((w * h) as nat, |i: int| least.spec_lt(common_detail(seen, w, h, i))),
        w,
        h,
        1,
        1,
    )
}

pub open spec fn rows(v: Seq<Vec<u8>>) -> Seq<Seq<u8>> {
    Seq::new(v.len(), |j: int| v[j]@)
}

pub open spec fn planes(v: Seq<Vec<Number>>) -> Seq<Seq<Number>> {
    Seq::new(v.len(), |j: int| v[j]@)
}

fn common_strokes_of(seen: &[Vec<u8>], w: usize, h: usize, least: Number) -> (r: Vec<bool>)
    requires
        forall|j: int| 0 <= j < seen@.len() ==> #[trigger] seen@[j]@.len() == 3 * (w * h),
        seen@.len() > 0,
        w <= 0xffff_ffff,
        h <= 0xffff_ffff,
    ensures
        r@ == common_strokes(rows(seen@), w as int, h as int, least),
        r@.len() == w * h,
{
    let count: usize = seen.len();
    let total: usize = seen[0].len();
    let n: usize = total / 3;
    let third: usize = h / 3;
    let k: usize = if third < 15 {
        15
    } else if third > 31 {
        31
    } else {
        third
    };
    let odd: usize = if k % 2 == 0 {
        k + 1
    } else {
        k
    };
    let reach: usize = odd / 2;
    let mut all: Vec<Vec<u16>> = Vec::new();
    let mut j: usize = 0;
    while j < count
        invariant
            count == seen@.len(),
            n == w * h,
            forall|j: int| 0 <= j < seen@.len() ==> #[trigger] seen@[j]@.len() == 3 * n,
            w <= 0xffff_ffff,
            h <= 0xffff_ffff,
            reach == blur_reach(h as int),
            1 <= reach <= 20,
            j <= count,
            all@.len() == j,
            forall|s: int, i: int|
                0 <= s < j && 0 <= i < n ==> #[trigger] all@[s]@[i] == details(
                    byte_tones(seen@[s]@, n as int),
                    w as int,
                    h as int,
                    reach as int,
                )[i] + 255 && all@[s]@[i] <= 510,
            forall|s: int| 0 <= s < j ==> #[trigger] all@[s]@.len() == n,
        decreases count - j,
    {
        let tones = byte_tones_of(seen[j].as_slice(), n);
        let found = details_of(tones.as_slice(), w, h, reach);
        all.push(found);
        j = j + 1;
    }
    let ghost goal = Seq::new(
        (w * h) as nat,
        |i: int| least.spec_lt(common_detail(rows(seen@), w as int, h as int, i)),
    );
    let mut cells: Vec<bool> = Vec::new();
    let mut i: usize = 0;
    while i < n
        invariant
            count == seen@.len(),
            count == all@.len(),
            n == w * h,
            reach == blur_reach(h as int),
            forall|s: int, i: int|
                0 <= s < count && 0 <= i < n ==> #[trigger] all@[s]@[i] == details(
                    byte_tones(seen@[s]@, n as int),
                    w as int,
                    h as int,
                    reach as int,
                )[i] + 255 && all@[s]@[i] <= 510,
            forall|s: int| 0 <= s < count ==> #[trigger] all@[s]@.len() == n,
            goal == Seq::new(
                (w * h) as nat,
                |i: int| least.spec_lt(common_detail(rows(seen@), w as int, h as int, i)),
            ),
            i <= n,
            cells@ == goal.take(i as int),
        decreases n - i,
    {
        let ghost wanted = details_at(rows(seen@), w as int, h as int, i as int);
        let mut found = Histogram::new();
        let mut s: usize = 0;
        proof {
            assert(wanted.take(0) =~= Seq::<u16>::empty());
        }
        while s < count
            invariant
                count == seen@.len(),
                count == all@.len(),
                n == w * h,
                reach == blur_reach(h as int),
                i < n,
                forall|s: int, i: int|
                    0 <= s < count && 0 <= i < n ==> #[trigger] all@[s]@[i] == details(
                        byte_tones(seen@[s]@, n as int),
                        w as int,
                        h as int,
                        reach as int,
                    )[i] + 255 && all@[s]@[i] <= 510,
                forall|s: int| 0 <= s < count ==> #[trigger] all@[s]@.len() == n,
                wanted == details_at(rows(seen@), w as int, h as int, i as int),
                s <= count,
                found.wf(),
                found.counted() == wanted.take(s as int),
            decreases count - s,
        {
            let v: u16 = all[s][i];
            found.count(v);
            proof {
                assert(rows(seen@)[s as int] == seen@[s as int]@);
                assert(wanted[s as int] == v);
            }
            s = s + 1;
            proof {
                assert(found.counted() =~= wanted.take(s as int));
            }
        }
        proof {
            assert(found.counted() =~= wanted);
        }
        let twice: i64 = found.twice_median();
        let common = Number::from_int(twice - 510).over(Number::from_int(2));
        cells.push(least.less(common));
        i = i + 1;
        proof {
            assert(cells@ =~= goal.take(i as int));
        }
    }
    proof {
        assert(cells@ =~= goal);
    }
    dilate(cells.as_slice(), w, h, 1, 1)
}

/// The brightest channel of cell `i` of a plane.
pub open spec fn plane_max(p: Seq<Number>, i: int) -> Number {
    p[3 * i].spec_max(p[3 * i + 1]).spec_max(p[3 * i + 2])
}

fn plane_max_of(p: &[Number], i: usize) -> (r: Number)
    requires
        3 * i + 2 < p@.len(),
    ensures
        r == plane_max(p@, i as int),
{
    let total: usize = p.len();
    p[3 * i].max(p[3 * i + 1]).max(p[3 * i + 2])
}

/// The brightest channels of cell `i` in the first `n` grounds, summed.
pub open spec fn ground_sum(grounds: Seq<Seq<Number>>, i: int, n: int) -> Number
    decreases n,
{
    if n <= 0 {
        Number::spec_int(0)
    } else {
        ground_sum(grounds, i, n - 1).spec_plus(plane_max(grounds[n - 1], i)).spec_short()
    }
}

/// The brightest channels of cell `i` in the first `n` samples, summed.
pub open spec fn seen_sum(seen: Seq<Seq<u8>>, i: int, n: int) -> Number
    decreases n,
{
    if n <= 0 {
        Number::spec_int(0)
    } else {
        seen_sum(seen, i, n - 1).spec_plus(
            Number::spec_int(byte_max(seen[n - 1], i) as int),
        ).spec_short()
    }
}

/// The sums of squares of the grounds and of their products with the samples,
/// about their means, over the first `n` samples.
pub open spec fn moments(
    grounds: Seq<Seq<Number>>,
    seen: Seq<Seq<u8>>,
    mb: Number,
    mo: Number,
    i: int,
    n: int,
) -> (Number, Number)
    decreases n,
{
    if n <= 0 {
        (Number::spec_int(0), Number::spec_int(0))
    } else {
        let (var, cov) = moments(grounds, seen, mb, mo, i, n - 1);
        let b = plane_max(grounds[n - 1], i).spec_minus(mb).spec_short();
        let o = Number::spec_int(byte_max(seen[n - 1], i) as int).spec_minus(mo).spec_short();
        (
            var.spec_plus(b.spec_times(b).spec_short()).spec_short(),
            cov.spec_plus(b.spec_times(o).spec_short()).spec_short(),
        )
    }
}

/// The coverage at cell `i`: how little the samples follow their grounds. It
/// counts only on a common stroke, where the grounds vary enough, and above
/// the least coverage.
pub open spec fn batch_alpha(
    grounds: Seq<Seq<Number>>,
    seen: Seq<Seq<u8>>,
    stroke: bool,
    core: Number,
    i: int,
) -> Number {
    let n = seen.len() as int;
    let count = Number::spec_int(n).spec_short();
    let mb = ground_sum(grounds, i, n).spec_over(count).spec_short();
    let mo = seen_sum(seen, i, n).spec_over(count).spec_short();
    let (v, c) = moments(grounds, seen, mb, mo, i, n);
    let var = v.spec_over(count).spec_short();
    let cov = c.spec_over(count).spec_short();
    let a = unit(
        Number::spec_int(1).spec_minus(
            cov.spec_over(var.spec_max(level(1, 1000))).spec_short(),
        ).spec_short(),
    );
    if Number::spec_int(4).spec_lt(var) && stroke && core.spec_lt(a) {
        a
    } else {
        Number::spec_int(0)
    }
}

pub open spec fn batch_alphas(
    grounds: Seq<Seq<Number>>,
    seen: Seq<Seq<u8>>,
    strokes: Seq<bool>,
    core: Number,
) -> Seq<Number> {
    Seq::new(strokes.len(), |i: int| batch_alpha(grounds, seen, strokes[i], core, i))
}

/// Samples and grounds of `n` pixels each, as many of the one as of the other.
spec fn matched(grounds: Seq<Vec<Number>>, seen: Seq<Vec<u8>>, n: int) -> bool {
    &&& grounds.len() == seen.len()
    &&& forall|j: int| 0 <= j < seen.len() ==> #[trigger] seen[j]@.len() == 3 * n
    &&& forall|j: int| 0 <= j < grounds.len() ==> #[trigger] grounds[j]@.len() == 3 * n
}

fn batch_alpha_of(
    grounds: &[Vec<Number>],
    seen: &[Vec<u8>],
    stroke: bool,
    core: Number,
    i: usize,
    Ghost(n): Ghost<int>,
) -> (r: Number)
    requires
        matched(grounds@, seen@, n),
        i < n,
    ensures
        r == batch_alpha(planes(grounds@), rows(seen@), stroke, core, i as int),
{
    let count: usize = seen.len();
    let share = Number::from_count(count).short();
    let mut sb = Number::from_int(0);
    let mut so = Number::from_int(0);
    let mut j: usize = 0;
    while j < count
        invariant
            count == seen@.len(),
            matched(grounds@, seen@, n),
            i < n,
            j <= count,
            sb == ground_sum(planes(grounds@), i as int, j as int),
            so == seen_sum(rows(seen@), i as int, j as int),
        decreases count - j,
    {
        sb = sb.plus(plane_max_of(grounds[j].as_slice(), i)).short();
        so = so.plus(Number::from_int(byte_max_of(seen[j].as_slice(), i) as i64)).short();
        j = j + 1;
    }
    let mb = sb.over(share).short();
    let mo = so.over(share).short();
    let mut var = Number::from_int(0);
    let mut cov = Number::from_int(0);
    j = 0;
    while j < count
        invariant
            count == seen@.len(),
            matched(grounds@, seen@, n),
            i < n,
            j <= count,
            (var, cov) == moments(planes(grounds@), rows(seen@), mb, mo, i as int, j as int),
        decreases count - j,
    {
        let b = plane_max_of(grounds[j].as_slice(), i).minus(mb).short();
        let o = Number::from_int(byte_max_of(seen[j].as_slice(), i) as i64).minus(mo).short();
        var = var.plus(b.times(b).short()).short();
        cov = cov.plus(b.times(o).short()).short();
        j = j + 1;
    }
    var = var.over(share).short();
    cov = cov.over(share).short();
    let ratio = cov.over(var.max(level_of(1, 1000))).short();
    let a = Number::from_int(1).minus(ratio).short().clamp(
        Number::from_int(0),
        Number::from_int(1),
    );
    if Number::from_int(4).less(var) && stroke && core.less(a) {
        a
    } else {
        Number::from_int(0)
    }
}

fn batch_alphas_of(
    grounds: &[Vec<Number>],
    seen: &[Vec<u8>],
    strokes: &[bool],
    core: Number,
) -> (r: Vec<Number>)
    requires
        matched(grounds@, seen@, strokes@.len() as int),
    ensures
        r@ == batch_alphas(planes(grounds@), rows(seen@), strokes@, core),
{
    let n: usize = strokes.len();
    let ghost goal = batch_alphas(planes(grounds@), rows(seen@), strokes@, core);
    let mut out: Vec<Number> = Vec::new();
    let mut i: usize = 0;
    while i < n
        invariant
            n == strokes@.len(),
            matched(grounds@, seen@, n as int),
            goal == batch_alphas(planes(grounds@), rows(seen@), strokes@, core),
            i <= n,
            out@ == goal.take(i as int),
        decreases n - i,
    {
        out.push(batch_alpha_of(grounds, seen, strokes[i], core, i, Ghost(n as int)));
        i = i + 1;
        proof {
            assert(out@ =~= goal.take(i as int));
        }
    }
    proof {
        assert(out@ =~= goal);
    }
    out
}

/// What the mark adds to channel `k` in the first `n` samples, summed.
pub open spec fn ink_sum(
    grounds: Seq<Seq<Number>>,
    seen: Seq<Seq<u8>>,
    a: Number,
    k: int,
    n: int,
) -> Number
    decreases n,
{
    if n <= 0 {
        Number::spec_int(0)
    } else {
        ink_sum(grounds, seen, a, k, n - 1).spec_plus(
            Number::spec_int(seen[n - 1][k] as int).spec_minus(
                Number::spec_int(1).spec_minus(a).spec_short().spec_times(
                    grounds[n - 1][k],
                ).spec_short(),
            ).spec_short(),
        ).spec_short()
    }
}

/// The colour of channel `k`; zero where the coverage does not count.
pub open spec fn batch_color(
    grounds: Seq<Seq<Number>>,
    seen: Seq<Seq<u8>>,
    a: Number,
    core: Number,
    k: int,
) -> Number {
    let n = seen.len() as int;
    if a.spec_le(core) {
        Number::spec_int(0)
    } else {
        ink_sum(grounds, seen, a, k, n).spec_over(
            Number::spec_int(n).spec_short().spec_times(a.spec_max(level(1, 1000))).spec_short(),
        ).spec_short().spec_clamp(Number::spec_int(0), Number::spec_int(255))
    }
}

pub open spec fn batch_colors(
    grounds: Seq<Seq<Number>>,
    seen: Seq<Seq<u8>>,
    alpha: Seq<Number>,
    core: Number,
) -> Seq<Number> {
    Seq::new((3 * alpha.len()) as nat, |k: int| batch_color(grounds, seen, alpha[k / 3], core, k))
}

fn batch_colors_of(
    grounds: &[Vec<Number>],
    seen: &[Vec<u8>],
    alpha: &[Number],
    core: Number,
) -> (r: Vec<Number>)
    requires
        matched(grounds@, seen@, alpha@.len() as int),
        3 * alpha@.len() <= usize::MAX,
    ensures
        r@ == batch_colors(planes(grounds@), rows(seen@), alpha@, core),
{
    let n: usize = 3 * alpha.len();
    let count: usize = seen.len();
    let ghost goal = batch_colors(planes(grounds@), rows(seen@), alpha@, core);
    let mut out: Vec<Number> = Vec::new();
    let mut k: usize = 0;
    while k < n
        invariant
            n == 3 * alpha@.len(),
            count == seen@.len(),
            matched(grounds@, seen@, alpha@.len() as int),
            goal == batch_colors(planes(grounds@), rows(seen@), alpha@, core),
            k <= n,
            out@ == goal.take(k as int),
        decreases n - k,
    {
        let a = alpha[k / 3];
        if a.at_most(core) {
            out.push(Number::from_int(0));
        } else {
            let mut sum = Number::from_int(0);
            let mut j: usize = 0;
            while j < count
                invariant
                    n == 3 * alpha@.len(),
                    count == seen@.len(),
                    matched(grounds@, seen@, alpha@.len() as int),
                    k < n,
                    j <= count,
                    sum == ink_sum(planes(grounds@), rows(seen@), a, k as int, j as int),
                decreases count - j,
            {
                let ground = Number::from_int(1).minus(a).short().times(grounds[j][k]).short();
                sum = sum.plus(Number::from_int(seen[j][k] as i64).minus(ground).short()).short();
                j = j + 1;
            }
            let share = Number::from_count(count).short().times(a.max(level_of(1, 1000))).short();
            out.push(sum.over(share).short().clamp(Number::from_int(0), Number::from_int(255)));
        }
        k = k + 1;
        proof {
            assert(out@ =~= goal.take(k as int));
        }
    }
    proof {
        assert(out@ =~= goal);
    }
    out
}

/// The misses of the first `n` samples, summed.
pub open spec fn batch_misses(
    grounds: Seq<Seq<Number>>,
    seen: Seq<Seq<u8>>,
    alpha: Seq<Number>,
    color: Seq<Number>,
    core: Number,
    n: int,
) -> Number
    decreases n,
{
    if n <= 0 {
        Number::spec_int(0)
    } else {
        miss_sum(
            batch_misses(grounds, seen, alpha, color, core, n - 1),
            alpha,
            color,
            grounds[n - 1],
            seen[n - 1],
            core,
            seen[n - 1].len() as int,
        )
    }
}

/// The mean miss per channel over all samples; 999 where nothing was compared.
pub open spec fn batch_residual(
    grounds: Seq<Seq<Number>>,
    seen: Seq<Seq<u8>>,
    alpha: Seq<Number>,
    color: Seq<Number>,
    core: Number,
) -> Number {
    let n = seen.len() as int;
    let cells = set_count(beyond(alpha, core), alpha.len() as int);
    if cells * n > 0 {
        batch_misses(grounds, seen, alpha, color, core, n).spec_over(
            Number::spec_int(3 * cells).spec_times(Number::spec_int(n)),
        )
    } else {
        Number::spec_int(999)
    }
}

fn batch_residual_of(
    grounds: &[Vec<Number>],
    seen: &[Vec<u8>],
    alpha: &[Number],
    color: &[Number],
    core: Number,
) -> (r: Number)
    requires
        matched(grounds@, seen@, alpha@.len() as int),
        color@.len() == 3 * alpha@.len(),
    ensures
        r == batch_residual(planes(grounds@), rows(seen@), alpha@, color@, core),
{
    let total: usize = color.len();
    let count: usize = seen.len();
    let mut sum = Number::from_int(0);
    let mut j: usize = 0;
    while j < count
        invariant
            count == seen@.len(),
            matched(grounds@, seen@, alpha@.len() as int),
            color@.len() == 3 * alpha@.len(),
            j <= count,
            sum == batch_misses(
                planes(grounds@),
                rows(seen@),
                alpha@,
                color@,
                core,
                j as int,
            ),
        decreases count - j,
    {
        sum = add_misses(
            sum,
            alpha,
            color,
            grounds[j].as_slice(),
            seen[j].as_slice(),
            core,
        );
        j = j + 1;
    }
    let cells: usize = count_beyond(alpha, core);
    proof {
        assert(cells * count > 0 <==> cells > 0 && count > 0) by (nonlinear_arith)
            requires
                cells >= 0,
                count >= 0,
        ;
    }
    if cells > 0 && count > 0 {
        sum.over(Number::from_count(3 * cells).times(Number::from_count(count)))
    } else {
        Number::from_int(999)
    }
}

/// The grounds of the samples: each with the common strokes filled in.
pub open spec fn batch_grounds(
    seen: Seq<Seq<u8>>,
    strokes: Seq<bool>,
    w: int,
    h: int,
) -> Seq<Seq<Number>> {
    Seq::new(seen.len(), |j: int| inpainted(plain_numbers(seen[j]), strokes, w, h))
}

/// Colours without those of cells that are hardly covered.
pub open spec fn inked_colors(color: Seq<Number>, alpha: Seq<Number>) -> Seq<Number> {
    Seq::new(
        color.len(),
        |k: int|
            if alpha[k / 3].spec_le(level(3, 100)) {
                Number::spec_int(0)
            } else {
                color[k]
            },
    )
}

fn drop_pale(color: &[Number], alpha: &[Number]) -> (r: Vec<Number>)
    requires
        color@.len() == 3 * alpha@.len(),
    ensures
        r@ == inked_colors(color@, alpha@),
{
    let n: usize = color.len();
    let mut out: Vec<Number> = Vec::new();
    let mut k: usize = 0;
    while k < n
        invariant
            n == color@.len(),
            n == 3 * alpha@.len(),
            k <= n,
            out@ == inked_colors(color@, alpha@).take(k as int),
        decreases n - k,
    {
        if alpha[k / 3].at_most(level_of(3, 100)) {
            out.push(Number::from_int(0));
        } else {
            out.push(color[k]);
        }
        k = k + 1;
        proof {
            assert(out@ =~= inked_colors(color@, alpha@).take(k as int));
        }
    }
    proof {
        assert(out@ =~= inked_colors(color@, alpha@));
    }
    out
}

/// What a batch was measured to be.
#[derive(Clone, Copy)]
pub struct BatchFit {
    pub samples: usize,
    pub frame: Corners,
    pub coverage: Number,
    pub residual: Number,
}

/// What came of a batch.
pub enum BatchResult {
    Refused { why: Refusal },
    /// The mark does not explain the samples well enough, or covers too little
    /// or too much of the box.
    Unfit { fit: BatchFit },
    Learned { fit: BatchFit, profile: Profile, stroke_box: Corners },
}

/// Between 0.003 and 0.6.
pub open spec fn is_fair_coverage(c: Number) -> bool {
    Number::spec_ratio(3, 1000).spec_le(c) && c.spec_le(Number::spec_ratio(6, 10))
}

pub open spec fn is_batch_fit(
    seen: Seq<Seq<u8>>,
    b: Edges,
    grounds: Seq<Seq<Number>>,
    alpha: Seq<Number>,
    color: Seq<Number>,
    core: Number,
    fit: BatchFit,
) -> bool {
    &&& fit.samples == seen.len()
    &&& edges(fit.frame) == b
    &&& fit.coverage == Number::spec_int(
        set_count(above(alpha, level(3, 10)), alpha.len() as int),
    ).spec_over(Number::spec_int(box_area(b)))
    &&& fit.residual == batch_residual(grounds, seen, alpha, color, core)
}

pub open spec fn batch_source(n: int) -> Seq<char> {
    "learn_from_batch: "@ + decimal(n)
}

/// What comes of the samples of a box in pictures of `w` x `h`.
pub open spec fn is_batch_result(
    seen: Seq<Seq<u8>>,
    w: int,
    h: int,
    b: Edges,
    least: int,
    max_resid: Number,
    detail_least: Number,
    core: Number,
    ref_short_side: Option<Number>,
    label: Seq<char>,
    r: BatchResult,
) -> bool {
    let (rw, rh) = (b.2 - b.0, b.3 - b.1);
    let strokes = common_strokes(seen, rw, rh, detail_least);
    let grounds = batch_grounds(seen, strokes, rw, rh);
    let alpha = batch_alphas(grounds, seen, strokes, core);
    let color = batch_colors(grounds, seen, alpha, core);
    let n = strokes.len() as int;
    if set_count(strokes, n) < 50 {
        r matches BatchResult::Refused { why: Refusal::NoStructure }
    } else if set_count(above(alpha, core), n) < 50 {
        r matches BatchResult::Refused { why: Refusal::TooLittleBatchCoverage }
    } else {
        match r {
            BatchResult::Refused { .. } => false,
            BatchResult::Unfit { fit } => {
                &&& is_batch_fit(seen, b, grounds, alpha, color, core, fit)
                &&& max_resid.spec_lt(fit.residual) || !is_fair_coverage(fit.coverage)
            },
            BatchResult::Learned { fit, profile, stroke_box } => {
                let cover = cleaned(alpha, rw, level(8, 100), least);
                let cut = kept_box(cover, rw, rh);
                &&& is_batch_fit(seen, b, grounds, alpha, color, core, fit)
                &&& !max_resid.spec_lt(fit.residual)
                &&& is_fair_coverage(fit.coverage)
                &&& edges(stroke_box) == placed_box(b, cut)
                &&& holds_mark(
                    profile,
                    label,
                    batch_source(seen.len() as int),
                    match ref_short_side {
                        Some(v) => v,
                        None => Number::spec_int(1600),
                    },
                    Some(told_place(w, h, placed_box(b, cut))),
                    cover,
                    inked_colors(color, cover),
                    rw,
                    cut,
                )
            },
        }
    }
}

fn fill_all(seen: &[Vec<u8>], strokes: &[bool], w: usize, h: usize) -> (r: Vec<Vec<Number>>)
    requires
        strokes@.len() == w * h,
        forall|j: int| 0 <= j < seen@.len() ==> #[trigger] seen@[j]@.len() == 3 * strokes@.len(),
        w <= 0x7fff_ffff,
        h <= 0x7fff_ffff,
    ensures
        planes(r@) == batch_grounds(rows(seen@), strokes@, w as int, h as int),
        matched(r@, seen@, strokes@.len() as int),
{
    let count: usize = seen.len();
    let ghost goal = batch_grounds(rows(seen@), strokes@, w as int, h as int);
    let mut out: Vec<Vec<Number>> = Vec::new();
    let mut j: usize = 0;
    while j < count
        invariant
            count == seen@.len(),
            strokes@.len() == w * h,
            forall|j: int|
                0 <= j < seen@.len() ==> #[trigger] seen@[j]@.len() == 3 * strokes@.len(),
            w <= 0x7fff_ffff,
            h <= 0x7fff_ffff,
            goal == batch_grounds(rows(seen@), strokes@, w as int, h as int),
            j <= count,
            out@.len() == j,
            forall|k: int| 0 <= k < j ==> (#[trigger] out@[k])@ == goal[k],
            forall|k: int| 0 <= k < j ==> (#[trigger] out@[k])@.len() == 3 * strokes@.len(),
        decreases count - j,
    {
        let values = numbers_of(seen[j].as_slice());
        let ground = fill_inpaint(values.as_slice(), w, h, strokes);
        proof {
            assert(rows(seen@)[j as int] == seen@[j as int]@);
        }
        out.push(ground);
        j = j + 1;
    }
    proof {
        assert(planes(out@) =~= goal);
    }
    out
}

fn fit_batch(
    seen: &[Vec<u8>],
    size: (usize, usize),
    b: Corners,
    least: usize,
    max_resid: Number,
    detail_least: Number,
    core: Number,
    ref_short_side: Option<Number>,
    label: &str,
) -> (r: BatchResult)
    requires
        seen@.len() > 0,
        seen@.len() <= i64::MAX,
        b.0 <= b.2 <= size.0,
        b.1 <= b.3 <= size.1,
        crate::raster::measurable(b.2 - b.0, b.3 - b.1),
        b.2 - b.0 <= 0xffff_ffff,
        b.3 - b.1 <= 0xffff_ffff,
        forall|j: int|
            0 <= j < seen@.len() ==> #[trigger] seen@[j]@.len() == 3 * box_area(edges(b)),
    ensures
        is_batch_result(
            rows(seen@),
            size.0 as int,
            size.1 as int,
            edges(b),
            least as int,
            max_resid,
            detail_least,
            core,
            ref_short_side,
            label@,
            r,
        ),
{
    let (rw, rh): (usize, usize) = (b.2 - b.0, b.3 - b.1);
    let strokes = common_strokes_of(seen, rw, rh, detail_least);
    let found: usize = count_set(strokes.as_slice());
    if found < 50 {
        return BatchResult::Refused { why: Refusal::NoStructure };
    }
    let total: usize = seen[0].len();
    let n: usize = strokes.len();
    proof {
        assert(rw > 0 && rh > 0) by (nonlinear_arith)
            requires
                rw * rh > 0,
                rw >= 0,
                rh >= 0,
        ;
        crate::raster::lemma_measurable_sides(rw as int, rh as int);
    }
    let grounds = fill_all(seen, strokes.as_slice(), rw, rh);
    let mut alpha = batch_alphas_of(grounds.as_slice(), seen, strokes.as_slice(), core);
    let inked = cells_above(alpha.as_slice(), core);
    if count_set(inked.as_slice()) < 50 {
        return BatchResult::Refused { why: Refusal::TooLittleBatchCoverage };
    }
    let color = batch_colors_of(grounds.as_slice(), seen, alpha.as_slice(), core);
    let residual = batch_residual_of(
        grounds.as_slice(),
        seen,
        alpha.as_slice(),
        color.as_slice(),
        core,
    );
    let solid = cells_above(alpha.as_slice(), level_of(3, 10));
    let coverage = Number::from_count(count_set(solid.as_slice())).over(Number::from_count(n));
    let fit = BatchFit { samples: seen.len(), frame: b, coverage, residual };
    let fair: bool = Number::decimal(3, 1000).at_most(coverage) && coverage.at_most(
        Number::decimal(6, 10),
    );
    if max_resid.less(residual) || !fair {
        return BatchResult::Unfit { fit };
    }
    clean_alpha(&mut alpha, rw, rh, level_of(8, 100), least);
    let kept = drop_pale(color.as_slice(), alpha.as_slice());
    let mark = crop_mark(alpha.as_slice(), kept.as_slice(), rw, rh);
    let stroke_box: Corners = (
        b.0 + mark.x0,
        b.1 + mark.y0,
        b.0 + mark.x0 + mark.w,
        b.1 + mark.y0 + mark.h,
    );
    let place = place_at(size.0, size.1, stroke_box);
    let reference = match ref_short_side {
        Some(v) => v,
        None => Number::from_int(1600),
    };
    let mut source = String::from_str("learn_from_batch: ");
    push_decimal(&mut source, seen.len() as i64);
    let profile = mark_profile(
        mark,
        label,
        source,
        reference,
        Some(place),
        Ghost((rw as int, rh as int)),
    );
    BatchResult::Learned { fit, profile, stroke_box }
}

/// All pictures have the size of the first.
pub open spec fn same_size(pictures: Seq<Picture>) -> bool {
    forall|j: int|
        0 <= j < pictures.len() ==> (#[trigger] pictures[j]).width == pictures[0].width
            && pictures[j].height == pictures[0].height
}

/// What comes of a batch of pictures.
pub open spec fn is_batch_outcome(
    pictures: Seq<Picture>,
    given: GivenBox,
    ref_short_side: Option<Number>,
    label: Seq<char>,
    least: int,
    max_resid: Number,
    detail_least: Number,
    core: Number,
    r: BatchResult,
) -> bool {
    if pictures.len() < 3 {
        r matches BatchResult::Refused { why: Refusal::TooFewSamples { got } } && got
            == pictures.len()
    } else if !same_size(pictures) {
        r matches BatchResult::Refused { why: Refusal::Unaligned }
    } else {
        let (w, h) = (pictures[0].width as int, pictures[0].height as int);
        let b = meant_edges(given, w, h);
        is_batch_result(
            batch_bytes(pictures, b),
            w,
            h,
            b,
            least,
            max_resid,
            detail_least,
            core,
            ref_short_side,
            label,
            r,
        )
    }
}

/// The refusal of a batch of this many samples: fewer than three are too few.
pub fn refused_count(count: usize) -> (r: Option<Refusal>)
    ensures
        match r {
            Some(why) => count < 3 && why == (Refusal::TooFewSamples { got: count }),
            None => count >= 3,
        },
{
    if count < 3 {
        Some(Refusal::TooFewSamples { got: count })
    } else {
        None
    }
}

/// Learns a mark from at least three pictures of one size that carry it at the
/// same place: what their details have in common are its strokes, and how
/// little the pictures follow their backgrounds there is its coverage.
pub fn learn_from_batch(
    pictures: &[Picture],
    given: GivenBox,
    ref_short_side: Option<Number>,
    label: &str,
    least: usize,
    max_resid: Number,
    detail_least: Number,
    core: Number,
) -> (r: BatchResult)
    requires
        forall|j: int| 0 <= j < pictures@.len() ==> (#[trigger] pictures@[j]).wf(),
        pictures@.len() <= i64::MAX,
    ensures
        is_batch_outcome(
            pictures@,
            given,
            ref_short_side,
            label@,
            least as int,
            max_resid,
            detail_least,
            core,
            r,
        ),
{
    let count: usize = pictures.len();
    match refused_count(count) {
        Some(why) => {
            return BatchResult::Refused { why };
        },
        None => {},
    }
    let (width, height): (u32, u32) = (pictures[0].width, pictures[0].height);
    let mut j: usize = 1;
    while j < count
        invariant
            count == pictures@.len(),
            count >= 3,
            width == pictures@[0].width,
            height == pictures@[0].height,
            1 <= j <= count,
            forall|k: int|
                0 <= k < j ==> (#[trigger] pictures@[k]).width == width && pictures@[k].height
                    == height,
        decreases count - j,
    {
        if pictures[j].width != width || pictures[j].height != height {
            proof {
                assert(pictures@[j as int].width != pictures@[0].width
                    || pictures@[j as int].height != pictures@[0].height);
            }
            return BatchResult::Refused { why: Refusal::Unaligned };
        }
        j = j + 1;
    }
    let (w, h): (usize, usize) = (width as usize, height as usize);
    let b = resolve_box(given, w, h);
    let (rw, rh): (usize, usize) = (b.2 - b.0, b.3 - b.1);
    proof {
        assert(pictures@[0].wf());
        lemma_measurable_part(w as int, h as int, rw as int, rh as int);
        assert(rw * rh >= 0) by (nonlinear_arith)
            requires
                rw >= 0,
                rh >= 0,
        ;
    }
    let mut seen: Vec<Vec<u8>> = Vec::new();
    let ghost goal = batch_bytes(pictures@, edges(b));
    j = 0;
    while j < count
        invariant
            count == pictures@.len(),
            forall|j: int| 0 <= j < pictures@.len() ==> (#[trigger] pictures@[j]).wf(),
            forall|k: int|
                0 <= k < count ==> (#[trigger] pictures@[k]).width == w && pictures@[k].height == h,
            b.0 <= b.2 <= w,
            b.1 <= b.3 <= h,
            rw == b.2 - b.0,
            rh == b.3 - b.1,
            rw * rh >= 0,
            goal == batch_bytes(pictures@, edges(b)),
            j <= count,
            seen@.len() == j,
            forall|k: int| 0 <= k < j ==> (#[trigger] seen@[k])@ == goal[k],
            forall|k: int| 0 <= k < j ==> (#[trigger] seen@[k])@.len() == 3 * (rw * rh),
        decreases count - j,
    {
        let bytes = crop_rgb(&pictures[j], b.0, b.1, rw, rh);
        seen.push(bytes);
        j = j + 1;
    }
    proof {
        assert(rows(seen@) =~= goal);
    }
    fit_batch(
        seen.as_slice(),
        (w, h),
        b,
        least,
        max_resid,
        detail_least,
        core,
        ref_short_side,
        label,
    )
}

/// The tone of a cell of a sample is one of its three channels, and none is above
/// it; so it is for a ground, where all three are numbers.
pub proof fn lemma_tones_are_the_brightest(s: Seq<u8>, p: Seq<Number>, i: int)
    requires
        sound(p[3 * i]),
        sound(p[3 * i + 1]),
        sound(p[3 * i + 2]),
    ensures
        ({
            let (v, m) = (byte_max(s, i), plane_max(p, i));
            &&& v >= s[3 * i] && v >= s[3 * i + 1] && v >= s[3 * i + 2]
            &&& v == s[3 * i] || v == s[3 * i + 1] || v == s[3 * i + 2]
            &&& sound(m)
            &&& amount(m) >= amount(p[3 * i]) && amount(m) >= amount(p[3 * i + 1]) && amount(m)
                >= amount(p[3 * i + 2])
            &&& m == p[3 * i] || m == p[3 * i + 1] || m == p[3 * i + 2]
        }),
{
    lemma_max_by_amount(p[3 * i], p[3 * i + 1]);
    crate::number::lemma_operations(p[3 * i], p[3 * i + 1]);
    let a = p[3 * i].spec_max(p[3 * i + 1]);
    lemma_max_by_amount(a, p[3 * i + 2]);
    crate::number::lemma_operations(a, p[3 * i + 2]);
}

} // verus!
