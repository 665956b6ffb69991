//! Aligning two pictures of the same scene, and medians of bytes.

use crate::boxes::{larger, smaller};
use crate::grid::{lemma_cell, lemma_position};
use crate::number::{
    lemma_number_order, lemma_number_strict, lemma_quotient_is_number, Class, Number,
};
use crate::planes::lemma_measurable_count;
use crate::raster::{measurable, Picture};
use vstd::prelude::*;

verus! {

/// How many positions from 4 on, in steps of two, keep 4 from the end of `n`.
pub open spec fn sample_count(n: int) -> int {
    if n <= 8 {
        0
    } else {
        (n - 7) / 2
    }
}

/// The difference of sample `k` under a shift, squared.
pub open spec fn shift_term(
    a: Seq<u8>,
    b: Seq<u8>,
    w: int,
    dx: int,
    dy: int,
    k: int,
) -> int {
    let x = 4 + 2 * (k % sample_count(w));
    let y = 4 + 2 * (k / sample_count(w));
    let d = a[y * w + x] - b[(y + dy) * w + (x + dx)];
    d * d
}

/// The squared differences of the first `n` samples under a shift.
pub open spec fn shift_cost(a: Seq<u8>, b: Seq<u8>, w: int, dx: int, dy: int, n: int) -> int
    decreases n,
{
    if n <= 0 {
        0
    } else {
        shift_cost(a, b, w, dx, dy, n - 1) + shift_term(a, b, w, dx, dy, n - 1)
    }
}

/// The mean squared difference under shift `s` of 81.
pub open spec fn shift_score(a: Seq<u8>, b: Seq<u8>, w: int, h: int, s: int) -> Number {
    let n = sample_count(w) * sample_count(h);
    Number::spec_int(shift_cost(a, b, w, s % 9 - 4, s / 9 - 4, n)).spec_over(Number::spec_int(n))
}

/// The first of the first `n` shifts with the least difference.
pub open spec fn best_shift(a: Seq<u8>, b: Seq<u8>, w: int, h: int, n: int) -> int
    decreases n,
{
    if n <= 1 {
        0
    } else {
        let before = best_shift(a, b, w, h, n - 1);
        if shift_score(a, b, w, h, n - 1).spec_lt(shift_score(a, b, w, h, before)) {
            n - 1
        } else {
            before
        }
    }
}

/// The shift, up to four pixels each way, under which `b` looks most like `a`;
/// none where there is no room to tell.
pub open spec fn likely_shift(a: Seq<u8>, b: Seq<u8>, w: int, h: int) -> (int, int) {
    if sample_count(w) * sample_count(h) == 0 {
        (0, 0)
    } else {
        let s = best_shift(a, b, w, h, 81);
        (s % 9 - 4, s / 9 - 4)
    }
}

fn cost_of(a: &[u8], b: &[u8], w: usize, h: usize, across: usize, n: usize, s: usize) -> (r: i64)
    requires
        a@.len() == w * h,
        b@.len() == w * h,
        measurable(w as int, h as int),
        w <= 0x7fff_ffff,
        h <= 0x7fff_ffff,
        across == sample_count(w as int),
        n == across * sample_count(h as int),
        n <= w * h,
        s < 81,
    ensures
        r == shift_cost(a@, b@, w as int, s as int % 9 - 4, s as int / 9 - 4, n as int),
{
    let cells: usize = a.len();
    let dx: usize = s % 9;
    let dy: usize = s / 9;
    let mut sum: i64 = 0;
    let mut k: usize = 0;
    proof {
        lemma_measurable_count(w as int, h as int);
    }
    while k < n
        invariant
            cells == w * h,
            cells < 0x8_0000_0000,
            a@.len() == cells,
            b@.len() == cells,
            w <= 0x7fff_ffff,
            h <= 0x7fff_ffff,
            across == sample_count(w as int),
            n == across * sample_count(h as int),
            n <= cells,
            dx <= 8,
            dy <= 8,
            k <= n,
            sum == shift_cost(a@, b@, w as int, dx - 4, dy - 4, k as int),
            0 <= sum <= 65025 * k,
        decreases n - k,
    {
        proof {
            lemma_position(across as int, sample_count(h as int), k as int);
        }
        let x: usize = 4 + 2 * (k % across);
        let y: usize = 4 + 2 * (k / across);
        proof {
            lemma_cell(w as int, h as int, x as int, y as int);
            lemma_cell(w as int, h as int, x + dx - 4, y + dy - 4);
        }
        let d: i64 = a[y * w + x] as i64 - b[(y + dy - 4) * w + (x + dx - 4)] as i64;
        proof {
            assert(0 <= d * d <= 65025) by (nonlinear_arith)
                requires
                    -255 <= d <= 255,
            ;
        }
        sum = sum + d * d;
        k = k + 1;
    }
    sum
}

/// The shift of `b` against `a`.
pub fn estimate_shift(a: &[u8], b: &[u8], w: usize, h: usize) -> (r: (i64, i64))
    requires
        a@.len() == w * h,
        b@.len() == w * h,
        measurable(w as int, h as int),
        w <= 0x7fff_ffff,
        h <= 0x7fff_ffff,
    ensures
        (r.0 as int, r.1 as int) == likely_shift(a@, b@, w as int, h as int),
        -4 <= r.0 <= 4,
        -4 <= r.1 <= 4,
{
    let cells: usize = a.len();
    let across: usize = if w <= 8 {
        0
    } else {
        (w - 7) / 2
    };
    let down: usize = if h <= 8 {
        0
    } else {
        (h - 7) / 2
    };
    proof {
        assert(0 <= across * down && across * down <= w * h) by (nonlinear_arith)
            requires
                0 <= across <= w,
                0 <= down <= h,
        ;
    }
    let n: usize = across * down;
    if n == 0 {
        return (0, 0);
    }
    let count = Number::from_count(n);
    let mut best: usize = 0;
    let mut least = Number::from_int(cost_of(a, b, w, h, across, n, 0)).over(count);
    let mut s: usize = 1;
    while s < 81
        invariant
            cells == w * h,
            a@.len() == w * h,
            b@.len() == w * h,
            measurable(w as int, h as int),
            w <= 0x7fff_ffff,
            h <= 0x7fff_ffff,
            across == sample_count(w as int),
            n == across * sample_count(h as int),
            n <= w * h,
            count == Number::spec_int(n as int),
            1 <= s <= 81,
            best < s,
            best == best_shift(a@, b@, w as int, h as int, s as int),
            least == shift_score(a@, b@, w as int, h as int, best as int),
        decreases 81 - s,
    {
        let score = Number::from_int(cost_of(a, b, w, h, across, n, s)).over(count);
        if score.less(least) {
            least = score;
            best = s;
        }
        s = s + 1;
    }
    ((best % 9) as i64 - 4, (best / 9) as i64 - 4)
}

/// A position moved by `d` and kept inside `n`.
pub open spec fn moved(x: int, d: int, n: int) -> int {
    larger(smaller(x + d, n - 1), 0)
}

/// A picture moved by `(dx, dy)`, its edges repeated.
pub open spec fn translated(data: Seq<u8>, w: int, h: int, dx: int, dy: int) -> Seq<u8> {
    Seq::new(
        data.len(),
        |j: int| {
            let i = j / 3;
            data[(moved(i / w, dy, h) * w + moved(i % w, dx, w)) * 3 + j % 3]
        },
    )
}

fn move_by(x: usize, d: i64, n: usize) -> (r: usize)
    requires
        x < n <= 0xffff_ffff,
        -1000 <= d <= 1000,
    ensures
        r == moved(x as int, d as int, n as int),
        r < n,
{
    let at: i64 = x as i64 + d;
    if at < 0 {
        0
    } else if at >= n as i64 {
        n - 1
    } else {
        at as usize
    }
}

/// Moves a picture: each pixel takes the colour of the one `(dx, dy)` off.
pub fn translate(picture: &Picture, dx: i64, dy: i64) -> (r: Picture)
    requires
        picture.wf(),
        -1000 <= dx <= 1000,
        -1000 <= dy <= 1000,
    ensures
        r.wf(),
        r.width == picture.width,
        r.height == picture.height,
        r.data@ == translated(
            picture.data@,
            picture.width as int,
            picture.height as int,
            dx as int,
            dy as int,
        ),
{
    let w: usize = picture.width as usize;
    let h: usize = picture.height as usize;
    let n: usize = picture.data.len();
    let ghost goal = translated(picture.data@, w as int, h as int, dx as int, dy as int);
    let mut data: Vec<u8> = Vec::new();
    let mut j: usize = 0;
    while j < n
        invariant
            picture.wf(),
            w == picture.width,
            h == picture.height,
            n == picture.data@.len(),
            n == 3 * (w * h),
            -1000 <= dx <= 1000,
            -1000 <= dy <= 1000,
            goal == translated(picture.data@, w as int, h as int, dx as int, dy as int),
            j <= n,
            data@ == goal.take(j as int),
        decreases n - j,
    {
        let i: usize = j / 3;
        proof {
            lemma_position(w as int, h as int, i as int);
        }
        let sx: usize = move_by(i % w, dx, w);
        let sy: usize = move_by(i / w, dy, h);
        proof {
            lemma_cell(w as int, h as int, sx as int, sy as int);
        }
        data.push(picture.data[(sy * w + sx) * 3 + j % 3]);
        j = j + 1;
        proof {
            assert(data@ =~= goal.take(j as int));
        }
    }
    proof {
        assert(data@ =~= goal);
    }
    Picture { width: picture.width, height: picture.height, data }
}

/// How many of the first `n` values are below `v`.
pub open spec fn below_count(s: Seq<u16>, v: int, n: int) -> int
    decreases n,
{
    if n <= 0 {
        0
    } else {
        below_count(s, v, n - 1) + if s[n - 1] < v {
            1int
        } else {
            0
        }
    }
}

/// `v` stands at place `k` of the values in ascending order.
pub open spec fn is_ranked(s: Seq<u16>, k: int, v: int) -> bool {
    below_count(s, v, s.len() as int) <= k < below_count(s, v + 1, s.len() as int)
}

/// The value at place `k` of the values in ascending order.
pub open spec fn ranked(s: Seq<u16>, k: int) -> int {
    choose|v: int| is_ranked(s, k, v)
}

/// Twice the middle value, or the sum of the middle two; zero for no values.
pub open spec fn twice_median(s: Seq<u16>) -> int {
    let n = s.len() as int;
    if n == 0 {
        0
    } else if n % 2 == 1 {
        2 * ranked(s, n / 2)
    } else {
        ranked(s, n / 2 - 1) + ranked(s, n / 2)
    }
}

proof fn lemma_below_monotone(s: Seq<u16>, a: int, b: int, n: int)
    requires
        a <= b,
    ensures
        below_count(s, a, n) <= below_count(s, b, n),
    decreases n,
{
    if n > 0 {
        lemma_below_monotone(s, a, b, n - 1);
    }
}

/// There is one value at each place.
pub proof fn lemma_ranked(s: Seq<u16>, k: int, v: int)
    requires
        is_ranked(s, k, v),
    ensures
        ranked(s, k) == v,
{
    let u = ranked(s, k);
    assert(is_ranked(s, k, u));
    if u < v {
        lemma_below_monotone(s, u + 1, v, s.len() as int);
    } else if v < u {
        lemma_below_monotone(s, v + 1, u, s.len() as int);
    }
}

/// A value at a place is below every bound of the values.
pub proof fn lemma_ranked_below(s: Seq<u16>, k: int, v: int, top: int)
    requires
        is_ranked(s, k, v),
        k < s.len(),
        forall|i: int| 0 <= i < s.len() ==> #[trigger] s[i] < top,
    ensures
        v < top,
{
    if v >= top {
        lemma_below_ends(s, top, s.len() as int);
        lemma_below_monotone(s, top, v, s.len() as int);
    }
}

/// How many of the first `n` values are `v`.
pub open spec fn value_count(s: Seq<u16>, v: int, n: int) -> int
    decreases n,
{
    if n <= 0 {
        0
    } else {
        value_count(s, v, n - 1) + if s[n - 1] == v {
            1int
        } else {
            0
        }
    }
}

proof fn lemma_below_step(s: Seq<u16>, v: int, n: int)
    ensures
        below_count(s, v + 1, n) == below_count(s, v, n) + value_count(s, v, n),
        0 <= value_count(s, v, n),
    decreases n,
{
    if n > 0 {
        lemma_below_step(s, v, n - 1);
    }
}

proof fn lemma_below_ends(s: Seq<u16>, top: int, n: int)
    requires
        0 <= n <= s.len(),
        forall|i: int| 0 <= i < s.len() ==> #[trigger] s[i] < top,
    ensures
        below_count(s, 0, n) == 0,
        below_count(s, top, n) == n,
    decreases n,
{
    if n > 0 {
        lemma_below_ends(s, top, n - 1);
    }
}

/// Counts of values below 512.
pub struct Histogram {
    bins: Vec<usize>,
    total: usize,
    values: Ghost<Seq<u16>>,
}

impl Histogram {
    /// The values that were counted.
    pub closed spec fn counted(&self) -> Seq<u16> {
        self.values@
    }

    pub closed spec fn wf(&self) -> bool {
        &&& self.bins@.len() == 512
        &&& self.total == self.values@.len()
        &&& forall|i: int| 0 <= i < self.values@.len() ==> #[trigger] self.values@[i] < 512
        &&& forall|v: int|
            0 <= v < 512 ==> #[trigger] self.bins@[v] == value_count(
                self.values@,
                v,
                self.values@.len() as int,
            )
    }

    pub fn new() -> (r: Histogram)
        ensures
            r.wf(),
            r.counted() == Seq::<u16>::empty(),
    {
        let bins: Vec<usize> = vec![0; 512];
        Histogram { bins, total: 0, values: Ghost(Seq::empty()) }
    }

    /// Counts one more value.
    pub fn count(&mut self, v: u16)
        requires
            old(self).wf(),
            v < 512,
            old(self).counted().len() < usize::MAX,
        ensures
            final(self).wf(),
            final(self).counted() == old(self).counted().push(v),
    {
        let ghost before = self.values@;
        let ghost after = before.push(v);
        proof {
            lemma_count_bound(before, v as int, before.len() as int);
            assert forall|u: int| 0 <= u < 512 implies value_count(
                after,
                u,
                after.len() as int,
            ) == value_count(before, u, before.len() as int) + if u == v {
                1int
            } else {
                0
            } by {
                lemma_count_prefix(before, after, u, before.len() as int);
            }
        }
        let had: usize = self.bins[v as usize];
        self.bins.set(v as usize, had + 1);
        self.total = self.total + 1;
        self.values = Ghost(after);
    }

    /// The value at place `k` in ascending order.
    pub fn rank(&self, k: usize) -> (r: u16)
        requires
            self.wf(),
            k < self.counted().len(),
        ensures
            r == ranked(self.counted(), k as int),
            is_ranked(self.counted(), k as int, r as int),
            r < 512,
    {
        let mut v: u16 = 0;
        let mut seen: usize = 0;
        let ghost n = self.values@.len() as int;
        proof {
            lemma_below_ends(self.values@, 512, n);
        }
        while v < 512
            invariant
                self.wf(),
                n == self.values@.len(),
                below_count(self.values@, 512, n) == n,
                k < n,
                v <= 512,
                seen == below_count(self.values@, v as int, n),
                seen <= k,
            decreases 512 - v,
        {
            proof {
                lemma_below_step(self.values@, v as int, n);
                lemma_below_monotone(self.values@, v + 1, 512, n);
            }
            let here: usize = self.bins[v as usize];
            if k - seen < here {
                proof {
                    lemma_ranked(self.values@, k as int, v as int);
                }
                return v;
            }
            seen = seen + here;
            v = v + 1;
        }
        0
    }

    /// Twice the median of the values that were counted.
    pub fn twice_median(&self) -> (r: i64)
        requires
            self.wf(),
        ensures
            r == twice_median(self.counted()),
            0 <= r <= 1022,
    {
        let n: usize = self.total;
        if n == 0 {
            0
        } else if n % 2 == 1 {
            2 * self.rank(n / 2) as i64
        } else {
            self.rank(n / 2 - 1) as i64 + self.rank(n / 2) as i64
        }
    }
}

proof fn lemma_count_bound(s: Seq<u16>, v: int, n: int)
    requires
        n >= 0,
    ensures
        0 <= value_count(s, v, n) <= n,
    decreases n,
{
    if n > 0 {
        lemma_count_bound(s, v, n - 1);
    }
}

proof fn lemma_count_prefix(a: Seq<u16>, b: Seq<u16>, v: int, n: int)
    requires
        0 <= n <= a.len(),
        n <= b.len(),
        forall|i: int| 0 <= i < n ==> a[i] == #[trigger] b[i],
    ensures
        value_count(a, v, n) == value_count(b, v, n),
    decreases n,
{
    if n > 0 {
        lemma_count_prefix(a, b, v, n - 1);
    }
}

/// No shift that was tried makes the pictures differ less than the one that is
/// found.
pub proof fn lemma_best_shift_least(a: Seq<u8>, b: Seq<u8>, w: int, h: int, n: int, s: int)
    requires
        measurable(w, h),
        sample_count(w) * sample_count(h) != 0,
        0 <= s < n,
    ensures
        ({
            let best = best_shift(a, b, w, h, n);
            0 <= best < n && !shift_score(a, b, w, h, s).spec_lt(shift_score(a, b, w, h, best))
        }),
    decreases n,
{
    let best = best_shift(a, b, w, h, n);
    lemma_score_is_number(a, b, w, h, s);
    lemma_number_strict(shift_score(a, b, w, h, s), shift_score(a, b, w, h, s));
    if n > 1 {
        let before = best_shift(a, b, w, h, n - 1);
        lemma_best_shift_least(a, b, w, h, n - 1, 0);
        let (old_least, last) = (shift_score(a, b, w, h, before), shift_score(a, b, w, h, n - 1));
        lemma_score_is_number(a, b, w, h, before);
        lemma_score_is_number(a, b, w, h, n - 1);
        if s < n - 1 {
            lemma_best_shift_least(a, b, w, h, n - 1, s);
            if last.spec_lt(old_least) {
                lemma_number_strict(last, old_least);
                lemma_number_order(last, old_least, shift_score(a, b, w, h, s));
            }
        }
    }
}

proof fn lemma_score_is_number(a: Seq<u8>, b: Seq<u8>, w: int, h: int, s: int)
    requires
        measurable(w, h),
        sample_count(w) * sample_count(h) != 0,
    ensures
        shift_score(a, b, w, h, s).kind() != Class::Nan,
{
    let (across, down) = (sample_count(w), sample_count(h));
    let n = across * down;
    lemma_measurable_count(w, h);
    assert(0 < n <= w * h) by (nonlinear_arith)
        requires
            n == across * down,
            n != 0,
            0 <= across <= w,
            0 <= down <= h,
    ;
    lemma_quotient_is_number(shift_cost(a, b, w, s % 9 - 4, s / 9 - 4, n), n);
}

/// A moved picture shows each pixel where it was moved from, each channel as it
/// is; past the edges the last pixel is repeated.
pub proof fn lemma_translated_by_place(
    data: Seq<u8>,
    w: int,
    h: int,
    dx: int,
    dy: int,
    x: int,
    y: int,
    c: int,
)
    requires
        data.len() == 3 * (w * h),
        0 <= x < w,
        0 <= y < h,
        0 <= c < 3,
    ensures
        ({
            let seen = translated(data, w, h, dx, dy)[3 * (y * w + x) + c];
            &&& 0 <= x + dx < w && 0 <= y + dy < h ==> seen == data[3 * ((y + dy) * w + (x + dx)) + c]
            &&& x + dx >= w && 0 <= y + dy < h ==> seen == data[3 * ((y + dy) * w + (w - 1)) + c]
            &&& x + dx < 0 && 0 <= y + dy < h ==> seen == data[3 * ((y + dy) * w) + c]
            &&& 0 <= x + dx < w && y + dy >= h ==> seen == data[3 * ((h - 1) * w + (x + dx)) + c]
            &&& 0 <= x + dx < w && y + dy < 0 ==> seen == data[3 * (x + dx) + c]
        }),
{
    let k = 3 * (y * w + x) + c;
    assert(k / 3 == y * w + x && k % 3 == c);
    vstd::arithmetic::div_mod::lemma_fundamental_div_mod_converse(y * w + x, w, y, x);
    assert(0 <= y * w + x && y * w + x < w * h) by (nonlinear_arith)
        requires
            0 <= x < w,
            0 <= y < h,
    ;
    assert(0 * w == 0);
}

} // verus!
