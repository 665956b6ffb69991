//! Checking a repaired picture against its original before it is written.

use crate::accuracy::{
    lemma_less_by_value, lemma_quotient_value, lemma_ratio_value, lemma_share_value,
    lemma_whole_value, value, within,
};
use crate::codec::{resize_gray, resized_gray, Sampling};
use crate::double::{ratio, whole, Double};
use crate::raster::{
    lemma_measurable_area, lemma_measurable_sides, measurable, Mask, Picture,
};
use crate::template::{
    template_beyond, template_hit, template_stroke_mask, Template,
};
use vstd::prelude::*;

verus! {

/// The largest difference of a channel between two pictures at position `i`.
pub open spec fn change(a: &Picture, b: &Picture, i: int) -> int {
    let d0 = gap(a.channel(i, 0), b.channel(i, 0));
    let d1 = gap(a.channel(i, 1), b.channel(i, 1));
    let d2 = gap(a.channel(i, 2), b.channel(i, 2));
    let m = if d0 < d1 {
        d1
    } else {
        d0
    };
    if m < d2 {
        d2
    } else {
        m
    }
}

/// The distance of two bytes.
pub open spec fn gap(a: u8, b: u8) -> int {
    if a < b {
        b - a
    } else {
        a - b
    }
}

/// What is counted when two pictures are compared under a mask.
#[derive(Clone, Copy, Debug, PartialEq, Eq, Structural)]
pub struct Changes {
    /// Marked pixels.
    pub area: usize,
    /// Marked pixels that changed by more than 10.
    pub inside: usize,
    /// Unmarked pixels that changed by more than 2.
    pub outside: usize,
    /// The largest of those changes.
    pub outside_max: i32,
}

/// How many of the first `n` pixels are marked.
pub open spec fn marked_count(mask: Seq<u8>, n: int) -> int
    decreases n,
{
    if n <= 0 {
        0
    } else {
        marked_count(mask, n - 1) + if mask[n - 1] > 0 {
            1int
        } else {
            0
        }
    }
}

/// A marked pixel that changed by more than 10.
pub open spec fn changed_inside(a: &Picture, b: &Picture, mask: Seq<u8>, i: int) -> bool {
    mask[i] > 0 && change(a, b, i) > 10
}

/// An unmarked pixel that changed by more than 2.
pub open spec fn changed_outside(a: &Picture, b: &Picture, mask: Seq<u8>, i: int) -> bool {
    mask[i] == 0 && change(a, b, i) > 2
}

/// How many of the first `n` pixels changed inside the mask.
pub open spec fn inside_count(a: &Picture, b: &Picture, mask: Seq<u8>, n: int) -> int
    decreases n,
{
    if n <= 0 {
        0
    } else {
        inside_count(a, b, mask, n - 1) + if changed_inside(a, b, mask, n - 1) {
            1int
        } else {
            0
        }
    }
}

/// How many of the first `n` pixels changed outside the mask.
pub open spec fn outside_count(a: &Picture, b: &Picture, mask: Seq<u8>, n: int) -> int
    decreases n,
{
    if n <= 0 {
        0
    } else {
        outside_count(a, b, mask, n - 1) + if changed_outside(a, b, mask, n - 1) {
            1int
        } else {
            0
        }
    }
}

/// The largest change outside the mask among the first `n` pixels.
pub open spec fn outside_peak(a: &Picture, b: &Picture, mask: Seq<u8>, n: int) -> int
    decreases n,
{
    if n <= 0 {
        0
    } else {
        let before = outside_peak(a, b, mask, n - 1);
        if changed_outside(a, b, mask, n - 1) && before < change(a, b, n - 1) {
            change(a, b, n - 1)
        } else {
            before
        }
    }
}

/// `c` counts the changes among the first `n` pixels.
pub open spec fn counts(a: &Picture, b: &Picture, mask: Seq<u8>, n: int, c: Changes) -> bool {
    &&& c.area == marked_count(mask, n)
    &&& c.inside == inside_count(a, b, mask, n)
    &&& c.outside == outside_count(a, b, mask, n)
    &&& c.outside_max == outside_peak(a, b, mask, n)
}

fn gap_of(a: u8, b: u8) -> (r: i32)
    ensures
        r == gap(a, b),
        0 <= r <= 255,
{
    if a < b {
        (b - a) as i32
    } else {
        (a - b) as i32
    }
}

fn change_of(a: &Picture, b: &Picture, i: usize) -> (r: i32)
    requires
        a.wf(),
        b.wf(),
        i < a.area(),
        i < b.area(),
    ensures
        r == change(a, b, i as int),
        0 <= r <= 255,
{
    let d0: i32 = gap_of(a.get(i, 0), b.get(i, 0));
    let d1: i32 = gap_of(a.get(i, 1), b.get(i, 1));
    let d2: i32 = gap_of(a.get(i, 2), b.get(i, 2));
    let m: i32 = if d0 < d1 {
        d1
    } else {
        d0
    };
    if m < d2 {
        d2
    } else {
        m
    }
}

/// Compares two pictures of the same size under a mask.
pub fn compare(a: &Picture, b: &Picture, mask: &[u8]) -> (r: Changes)
    requires
        a.wf(),
        b.wf(),
        a.width == b.width,
        a.height == b.height,
        mask@.len() == a.area(),
    ensures
        counts(a, b, mask@, a.area(), r),
        r.area <= a.area(),
        r.inside <= r.area,
        r.outside + r.area <= a.area(),
        0 <= r.outside_max <= 255,
{
    let n: usize = mask.len();
    let mut r = Changes { area: 0, inside: 0, outside: 0, outside_max: 0 };
    let mut i: usize = 0;
    while i < n
        invariant
            a.wf(),
            b.wf(),
            a.width == b.width,
            a.height == b.height,
            n == a.area(),
            mask@.len() == n,
            i <= n,
            counts(a, b, mask@, i as int, r),
            r.inside <= r.area,
            r.outside + r.area <= i,
            0 <= r.outside_max <= 255,
        decreases n - i,
    {
        let d: i32 = change_of(a, b, i);
        if mask[i] > 0 {
            r.area = r.area + 1;
            if d > 10 {
                r.inside = r.inside + 1;
            }
        } else if d > 2 {
            r.outside = r.outside + 1;
            if r.outside_max < d {
                r.outside_max = d;
            }
        }
        i = i + 1;
    }
    r
}

/// The outcome of a check.
#[derive(Clone, Copy, Debug, PartialEq, Eq, Structural)]
pub enum Verdict {
    Pass,
    Warn,
    Fail,
}

/// Why a check did not pass.
#[derive(Clone, Copy, Debug, PartialEq, Eq, Structural)]
pub enum Reason {
    /// Pixels outside the mask changed: how many, and by how much at most.
    OutsideChanged { count: usize, max: i32 },
    /// The watermark still matches after the repair.
    Residue { score: Double },
    /// The watermark matches after the repair more than it should.
    Trace { score: Double },
    /// The mask takes more than 8 % of the picture.
    LargeMask { ratio: Double },
}

/// The result of checking a repaired picture.
pub struct VerifyReport {
    pub mask_area: usize,
    pub mask_ratio: Double,
    pub passthrough: bool,
    pub inside_changed: usize,
    pub outside_changed: usize,
    pub outside_max: i32,
    pub orig_score: Double,
    pub res_score: Double,
    /// The watermark still matches: trying again with a larger mask may help.
    pub residual: bool,
    pub verdict: Verdict,
    pub reasons: Vec<Reason>,
}

/// The score from which on the watermark counts as present.
pub open spec fn present(score: Double) -> bool {
    !score.spec_lt(whole(20))
}

/// The share of the picture under the mask.
pub open spec fn mask_share(area: int, total: int) -> Double {
    if total > 0 {
        whole(area).spec_over(whole(total))
    } else {
        whole(0)
    }
}

/// The reasons against a repair.
pub open spec fn objections(
    c: Changes,
    total: int,
    applied: bool,
    orig_score: Double,
    res_score: Double,
) -> Seq<Reason> {
    let outside = if c.outside > 0 {
        seq![Reason::OutsideChanged { count: c.outside, max: c.outside_max }]
    } else {
        seq![]
    };
    let watched = applied && present(orig_score);
    let left = if watched && present(res_score) {
        seq![Reason::Residue { score: res_score }]
    } else if watched && !res_score.spec_lt(whole(20).spec_times(ratio(6, 10))) {
        seq![Reason::Trace { score: res_score }]
    } else {
        seq![]
    };
    let share = mask_share(c.area as int, total);
    let large = if c.area > 0 && ratio(8, 100).spec_lt(share) {
        seq![Reason::LargeMask { ratio: share }]
    } else {
        seq![]
    };
    outside + left + large
}

/// A change outside the mask or a remaining watermark fails; anything else
/// against a repair is a warning.
pub open spec fn ruling(
    c: Changes,
    total: int,
    applied: bool,
    orig_score: Double,
    res_score: Double,
) -> Verdict {
    if c.outside > 0 || (applied && present(orig_score) && present(res_score)) {
        Verdict::Fail
    } else if objections(c, total, applied, orig_score, res_score).len() > 0 {
        Verdict::Warn
    } else {
        Verdict::Pass
    }
}

/// Weighs what was counted and how well the watermark matches before and after
/// the repair. `applied` tells whether the watermark template was used.
pub fn judge(
    c: Changes,
    total: usize,
    applied: bool,
    orig_score: Double,
    res_score: Double,
) -> (r: VerifyReport)
    requires
        orig_score.wf(),
        res_score.wf(),
        c.area <= total,
    ensures
        r.mask_area == c.area,
        r.mask_ratio == mask_share(c.area as int, total as int),
        r.passthrough == (c.area == 0),
        r.inside_changed == c.inside,
        r.outside_changed == c.outside,
        r.outside_max == c.outside_max,
        r.orig_score == orig_score,
        r.res_score == res_score,
        r.residual == (applied && present(orig_score) && present(res_score)),
        r.verdict == ruling(c, total as int, applied, orig_score, res_score),
        r.reasons@ == objections(c, total as int, applied, orig_score, res_score),
{
    let mut reasons: Vec<Reason> = Vec::new();
    let mut verdict = Verdict::Pass;
    let limit = Double::from_int(20);
    let watched: bool = applied && !orig_score.less(limit);
    let residual: bool = watched && !res_score.less(limit);
    let share = if total > 0 {
        Double::from_count(c.area).over(Double::from_count(total))
    } else {
        Double::zero()
    };
    if c.outside > 0 {
        verdict = Verdict::Fail;
        reasons.push(Reason::OutsideChanged { count: c.outside, max: c.outside_max });
    }
    if residual {
        verdict = Verdict::Fail;
        reasons.push(Reason::Residue { score: res_score });
    } else if watched && !res_score.less(limit.times(Double::decimal(6, 10))) {
        if verdict != Verdict::Fail {
            verdict = Verdict::Warn;
        }
        reasons.push(Reason::Trace { score: res_score });
    }
    if c.area > 0 && Double::decimal(8, 100).less(share) {
        if verdict == Verdict::Pass {
            verdict = Verdict::Warn;
        }
        reasons.push(Reason::LargeMask { ratio: share });
    }
    proof {
        assert(reasons@ =~= objections(c, total as int, applied, orig_score, res_score));
    }
    VerifyReport {
        mask_area: c.area,
        mask_ratio: share,
        passthrough: c.area == 0,
        inside_changed: c.inside,
        outside_changed: c.outside,
        outside_max: c.outside_max,
        orig_score,
        res_score,
        residual,
        verdict,
        reasons,
    }
}

/// How well the watermark template matches a picture; zero for no match, and
/// for a template that cannot be scaled to the picture.
pub open spec fn template_score(picture: &Picture, template: &Template) -> Double {
    if template_beyond(picture, template) {
        whole(0)
    } else {
        match template_hit(picture, template) {
            Some(hit) => hit.0,
            None => whole(0),
        }
    }
}

fn score_of(picture: &Picture, template: &Template) -> (r: Double)
    requires
        picture.wf(),
        template.wf(),
    ensures
        r == template_score(picture, template),
        r.wf(),
{
    match template_stroke_mask(picture, template) {
        Ok(Some(hit)) => hit.score,
        _ => Double::zero(),
    }
}

/// The size of a picture is within 3 % of the one that the template was cut
/// from.
pub open spec fn native_size(picture: &Picture, template: &Template) -> bool {
    let short = if picture.width < picture.height {
        picture.width as int
    } else {
        picture.height as int
    };
    let scale = whole(short).spec_over(template.ref_short);
    !ratio(3, 100).spec_lt(scale.spec_minus(whole(1)).spec_abs())
}

/// Whether a remaining watermark counts: as told, else where the original
/// matches at its native size.
pub open spec fn watches(
    picture: &Picture,
    template: &Template,
    told: Option<bool>,
) -> bool {
    match told {
        Some(b) => b,
        None => present(template_score(picture, template)) && native_size(picture, template),
    }
}

/// The bytes of a mask at the size of a picture.
pub open spec fn mask_at(mask: &Mask, w: u32, h: u32) -> Seq<u8> {
    if mask.width == w && mask.height == h {
        mask.data@
    } else if w == 0 || h == 0 {
        seq![]
    } else {
        resized_gray(mask.width, mask.height, mask.data@, w, h, Sampling::Nearest)
    }
}

fn fit_mask(mask: &Mask, w: u32, h: u32) -> (r: Vec<u8>)
    requires
        mask.wf(),
        measurable(w as int, h as int),
    ensures
        r@ == mask_at(mask, w, h),
        r@.len() == w * h,
{
    if mask.width == w && mask.height == h {
        let mut data: Vec<u8> = Vec::new();
        let n: usize = mask.data.len();
        let mut i: usize = 0;
        while i < n
            invariant
                n == mask.data@.len(),
                i <= n,
                data@ == mask.data@.take(i as int),
            decreases n - i,
        {
            data.push(mask.data[i]);
            i = i + 1;
            proof {
                assert(data@ =~= mask.data@.take(i as int));
            }
        }
        proof {
            assert(data@ =~= mask.data@);
        }
        data
    } else if w == 0 || h == 0 {
        let none: Vec<u8> = Vec::new();
        proof {
            assert(none@ =~= seq![]);
            assert(w * h == 0) by (nonlinear_arith)
                requires
                    w == 0 || h == 0,
            ;
        }
        none
    } else {
        proof {
            lemma_measurable_area(w as int, h as int);
            if mask.width > 0 && mask.height > 0 {
                lemma_measurable_sides(mask.width as int, mask.height as int);
                lemma_measurable_sides(w as int, h as int);
                assert(mask.width * h <= 0x2000_0000 * 0x2000_0000) by (nonlinear_arith)
                    requires
                        0 <= mask.width <= 0x2000_0000,
                        0 <= h <= 0x2000_0000,
                ;
            }
        }
        resize_gray(mask.width, mask.height, mask.data.as_slice(), w, h, Sampling::Nearest)
    }
}

/// Checks a repaired picture against its original and the mask of the repair.
/// Pictures of different sizes cannot be compared.
pub fn verify_paths(
    orig: &Picture,
    res: &Picture,
    mask: &Mask,
    template: &Template,
    template_applied: Option<bool>,
) -> (r: Option<VerifyReport>)
    requires
        orig.wf(),
        res.wf(),
        mask.wf(),
        template.wf(),
    ensures
        r is Some <==> orig.width == res.width && orig.height == res.height,
        r matches Some(report) ==> {
            let marks = mask_at(mask, orig.width, orig.height);
            let applied = watches(orig, template, template_applied);
            let before = template_score(orig, template);
            let after = template_score(res, template);
            exists|c: Changes|
                {
                    &&& #[trigger] counts(orig, res, marks, orig.area(), c)
                    &&& report.mask_area == c.area
                    &&& report.mask_ratio == mask_share(c.area as int, orig.area())
                    &&& report.passthrough == (c.area == 0)
                    &&& report.inside_changed == c.inside
                    &&& report.outside_changed == c.outside
                    &&& report.outside_max == c.outside_max
                    &&& report.orig_score == before
                    &&& report.res_score == after
                    &&& report.residual == (applied && present(before) && present(after))
                    &&& report.verdict == ruling(c, orig.area(), applied, before, after)
                    &&& report.reasons@ == objections(c, orig.area(), applied, before, after)
                }
        },
{
    if orig.width != res.width || orig.height != res.height {
        return None;
    }
    let marks = fit_mask(mask, orig.width, orig.height);
    let c = compare(orig, res, marks.as_slice());
    let before = score_of(orig, template);
    let after = score_of(res, template);
    let applied: bool = match template_applied {
        Some(b) => b,
        None => {
            let short: u32 = if orig.width < orig.height {
                orig.width
            } else {
                orig.height
            };
            let scale = Double::from_int(short as i64).over(template.ref_short);
            let off = scale.minus(Double::from_int(1)).abs();
            !before.less(Double::from_int(20)) && !Double::decimal(3, 100).less(off)
        },
    };
    Some(judge(c, marks.len(), applied, before, after))
}

proof fn lemma_outside_count(a: &Picture, b: &Picture, mask: Seq<u8>, n: int)
    ensures
        outside_count(a, b, mask, n) >= 0,
        outside_count(a, b, mask, n) > 0 <==> exists|i: int|
            0 <= i < n && #[trigger] changed_outside(a, b, mask, i),
    decreases n,
{
    if n > 0 {
        lemma_outside_count(a, b, mask, n - 1);
        if outside_count(a, b, mask, n) > 0 {
            if changed_outside(a, b, mask, n - 1) {
            } else {
                let i = choose|i: int| 0 <= i < n - 1 && #[trigger] changed_outside(a, b, mask, i);
                assert(changed_outside(a, b, mask, i));
            }
        }
        if exists|i: int| 0 <= i < n && #[trigger] changed_outside(a, b, mask, i) {
            let i = choose|i: int| 0 <= i < n && #[trigger] changed_outside(a, b, mask, i);
            if i < n - 1 {
                assert(changed_outside(a, b, mask, i));
            }
        }
    }
}

/// One pixel changed outside the mask is enough for a repair to fail.
pub proof fn lemma_outside_change_fails(
    a: &Picture,
    b: &Picture,
    mask: Seq<u8>,
    c: Changes,
    applied: bool,
    before: Double,
    after: Double,
    i: int,
)
    requires
        counts(a, b, mask, a.area(), c),
        0 <= i < a.area(),
        changed_outside(a, b, mask, i),
    ensures
        ruling(c, a.area(), applied, before, after) == Verdict::Fail,
{
    lemma_outside_count(a, b, mask, a.area());
}

/// A repair that leaves every pixel outside the mask alone fails only over a
/// remaining watermark.
pub proof fn lemma_untouched_outside_passes(
    a: &Picture,
    b: &Picture,
    mask: Seq<u8>,
    c: Changes,
    applied: bool,
    before: Double,
    after: Double,
)
    requires
        counts(a, b, mask, a.area(), c),
        forall|i: int| 0 <= i < a.area() && mask[i] == 0 ==> #[trigger] change(a, b, i) == 0,
    ensures
        ruling(c, a.area(), applied, before, after) == Verdict::Fail <==> applied && present(before)
            && present(after),
{
    lemma_outside_count(a, b, mask, a.area());
    if exists|i: int| 0 <= i < a.area() && #[trigger] changed_outside(a, b, mask, i) {
        let i = choose|i: int| 0 <= i < a.area() && #[trigger] changed_outside(a, b, mask, i);
        assert(change(a, b, i) == 0);
    }
}

/// A verdict passes exactly when there is nothing against the repair.
pub proof fn lemma_pass_without_objections(
    c: Changes,
    total: int,
    applied: bool,
    before: Double,
    after: Double,
)
    ensures
        ruling(c, total, applied, before, after) == Verdict::Pass <==> objections(
            c,
            total,
            applied,
            before,
            after,
        ).len() == 0,
{
}

/// How far byte `k` of two pictures is apart.
pub open spec fn distance(a: Seq<u8>, b: Seq<u8>, k: int) -> int {
    if a[k] < b[k] {
        b[k] - a[k]
    } else {
        a[k] - b[k]
    }
}

/// Byte `k` of two pictures is more than `far` apart.
pub open spec fn apart(a: Seq<u8>, b: Seq<u8>, k: int, far: int) -> bool {
    distance(a, b, k) > far
}

/// The change of a pixel is the largest distance of its three channels: none is
/// further apart, and one is as far. So it is zero only for equal pixels.
pub proof fn lemma_change_bounds_every_channel(a: &Picture, b: &Picture, i: int)
    ensures
        ({
            let m = change(a, b, i);
            let (p, q) = (a.data@, b.data@);
            &&& 0 <= m <= 255
            &&& forall|k: int| 3 * i <= k < 3 * i + 3 ==> #[trigger] distance(p, q, k) <= m
            &&& exists|k: int| 3 * i <= k < 3 * i + 3 && #[trigger] distance(p, q, k) == m
            &&& m == 0 <==> p[3 * i] == q[3 * i] && p[3 * i + 1] == q[3 * i + 1] && p[3 * i + 2]
                == q[3 * i + 2]
            &&& change(b, a, i) == m
        }),
{
    let (p, q, m) = (a.data@, b.data@, change(a, b, i));
    assert(a.channel(i, 0) == p[3 * i] && a.channel(i, 1) == p[3 * i + 1] && a.channel(i, 2) == p[3
        * i + 2]);
    assert(b.channel(i, 0) == q[3 * i] && b.channel(i, 1) == q[3 * i + 1] && b.channel(i, 2) == q[3
        * i + 2]);
    assert forall|k: int| 3 * i <= k < 3 * i + 3 implies #[trigger] distance(p, q, k) <= m by {
        assert(k == 3 * i || k == 3 * i + 1 || k == 3 * i + 2);
    }
    let (d0, d1, d2) = (
        distance(p, q, 3 * i),
        distance(p, q, 3 * i + 1),
        distance(p, q, 3 * i + 2),
    );
    assert(d0 == m || d1 == m || d2 == m);
    assert(d0 <= m && d1 <= m && d2 <= m);
    assert(change(b, a, i) == m);
    assert(exists|k: int| 3 * i <= k < 3 * i + 3 && #[trigger] distance(p, q, k) == m);
    assert(m == 0 <==> p[3 * i] == q[3 * i] && p[3 * i + 1] == q[3 * i + 1] && p[3 * i + 2] == q[3
        * i + 2]);
}

/// A pixel of two pictures has a channel that is more than `far` apart.
pub open spec fn strays(a: Seq<u8>, b: Seq<u8>, i: int, far: int) -> bool {
    apart(a, b, 3 * i, far) || apart(a, b, 3 * i + 1, far) || apart(a, b, 3 * i + 2, far)
}

/// The positions below `n` that are marked.
pub open spec fn marked_places(mask: Seq<u8>, n: int) -> Set<int> {
    Set::new(|i: int| 0 <= i < n && mask[i] > 0)
}

/// The positions below `n`, marked or not as told, at which some channel is more
/// than `far` apart.
pub open spec fn strayed_places(
    a: Seq<u8>,
    b: Seq<u8>,
    mask: Seq<u8>,
    marked: bool,
    far: int,
    n: int,
) -> Set<int> {
    Set::new(|i: int| 0 <= i < n && (mask[i] > 0) == marked && strays(a, b, i, far))
}

/// What is counted is how many pixels there are: marked ones, marked ones with a
/// channel that is more than 10 apart, and unmarked ones with a channel that is
/// more than 2 apart. The largest change told of is that of an unmarked channel,
/// and no unmarked channel is further apart unless by at most 2.
pub proof fn lemma_changes_count_pixels(a: &Picture, b: &Picture, mask: Seq<u8>, n: int, c: Changes)
    requires
        0 <= n,
        counts(a, b, mask, n, c),
    ensures
        marked_places(mask, n).finite(),
        strayed_places(a.data@, b.data@, mask, true, 10, n).finite(),
        strayed_places(a.data@, b.data@, mask, false, 2, n).finite(),
        c.area == marked_places(mask, n).len(),
        c.inside == strayed_places(a.data@, b.data@, mask, true, 10, n).len(),
        c.outside == strayed_places(a.data@, b.data@, mask, false, 2, n).len(),
        forall|k: int|
            0 <= k < 3 * n && mask[k / 3] == 0 ==> !(#[trigger] apart(a.data@, b.data@, k, 2))
                || !apart(a.data@, b.data@, k, c.outside_max as int),
        c.outside > 0 ==> exists|k: int|
            0 <= k < 3 * n && mask[k / 3] == 0 && #[trigger] apart(
                a.data@,
                b.data@,
                k,
                c.outside_max - 1,
            ) && c.outside_max > 2,
        c.outside == 0 ==> c.outside_max == 0,
    decreases n,
{
    lemma_tally(a, b, mask, n);
    let (p, q) = (a.data@, b.data@);
    let peak = outside_peak(a, b, mask, n);
    assert forall|k: int| 0 <= k < 3 * n && mask[k / 3] == 0 implies !(#[trigger] apart(p, q, k, 2))
        || !apart(p, q, k, peak) by {
        let i = k / 3;
        lemma_change_bounds_every_channel(a, b, i);
        assert(distance(p, q, k) <= change(a, b, i));
        assert(change(a, b, i) <= 2 || change(a, b, i) <= peak);
    }
    if c.outside > 0 {
        let i = choose|i: int|
            0 <= i < n && #[trigger] changed_outside(a, b, mask, i) && change(a, b, i) == peak;
        lemma_change_bounds_every_channel(a, b, i);
        let k = choose|k: int| 3 * i <= k < 3 * i + 3 && #[trigger] distance(p, q, k) == peak;
        assert(k / 3 == i);
        assert(apart(p, q, k, peak - 1));
    }
}

proof fn lemma_strays(a: &Picture, b: &Picture, i: int, far: int)
    ensures
        strays(a.data@, b.data@, i, far) <==> change(a, b, i) > far || far < 0,
{
    lemma_change_bounds_every_channel(a, b, i);
    let (p, q, m) = (a.data@, b.data@, change(a, b, i));
    assert(distance(p, q, 3 * i) <= m);
    assert(distance(p, q, 3 * i + 1) <= m);
    assert(distance(p, q, 3 * i + 2) <= m);
    let k = choose|k: int| 3 * i <= k < 3 * i + 3 && #[trigger] distance(p, q, k) == m;
    assert(k == 3 * i || k == 3 * i + 1 || k == 3 * i + 2);
}

proof fn lemma_tally(a: &Picture, b: &Picture, mask: Seq<u8>, n: int)
    requires
        0 <= n,
    ensures
        ({
            let inside = strayed_places(a.data@, b.data@, mask, true, 10, n);
            let outside = strayed_places(a.data@, b.data@, mask, false, 2, n);
            let peak = outside_peak(a, b, mask, n);
            &&& marked_places(mask, n).finite() && marked_places(mask, n).len() == marked_count(
                mask,
                n,
            )
            &&& inside.finite() && inside.len() == inside_count(a, b, mask, n)
            &&& outside.finite() && outside.len() == outside_count(a, b, mask, n)
            &&& peak >= 0
            &&& forall|i: int|
                0 <= i < n && mask[i] == 0 ==> (#[trigger] change(a, b, i)) <= 2 || change(a, b, i)
                    <= peak
            &&& outside.len() > 0 ==> peak > 2 && exists|i: int|
                0 <= i < n && #[trigger] changed_outside(a, b, mask, i) && change(a, b, i) == peak
            &&& outside.len() == 0 ==> peak == 0
        }),
    decreases n,
{
    let (p, q) = (a.data@, b.data@);
    if n == 0 {
        assert(marked_places(mask, n) =~= Set::<int>::empty());
        assert(strayed_places(p, q, mask, true, 10, n) =~= Set::<int>::empty());
        assert(strayed_places(p, q, mask, false, 2, n) =~= Set::<int>::empty());
    } else {
        let m = n - 1;
        lemma_tally(a, b, mask, m);
        lemma_strays(a, b, m, 10);
        lemma_strays(a, b, m, 2);
        let (s0, t0) = (marked_places(mask, m), marked_places(mask, n));
        let (s1, t1) = (
            strayed_places(p, q, mask, true, 10, m),
            strayed_places(p, q, mask, true, 10, n),
        );
        let (s2, t2) = (
            strayed_places(p, q, mask, false, 2, m),
            strayed_places(p, q, mask, false, 2, n),
        );
        if mask[m] > 0 {
            assert(t0 =~= s0.insert(m));
        } else {
            assert(t0 =~= s0);
        }
        if changed_inside(a, b, mask, m) {
            assert(t1 =~= s1.insert(m));
        } else {
            assert(t1 =~= s1);
        }
        if changed_outside(a, b, mask, m) {
            assert(t2 =~= s2.insert(m));
            let before = outside_peak(a, b, mask, m);
            if before < change(a, b, m) {
                assert(changed_outside(a, b, mask, m) && change(a, b, m) == outside_peak(
                    a,
                    b,
                    mask,
                    n,
                ));
            } else {
                let i = choose|i: int|
                    0 <= i < m && #[trigger] changed_outside(a, b, mask, i) && change(a, b, i)
                        == before;
                assert(changed_outside(a, b, mask, i) && change(a, b, i) == outside_peak(
                    a,
                    b,
                    mask,
                    n,
                ));
            }
        } else {
            assert(t2 =~= s2);
            if s2.len() > 0 {
                let i = choose|i: int|
                    0 <= i < m && #[trigger] changed_outside(a, b, mask, i) && change(a, b, i)
                        == outside_peak(a, b, mask, m);
                assert(changed_outside(a, b, mask, i) && change(a, b, i) == outside_peak(
                    a,
                    b,
                    mask,
                    n,
                ));
            }
        }
    }
}

/// A repair that does not fail leaves every channel of every unmarked pixel as it
/// was, but for at most 2; and one that goes further in any channel fails.
pub proof fn lemma_unmarked_channels_decide(
    a: &Picture,
    b: &Picture,
    mask: Seq<u8>,
    c: Changes,
    applied: bool,
    before: Double,
    after: Double,
    k: int,
)
    requires
        a.wf(),
        counts(a, b, mask, a.area(), c),
        0 <= k < a.data@.len(),
        mask[k / 3] == 0,
    ensures
        ruling(c, a.area(), applied, before, after) != Verdict::Fail ==> -2 <= a.data@[k]
            - b.data@[k] <= 2,
        c.outside == 0 ==> -2 <= a.data@[k] - b.data@[k] <= 2,
{
    let n = a.area();
    assert(n >= 0) by (nonlinear_arith)
        requires
            n == a.width * a.height,
    ;
    let (p, q) = (a.data@, b.data@);
    lemma_changes_count_pixels(a, b, mask, n, c);
    if apart(p, q, k, 2) {
        let i = k / 3;
        assert(k == 3 * i || k == 3 * i + 1 || k == 3 * i + 2);
        assert(strays(p, q, i, 2));
        let s = strayed_places(p, q, mask, false, 2, n);
        assert(s.contains(i));
        if s.len() == 0 {
            assert(s =~= Set::<int>::empty());
        }
    }
}

/// A mask is called large if it takes more than 8 percent of the picture, and a
/// watermark is called present from a score of 20 on.
pub proof fn lemma_limits_of_a_ruling(
    c: Changes,
    total: int,
    applied: bool,
    before: Double,
    after: Double,
)
    requires
        c.area <= total <= 0x2000_0000,
    ensures
        ({
            let large = exists|r: Double|
                objections(c, total, applied, before, after).contains(
                    #[trigger] large_mask(r),
                );
            &&& 10_000 * c.area > 801 * total ==> large
            &&& 10_000 * c.area < 799 * total ==> !large
            &&& value(before) >= (20 as real) <==> present(before)
            &&& value(before) >= (20 as real) && value(after) >= (20 as real) && applied ==> ruling(
                c,
                total,
                applied,
                before,
                after,
            ) == Verdict::Fail
            &&& value(after) < (11 as real) && c.outside == 0 && !large ==> ruling(
                c,
                total,
                applied,
                before,
                after,
            ) == Verdict::Pass
            &&& c.outside > 0 ==> ruling(c, total, applied, before, after) == Verdict::Fail
        }),
{
    lemma_whole_value(20);
    lemma_less_by_value(before, whole(20));
    lemma_less_by_value(after, whole(20));
    let trace = whole(20).spec_times(ratio(6, 10));
    lemma_share_value(20, 6, 10);
    lemma_less_by_value(after, trace);
    lemma_ratio_value(8, 100);
    let share = mask_share(c.area as int, total);
    let list = objections(c, total, applied, before, after);
    lemma_less_by_value(ratio(8, 100), share);
    if total > 0 {
        lemma_quotient_value(c.area as int, total);
        let (a, t, s, v) = (
            c.area as real,
            total as real,
            c.area as real / total as real,
            value(share),
        );
        assert(a == s * t && s >= (0 as real)) by (nonlinear_arith)
            requires
                s == a / t,
                t > (0 as real),
                a >= (0 as real),
        ;
        let least = value(ratio(8, 100));
        assert((10_000 * c.area > 801 * total ==> least < v) && (10_000 * c.area < 799 * total
            ==> !(least < v))) by (nonlinear_arith)
            requires
                a == c.area as real,
                t == total as real,
                t > (0 as real),
                a == s * t,
                s >= (0 as real),
                within(v, s, s / (0x4_0000_0000_0000 as real)),
                within(
                    least,
                    (8 as real) / (100 as real),
                    (8 as real) / (100 as real) / (0x20_0000_0000_0000 as real),
                ),
        ;
    }
    if 10_000 * c.area > 801 * total {
        assert(list.last() == large_mask(share));
        assert(list.contains(large_mask(share)));
    }
    if c.area > 0 && ratio(8, 100).spec_lt(share) {
        assert(list.last() == large_mask(share));
        assert(list.contains(large_mask(share)));
    }
}

/// The reason of a large mask.
pub open spec fn large_mask(r: Double) -> Reason {
    Reason::LargeMask { ratio: r }
}

} // verus!
