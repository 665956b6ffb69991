//! Learning a mark from pictures of which nobody says whether they suit: the
//! usable ones are told, ordered and tried.

use crate::batch::{is_batch_outcome, learn_from_batch, BatchFit, BatchResult};
use crate::learning::{
    background_score, build_from_uniform, is_scored, is_uniform_outcome, GivenBox, Rgb, Score,
    UniformFit, UniformResult,
};
use crate::number::Number;
use crate::outline::{detect_watermark_box, mark_strokes, strokes_box};
use crate::raster::Picture;
use crate::stats::Ranked;
use crate::watermark_profiles::{Corners, Edges, Profile};
use vstd::prelude::*;

verus! {

/// Whether a picture is usable.
#[derive(Clone, Copy)]
pub enum FrameVerdict {
    NoStrokes,
    /// Strokes take too little or too much of the box.
    OutOfRange { score: Score },
    /// The mark is not far enough above its background.
    Pale { score: Score },
    Eligible { score: Score },
}

/// Corners as a box that may be given.
pub open spec fn as_given(b: Option<Edges>) -> GivenBox {
    match b {
        Some(e) => Some((e.0 as i64, e.1 as i64, e.2 as i64, e.3 as i64)),
        None => None,
    }
}

/// The box that counts: the given one, else that of the strokes.
pub open spec fn frame_given(picture: &Picture, given: GivenBox) -> GivenBox {
    match given {
        Some(_) => given,
        None => as_given(
            strokes_box(mark_strokes(picture), picture.width as int, picture.height as int),
        ),
    }
}

pub open spec fn verdict_of(
    score: Option<Score>,
    min_coverage: Number,
    min_contrast: Number,
) -> FrameVerdict {
    match score {
        None => FrameVerdict::NoStrokes,
        Some(s) => if !(min_coverage.spec_le(s.coverage) && s.coverage.spec_le(
            Number::spec_ratio(7, 10),
        )) {
            FrameVerdict::OutOfRange { score: s }
        } else if s.contrast.spec_lt(min_contrast) {
            FrameVerdict::Pale { score: s }
        } else {
            FrameVerdict::Eligible { score: s }
        },
    }
}

/// The verdict is the one on a picture.
pub open spec fn is_judged(
    picture: &Picture,
    given: GivenBox,
    color: Rgb,
    min_coverage: Number,
    min_contrast: Number,
    verdict: FrameVerdict,
) -> bool {
    exists|score: Option<Score>|
        {
            &&& #[trigger] is_scored(picture, frame_given(picture, given), color, score)
            &&& verdict == verdict_of(score, min_coverage, min_contrast)
        }
}

/// Tells whether a picture is usable.
pub fn judge_frame(
    picture: &Picture,
    given: GivenBox,
    color: Rgb,
    min_coverage: Number,
    min_contrast: Number,
) -> (r: FrameVerdict)
    requires
        picture.wf(),
    ensures
        is_judged(picture, given, color, min_coverage, min_contrast, r),
        r matches FrameVerdict::Eligible { score } ==> score.frame.0 <= score.frame.2
            <= picture.width && score.frame.1 <= score.frame.3 <= picture.height,
{
    let frame: GivenBox = match given {
        Some(_) => given,
        None => match detect_watermark_box(picture) {
            Some(b) => Some((b.0 as i64, b.1 as i64, b.2 as i64, b.3 as i64)),
            None => None,
        },
    };
    let score = background_score(picture, frame, color);
    proof {
        assert(is_scored(picture, frame_given(picture, given), color, score));
    }
    match score {
        None => FrameVerdict::NoStrokes,
        Some(s) => if !(min_coverage.at_most(s.coverage) && s.coverage.at_most(
            Number::decimal(7, 10),
        )) {
            FrameVerdict::OutOfRange { score: s }
        } else if s.contrast.less(min_contrast) {
            FrameVerdict::Pale { score: s }
        } else {
            FrameVerdict::Eligible { score: s }
        },
    }
}

/// Entry `a` comes before entry `b`: by value, then by position.
pub open spec fn comes_before(u: Seq<Number>, a: int, b: int) -> bool {
    u[a].ranks(u[b]) && (u[b].ranks(u[a]) ==> a < b)
}

/// The first `n` positions in ascending order of their values, equals in their
/// own order.
pub open spec fn is_stable_order(u: Seq<Number>, r: Seq<usize>, n: int) -> bool {
    &&& r.len() == n
    &&& forall|i: int| 0 <= i < n ==> #[trigger] r[i] < n
    &&& forall|i: int, j: int|
        #![trigger r[i], r[j]]
        0 <= i < j < n ==> comes_before(u, r[i] as int, r[j] as int)
}

proof fn lemma_inserted(u: Seq<Number>, r: Seq<usize>, n: int, p: int)
    requires
        is_stable_order(u, r, n),
        0 <= p <= n < u.len(),
        n <= usize::MAX,
        p > 0 ==> u[r[p - 1] as int].ranks(u[n]),
        forall|k: int| p <= k < n ==> !u[#[trigger] r[k] as int].ranks(u[n]),
    ensures
        is_stable_order(u, r.insert(p, n as usize), n + 1),
{
    Number::lemma_ranks();
    let s = r.insert(p, n as usize);
    assert forall|i: int, j: int|
        #![trigger s[i], s[j]]
        0 <= i < j < n + 1 implies comes_before(u, s[i] as int, s[j] as int) by {
        if i < p && j == p {
            if i < p - 1 {
                assert(comes_before(u, r[i] as int, r[p - 1] as int));
            }
        } else if i == p {
            assert(s[j] == r[j - 1]);
            assert(!u[r[j - 1] as int].ranks(u[n]));
            assert(u[r[j - 1] as int].ranks(u[n]) || u[n].ranks(u[r[j - 1] as int]));
        } else {
            let a = if i < p {
                i
            } else {
                i - 1
            };
            let b = if j < p {
                j
            } else {
                j - 1
            };
            assert(comes_before(u, r[a] as int, r[b] as int));
        }
    }
}

/// The positions of some numbers in ascending order, equals in their own order.
pub fn ascending_positions(u: &[Number]) -> (r: Vec<usize>)
    ensures
        is_stable_order(u@, r@, u@.len() as int),
{
    let n: usize = u.len();
    let mut out: Vec<usize> = Vec::new();
    let mut i: usize = 0;
    while i < n
        invariant
            n == u@.len(),
            i <= n,
            is_stable_order(u@, out@, i as int),
        decreases n - i,
    {
        let mut p: usize = i;
        while p > 0 && !u[out[p - 1]].is_at_most(&u[i])
            invariant
                n == u@.len(),
                i < n,
                is_stable_order(u@, out@, i as int),
                p <= i,
                forall|k: int| p <= k < i ==> !u@[#[trigger] out@[k] as int].ranks(u@[i as int]),
            decreases p,
        {
            p = p - 1;
        }
        proof {
            lemma_inserted(u@, out@, i as int, p as int);
        }
        out.insert(p, i);
        i = i + 1;
    }
    out
}

/// A width and a height.
pub type Size = (u32, u32);

/// How many of the first `n` sizes are `s`.
pub open spec fn size_count(sizes: Seq<Size>, s: Size, n: int) -> int
    decreases n,
{
    if n <= 0 {
        0
    } else {
        size_count(sizes, s, n - 1) + if sizes[n - 1] == s {
            1int
        } else {
            0
        }
    }
}

/// The positions among the first `n` at which size `s` stands.
pub open spec fn size_positions(sizes: Seq<Size>, s: Size, n: int) -> Seq<usize>
    decreases n,
{
    if n <= 0 {
        seq![]
    } else if sizes[n - 1] == s {
        size_positions(sizes, s, n - 1).push((n - 1) as usize)
    } else {
        size_positions(sizes, s, n - 1)
    }
}

/// Size `a` is more frequent than `b`, or as frequent and not smaller, by
/// width first.
pub open spec fn prevails(sizes: Seq<Size>, a: Size, b: Size) -> bool {
    let (m, n) = (
        size_count(sizes, a, sizes.len() as int),
        size_count(sizes, b, sizes.len() as int),
    );
    m > n || (m == n && (a.0 > b.0 || (a.0 == b.0 && a.1 >= b.1)))
}

/// The positions of the size that prevails over all.
pub open spec fn is_largest_group(sizes: Seq<Size>, r: Seq<usize>) -> bool {
    if sizes.len() == 0 {
        r.len() == 0
    } else {
        exists|s: Size|
            {
                &&& r == #[trigger] size_positions(sizes, s, sizes.len() as int)
                &&& forall|k: int| 0 <= k < sizes.len() ==> prevails(sizes, s, #[trigger] sizes[k])
            }
    }
}

fn count_size(sizes: &[Size], s: Size) -> (r: usize)
    ensures
        r == size_count(sizes@, s, sizes@.len() as int),
{
    let n: usize = sizes.len();
    let mut count: usize = 0;
    let mut i: usize = 0;
    while i < n
        invariant
            n == sizes@.len(),
            i <= n,
            count <= i,
            count == size_count(sizes@, s, i as int),
        decreases n - i,
    {
        if sizes[i].0 == s.0 && sizes[i].1 == s.1 {
            count = count + 1;
        }
        i = i + 1;
    }
    count
}

/// The positions of the most frequent size; of equally frequent ones that of
/// the largest.
pub fn largest_group(sizes: &[Size]) -> (r: Vec<usize>)
    ensures
        is_largest_group(sizes@, r@),
        forall|k: int| 0 <= k < r@.len() ==> #[trigger] r@[k] < sizes@.len(),
        forall|j: int, k: int|
            #![trigger r@[j], r@[k]]
            0 <= j < r@.len() && 0 <= k < r@.len() ==> sizes@[r@[j] as int] == sizes@[r@[k] as int],
{
    let n: usize = sizes.len();
    let mut out: Vec<usize> = Vec::new();
    if n == 0 {
        return out;
    }
    let mut best: Size = sizes[0];
    let mut most: usize = count_size(sizes, best);
    let mut i: usize = 1;
    while i < n
        invariant
            n == sizes@.len(),
            1 <= i <= n,
            most == size_count(sizes@, best, n as int),
            forall|k: int| 0 <= k < i ==> prevails(sizes@, best, #[trigger] sizes@[k]),
        decreases n - i,
    {
        let s: Size = sizes[i];
        let count: usize = count_size(sizes, s);
        if count > most || (count == most && (s.0 > best.0 || (s.0 == best.0 && s.1 > best.1))) {
            best = s;
            most = count;
        }
        i = i + 1;
    }
    i = 0;
    while i < n
        invariant
            n == sizes@.len(),
            i <= n,
            out@ == size_positions(sizes@, best, i as int),
            forall|k: int|
                0 <= k < out@.len() ==> #[trigger] out@[k] < i && sizes@[out@[k] as int] == best,
        decreases n - i,
    {
        if sizes[i].0 == best.0 && sizes[i].1 == best.1 {
            out.push(i);
        }
        i = i + 1;
    }
    out
}

/// A usable picture, its box, and how even its background is.
pub struct Candidate {
    pub picture: Picture,
    pub name: String,
    pub frame: Corners,
    pub uniformity: Number,
}

impl Candidate {
    pub open spec fn wf(&self) -> bool {
        &&& self.picture.wf()
        &&& self.frame.0 <= self.frame.2 <= self.picture.width
        &&& self.frame.1 <= self.frame.3 <= self.picture.height
    }

    pub open spec fn given(&self) -> GivenBox {
        Some(
            (
                self.frame.0 as i64,
                self.frame.1 as i64,
                self.frame.2 as i64,
                self.frame.3 as i64,
            ),
        )
    }

    fn given_box(&self) -> (r: GivenBox)
        requires
            self.wf(),
        ensures
            r == self.given(),
    {
        Some(
            (
                self.frame.0 as i64,
                self.frame.1 as i64,
                self.frame.2 as i64,
                self.frame.3 as i64,
            ),
        )
    }
}

/// What is asked of a mark.
#[derive(Clone, Copy)]
pub struct Demands {
    pub color: Rgb,
    pub ref_short_side: Option<Number>,
    pub least: usize,
    pub max_resid: Number,
    pub detail_least: Number,
    pub core: Number,
}

/// What comes of one usable picture.
pub open spec fn is_tried(c: Candidate, d: Demands, label: Seq<char>, r: UniformResult) -> bool {
    is_uniform_outcome(
        &c.picture,
        c.given(),
        d.color,
        d.ref_short_side,
        label,
        d.least as int,
        None,
        d.max_resid,
        c.name@,
        r,
    )
}

/// Nothing is learned from this picture.
pub open spec fn gives_nothing(c: Candidate, d: Demands, label: Seq<char>) -> bool {
    exists|r: UniformResult| #[trigger] is_tried(c, d, label, r) && !(r is Learned)
}

/// A mark learned from one picture.
pub struct UniformMark {
    pub fit: UniformFit,
    pub profile: Profile,
    pub stroke_box: Corners,
}

/// A mark learned from a batch.
pub struct BatchMark {
    pub fit: BatchFit,
    pub profile: Profile,
    pub stroke_box: Corners,
}

/// The pictures are tried in order until one gives a mark.
pub open spec fn is_first_mark(
    candidates: Seq<Candidate>,
    order: Seq<usize>,
    d: Demands,
    label: Seq<char>,
    r: Option<UniformMark>,
) -> bool {
    match r {
        None => forall|k: int|
            0 <= k < order.len() ==> gives_nothing(
                candidates[#[trigger] order[k] as int],
                d,
                label,
            ),
        Some(m) => exists|k: int|
            {
                &&& 0 <= k < order.len()
                &&& is_tried(
                    candidates[#[trigger] order[k] as int],
                    d,
                    label,
                    UniformResult::Learned {
                        fit: m.fit,
                        profile: m.profile,
                        stroke_box: m.stroke_box,
                    },
                )
                &&& forall|j: int|
                    0 <= j < k ==> gives_nothing(
                        candidates[#[trigger] order[j] as int],
                        d,
                        label,
                    )
            },
    }
}

fn first_mark(candidates: &[Candidate], order: &[usize], d: Demands, label: &str) -> (r: Option<
    UniformMark,
>)
    requires
        forall|k: int| 0 <= k < candidates@.len() ==> (#[trigger] candidates@[k]).wf(),
        forall|k: int| 0 <= k < order@.len() ==> #[trigger] order@[k] < candidates@.len(),
    ensures
        is_first_mark(candidates@, order@, d, label@, r),
{
    let n: usize = order.len();
    let mut k: usize = 0;
    while k < n
        invariant
            n == order@.len(),
            forall|k: int| 0 <= k < candidates@.len() ==> (#[trigger] candidates@[k]).wf(),
            forall|k: int| 0 <= k < order@.len() ==> #[trigger] order@[k] < candidates@.len(),
            k <= n,
            forall|j: int|
                0 <= j < k ==> gives_nothing(candidates@[#[trigger] order@[j] as int], d, label@),
        decreases n - k,
    {
        let c = &candidates[order[k]];
        let tried = build_from_uniform(
            &c.picture,
            c.given_box(),
            d.color,
            d.ref_short_side,
            label,
            d.least,
            None,
            d.max_resid,
            c.name.as_str(),
        );
        proof {
            assert(is_tried(*c, d, label@, tried));
        }
        match tried {
            UniformResult::Learned { fit, profile, stroke_box } => {
                return Some(UniformMark { fit, profile, stroke_box });
            },
            _ => {},
        }
        k = k + 1;
    }
    None
}

/// The size of each picture.
pub open spec fn sizes_of(candidates: Seq<Candidate>, order: Seq<usize>) -> Seq<Size> {
    Seq::new(
        order.len(),
        |k: int|
            (
                candidates[order[k] as int].picture.width,
                candidates[order[k] as int].picture.height,
            ),
    )
}

pub open spec fn uniformities(candidates: Seq<Candidate>) -> Seq<Number> {
    Seq::new(candidates.len(), |k: int| candidates[k].uniformity)
}

/// The pictures are copies of those of the group.
pub open spec fn are_copies(
    candidates: Seq<Candidate>,
    order: Seq<usize>,
    group: Seq<usize>,
    copies: Seq<Picture>,
) -> bool {
    &&& copies.len() == group.len()
    &&& forall|k: int|
        0 <= k < group.len() ==> {
            let p = candidates[order[group[k] as int] as int].picture;
            &&& (#[trigger] copies[k]).width == p.width
            &&& copies[k].height == p.height
            &&& copies[k].data@ == p.data@
        }
}

/// What comes of the largest group of pictures of one size, if it holds at
/// least three.
pub open spec fn is_batch_mark(
    candidates: Seq<Candidate>,
    order: Seq<usize>,
    d: Demands,
    label: Seq<char>,
    r: Option<BatchMark>,
) -> bool {
    exists|group: Seq<usize>, copies: Seq<Picture>|
        {
            &&& is_largest_group(sizes_of(candidates, order), group)
            &&& #[trigger] are_copies(candidates, order, group, copies)
            &&& if group.len() < 3 {
                r is None
            } else {
                exists|out: BatchResult|
                    {
                        &&& #[trigger] is_batch_outcome(
                            copies,
                            candidates[order[group[0] as int] as int].given(),
                            d.ref_short_side,
                            label,
                            d.least as int,
                            d.max_resid,
                            d.detail_least,
                            d.core,
                            out,
                        )
                        &&& match out {
                            BatchResult::Learned { fit, profile, stroke_box } => r == Some(
                                BatchMark { fit, profile, stroke_box },
                            ),
                            _ => r is None,
                        }
                    }
            }
        }
}

fn copy_picture(p: &Picture) -> (r: Picture)
    ensures
        r.width == p.width,
        r.height == p.height,
        r.data@ == p.data@,
{
    let data = p.data.clone();
    proof {
        assert(data@ =~= p.data@);
    }
    Picture { width: p.width, height: p.height, data }
}

fn batch_mark(candidates: &[Candidate], order: &[usize], d: Demands, label: &str) -> (r: Option<
    BatchMark,
>)
    requires
        forall|k: int| 0 <= k < candidates@.len() ==> (#[trigger] candidates@[k]).wf(),
        forall|k: int| 0 <= k < order@.len() ==> #[trigger] order@[k] < candidates@.len(),
        candidates@.len() <= i64::MAX,
        order@.len() <= i64::MAX,
    ensures
        is_batch_mark(candidates@, order@, d, label@, r),
{
    let n: usize = order.len();
    let mut sizes: Vec<Size> = Vec::new();
    let mut k: usize = 0;
    while k < n
        invariant
            n == order@.len(),
            forall|k: int| 0 <= k < order@.len() ==> #[trigger] order@[k] < candidates@.len(),
            k <= n,
            sizes@ == sizes_of(candidates@, order@).take(k as int),
        decreases n - k,
    {
        let p = &candidates[order[k]].picture;
        sizes.push((p.width, p.height));
        k = k + 1;
        proof {
            assert(sizes@ =~= sizes_of(candidates@, order@).take(k as int));
        }
    }
    proof {
        assert(sizes@ =~= sizes_of(candidates@, order@));
    }
    let group = largest_group(sizes.as_slice());
    let m: usize = group.len();
    let mut copies: Vec<Picture> = Vec::new();
    k = 0;
    while k < m
        invariant
            m == group@.len(),
            n == order@.len(),
            sizes@.len() == n,
            forall|k: int| 0 <= k < group@.len() ==> #[trigger] group@[k] < n,
            forall|k: int| 0 <= k < order@.len() ==> #[trigger] order@[k] < candidates@.len(),
            forall|k: int| 0 <= k < candidates@.len() ==> (#[trigger] candidates@[k]).wf(),
            k <= m,
            copies@.len() == k,
            forall|j: int|
                0 <= j < k ==> {
                    let p = candidates@[order@[group@[j] as int] as int].picture;
                    &&& (#[trigger] copies@[j]).width == p.width
                    &&& copies@[j].height == p.height
                    &&& copies@[j].data@ == p.data@
                    &&& copies@[j].wf()
                },
        decreases m - k,
    {
        let c = &candidates[order[group[k]]];
        proof {
            assert(candidates@[order@[group@[k as int] as int] as int].wf());
        }
        copies.push(copy_picture(&c.picture));
        k = k + 1;
    }
    proof {
        assert(are_copies(candidates@, order@, group@, copies@));
    }
    if m < 3 {
        return None;
    }
    proof {
        lemma_group_small(sizes@, group@);
    }
    let first = candidates[order[group[0]]].given_box();
    let out = learn_from_batch(
        copies.as_slice(),
        first,
        d.ref_short_side,
        label,
        d.least,
        d.max_resid,
        d.detail_least,
        d.core,
    );
    match out {
        BatchResult::Learned { fit, profile, stroke_box } => Some(
            BatchMark { fit, profile, stroke_box },
        ),
        _ => None,
    }
}

proof fn lemma_positions_small(sizes: Seq<Size>, s: Size, n: int)
    requires
        n >= 0,
    ensures
        size_positions(sizes, s, n).len() <= n,
    decreases n,
{
    if n > 0 {
        lemma_positions_small(sizes, s, n - 1);
    }
}

proof fn lemma_group_small(sizes: Seq<Size>, r: Seq<usize>)
    requires
        is_largest_group(sizes, r),
    ensures
        r.len() <= sizes.len(),
{
    if sizes.len() > 0 {
        let s = choose|s: Size|
            {
                &&& r == #[trigger] size_positions(sizes, s, sizes.len() as int)
                &&& forall|k: int| 0 <= k < sizes.len() ==> prevails(sizes, s, #[trigger] sizes[k])
            };
        lemma_positions_small(sizes, s, sizes.len() as int);
    }
}

/// Which mark is taken.
#[derive(Clone, Copy, Debug, PartialEq, Eq, Structural)]
pub enum Choice {
    NoFrame,
    NoMark,
    Uniform,
    Batch,
}

/// What was learned from the usable pictures.
pub struct Discovery {
    pub uniform: Option<UniformMark>,
    pub batch: Option<BatchMark>,
    pub choice: Choice,
}

/// The mark of the batch is taken if there is no other or it misses less.
pub open spec fn choice_of(
    usable: int,
    uniform: Option<UniformMark>,
    batch: Option<BatchMark>,
) -> Choice {
    if usable == 0 {
        Choice::NoFrame
    } else {
        match (uniform, batch) {
            (None, None) => Choice::NoMark,
            (Some(_), None) => Choice::Uniform,
            (None, Some(_)) => Choice::Batch,
            (Some(u), Some(b)) => if b.fit.residual.spec_lt(u.fit.residual) {
                Choice::Batch
            } else {
                Choice::Uniform
            },
        }
    }
}

/// Learns a mark from the usable pictures: from the one with the most even
/// background that gives one, or from the largest group of one size if that
/// explains its pictures better.
pub fn auto_discover(candidates: &[Candidate], d: Demands, label: &str) -> (r: Discovery)
    requires
        forall|k: int| 0 <= k < candidates@.len() ==> (#[trigger] candidates@[k]).wf(),
        candidates@.len() <= i64::MAX,
    ensures
        r.choice == choice_of(candidates@.len() as int, r.uniform, r.batch),
        exists|order: Seq<usize>|
            {
                &&& #[trigger] is_stable_order(
                    uniformities(candidates@),
                    order,
                    candidates@.len() as int,
                )
                &&& is_first_mark(candidates@, order, d, label@, r.uniform)
                &&& is_batch_mark(candidates@, order, d, label@, r.batch)
            },
{
    let n: usize = candidates.len();
    let mut values: Vec<Number> = Vec::new();
    let mut k: usize = 0;
    while k < n
        invariant
            n == candidates@.len(),
            k <= n,
            values@ == uniformities(candidates@).take(k as int),
        decreases n - k,
    {
        values.push(candidates[k].uniformity);
        k = k + 1;
        proof {
            assert(values@ =~= uniformities(candidates@).take(k as int));
        }
    }
    proof {
        assert(values@ =~= uniformities(candidates@));
    }
    let order = ascending_positions(values.as_slice());
    let uniform = first_mark(candidates, order.as_slice(), d, label);
    let batch = batch_mark(candidates, order.as_slice(), d, label);
    let choice = if n == 0 {
        Choice::NoFrame
    } else {
        match (&uniform, &batch) {
            (None, None) => Choice::NoMark,
            (Some(_), None) => Choice::Uniform,
            (None, Some(_)) => Choice::Batch,
            (Some(u), Some(b)) => if b.fit.residual.less(u.fit.residual) {
                Choice::Batch
            } else {
                Choice::Uniform
            },
        }
    };
    proof {
        assert(is_stable_order(uniformities(candidates@), order@, candidates@.len() as int));
    }
    Discovery { uniform, batch, choice }
}

/// The usable ones of the first `n` pictures, in their order.
pub open spec fn usable_frames(
    frames: Seq<(String, Picture)>,
    verdicts: Seq<FrameVerdict>,
    n: int,
) -> Seq<Candidate>
    decreases n,
{
    if n <= 0 {
        seq![]
    } else {
        let before = usable_frames(frames, verdicts, n - 1);
        match verdicts[n - 1] {
            FrameVerdict::Eligible { score } => before.push(
                Candidate {
                    picture: frames[n - 1].1,
                    name: frames[n - 1].0,
                    frame: score.frame,
                    uniformity: score.uniformity,
                },
            ),
            _ => before,
        }
    }
}

/// Judges named pictures, and keeps the usable ones in their order.
pub fn gather_frames(
    frames: Vec<(String, Picture)>,
    given: GivenBox,
    color: Rgb,
    min_coverage: Number,
    min_contrast: Number,
) -> (r: (Vec<FrameVerdict>, Vec<Candidate>))
    requires
        forall|i: int| 0 <= i < frames@.len() ==> (#[trigger] frames@[i]).1.wf(),
    ensures
        r.0@.len() == frames@.len(),
        forall|i: int|
            0 <= i < frames@.len() ==> is_judged(
                &frames@[i].1,
                given,
                color,
                min_coverage,
                min_contrast,
                #[trigger] r.0@[i],
            ),
        r.1@ == usable_frames(frames@, r.0@, frames@.len() as int),
        forall|k: int| 0 <= k < r.1@.len() ==> (#[trigger] r.1@[k]).wf(),
{
    let ghost all = frames@;
    let mut rest = frames;
    let mut verdicts: Vec<FrameVerdict> = Vec::new();
    let mut kept: Vec<Candidate> = Vec::new();
    proof {
        assert(all.skip(0) =~= all);
    }
    while rest.len() > 0
        invariant
            verdicts@.len() + rest@.len() == all.len(),
            rest@ == all.skip(verdicts@.len() as int),
            forall|i: int| 0 <= i < all.len() ==> (#[trigger] all[i]).1.wf(),
            forall|i: int|
                0 <= i < verdicts@.len() ==> is_judged(
                    &all[i].1,
                    given,
                    color,
                    min_coverage,
                    min_contrast,
                    #[trigger] verdicts@[i],
                ),
            kept@ == usable_frames(all, verdicts@, verdicts@.len() as int),
            forall|k: int| 0 <= k < kept@.len() ==> (#[trigger] kept@[k]).wf(),
        decreases rest@.len(),
    {
        let ghost n = verdicts@.len() as int;
        let ghost before = verdicts@;
        proof {
            assert(rest@[0] == all[n]);
            assert(all.skip(n).remove(0) =~= all.skip(n + 1));
        }
        let (name, picture) = rest.remove(0);
        let verdict = judge_frame(&picture, given, color, min_coverage, min_contrast);
        verdicts.push(verdict);
        proof {
            lemma_usable_prefix(all, before, verdicts@, n);
        }
        if let FrameVerdict::Eligible { score } = verdict {
            kept.push(
                Candidate { picture, name, frame: score.frame, uniformity: score.uniformity },
            );
        }
    }
    (verdicts, kept)
}

proof fn lemma_usable_prefix(
    frames: Seq<(String, Picture)>,
    a: Seq<FrameVerdict>,
    b: Seq<FrameVerdict>,
    n: int,
)
    requires
        forall|i: int| 0 <= i < n ==> #[trigger] a[i] == b[i],
    ensures
        usable_frames(frames, a, n) == usable_frames(frames, b, n),
    decreases n,
{
    if n > 0 {
        lemma_usable_prefix(frames, a, b, n - 1);
        assert(a[n - 1] == b[n - 1]);
    }
}

} // verus!
