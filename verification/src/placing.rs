//! Finding where a profile's mark sits in a picture, and masking it there.

use crate::accuracy::{
    amount, lemma_int_amount, lemma_order_by_amount, lemma_product_close, lemma_round_by_amount,
    within,
};
use crate::boxes::{larger, smaller};
use crate::double::{
    lemma_below_is_not_above, lemma_not_above_transitive, lemma_not_below_itself, whole, Double,
};
use crate::grid::{dilate, dilated, lemma_cell, lemma_dilated_keeps};
use crate::morph::{difference, opened, rect_opening, rectangle, stand_out};
use crate::number::Number;
use crate::planes::{lightness, lightness_of};
use crate::raster::{lemma_measurable_sides, measurable, stamp, stamp_mask, Mask, Picture};
use crate::scaling::{resize_plane, scaled_plane};
use crate::template::{gap, gap_of, integral, rect_sum};
use crate::watermark_profiles::{Place, Profile};
use vstd::prelude::*;

verus! {

/// A length at a scale, to the nearest pixel.
pub open spec fn at_scale(n: int, scale: Number) -> int {
    larger(Number::spec_int(n).spec_times(scale).spec_round(), 0)
}

/// A length at a scale, at least one pixel.
pub open spec fn scaled_size(n: int, scale: Number) -> int {
    larger(at_scale(n, scale), 1)
}

/// A length at a scale, to the nearest pixel.
pub fn scale_length(n: usize, scale: Number) -> (r: u64)
    ensures
        r == at_scale(n as int, scale),
        r <= 0x7fff_ffff_ffff_ffff,
{
    let v: i64 = Number::from_count(n).times(scale).round();
    if v < 0 {
        0
    } else {
        v as u64
    }
}

/// The coverage and the colours of a profile at a scale, with their size.
pub fn scaled_layers(profile: &Profile, scale: Number) -> (r: (
    Vec<Number>,
    Vec<Number>,
    usize,
    usize,
))
    requires
        profile.wf(),
        scaled_size(profile.aw as int, scale) <= usize::MAX,
        scaled_size(profile.ah as int, scale) <= usize::MAX,
        3 * (scaled_size(profile.aw as int, scale) * scaled_size(profile.ah as int, scale))
            <= usize::MAX,
    ensures
        ({
            let (tw, th) = (
                scaled_size(profile.aw as int, scale),
                scaled_size(profile.ah as int, scale),
            );
            &&& r.0@ == scaled_plane(
                profile.alpha@,
                profile.aw as int,
                profile.ah as int,
                1,
                tw,
                th,
            )
            &&& r.1@ == scaled_plane(
                profile.color@,
                profile.aw as int,
                profile.ah as int,
                3,
                tw,
                th,
            )
            &&& r.2 == tw
            &&& r.3 == th
            &&& r.0@.len() == tw * th
            &&& r.1@.len() == 3 * (tw * th)
        }),
{
    let mut tw: u64 = scale_length(profile.aw, scale);
    if tw < 1 {
        tw = 1;
    }
    let mut th: u64 = scale_length(profile.ah, scale);
    if th < 1 {
        th = 1;
    }
    let (tw, th): (usize, usize) = (tw as usize, th as usize);
    proof {
        assert(tw * th >= 0) by (nonlinear_arith)
            requires
                tw >= 0,
                th >= 0,
        ;
    }
    let alpha = resize_plane(profile.alpha.as_slice(), profile.aw, profile.ah, 1, tw, th);
    let color = resize_plane(profile.color.as_slice(), profile.aw, profile.ah, 3, tw, th);
    (alpha, color, tw, th)
}

/// The scale at which a mark with its place stands in a picture.
pub open spec fn anchor_scale(profile: &Profile, place: Place, width: int, height: int) -> Number {
    let reference = match place.reference {
        Some(v) => v,
        None => profile.ref_short_side,
    };
    Number::spec_int(smaller(width, height)).spec_over(reference)
}

/// Where a mark of `size` pixels ends that keeps `gap` shorter sides from the
/// far edge: its first pixel.
pub open spec fn anchored(full: int, short: int, far: Number, size: int) -> int {
    Number::spec_int(full).spec_minus(far.spec_times(Number::spec_int(short))).spec_minus(
        Number::spec_int(size),
    ).spec_round()
}

/// Where the profile says its mark sits in a picture, and at which scale;
/// nothing if it does not say or the mark would leave the picture.
pub open spec fn anchor(profile: &Profile, width: int, height: int) -> Option<(int, int, Number)> {
    match profile.place {
        None => None,
        Some(place) => match (place.right, place.bottom) {
            (Some(right), Some(bottom)) => {
                let short = smaller(width, height);
                let scale = anchor_scale(profile, place, width, height);
                let aw = scaled_size(profile.aw as int, scale);
                let ah = scaled_size(profile.ah as int, scale);
                let px = anchored(width, short, right, aw);
                let py = anchored(height, short, bottom, ah);
                if px < 0 || py < 0 || px + aw > width || py + ah > height {
                    None
                } else {
                    Some((px, py, scale))
                }
            },
            _ => None,
        },
    }
}

fn place_edge(full: usize, short: Number, far: Number, size: u64) -> (r: i64)
    requires
        size <= 0x7fff_ffff_ffff_ffff,
    ensures
        forall|s: int|
            short == #[trigger] Number::spec_int(s) ==> r == anchored(full as int, s, far, size as int),
{
    Number::from_count(full).minus(far.times(short)).minus(Number::from_int(size as i64)).round()
}

/// Where the profile says its mark sits in a picture.
pub fn place_by_anchor(profile: &Profile, width: usize, height: usize) -> (r: Option<(
    usize,
    usize,
    Number,
)>)
    requires
        width <= 0x7fff_ffff_ffff_ffff,
        height <= 0x7fff_ffff_ffff_ffff,
    ensures
        match anchor(profile, width as int, height as int) {
            None => r is None,
            Some(a) => r matches Some(p) && p.0 == a.0 && p.1 == a.1 && p.2 == a.2,
        },
        r matches Some(p) ==> p.0 + scaled_size(profile.aw as int, p.2) <= width && p.1
            + scaled_size(profile.ah as int, p.2) <= height,
{
    let place = match profile.place {
        None => {
            return None;
        },
        Some(place) => place,
    };
    let (right, bottom) = match (place.right, place.bottom) {
        (Some(right), Some(bottom)) => (right, bottom),
        _ => {
            return None;
        },
    };
    let least: usize = if height < width {
        height
    } else {
        width
    };
    let short = Number::from_count(least);
    let reference = match place.reference {
        Some(v) => v,
        None => profile.ref_short_side,
    };
    let scale = short.over(reference);
    let mut aw: u64 = scale_length(profile.aw, scale);
    if aw < 1 {
        aw = 1;
    }
    let mut ah: u64 = scale_length(profile.ah, scale);
    if ah < 1 {
        ah = 1;
    }
    let px: i64 = place_edge(width, short, right, aw);
    let py: i64 = place_edge(height, short, bottom, ah);
    proof {
        assert(short == Number::spec_int(smaller(width as int, height as int)));
    }
    if px < 0 || py < 0 || px as u64 + aw > width as u64 || py as u64 + ah > height as u64 {
        return None;
    }
    Some((px as usize, py as usize, scale))
}

/// The cells of a plane that are covered: more than 8 of 255.
pub open spec fn covered(alpha: Seq<Number>) -> Seq<bool> {
    Seq::new(
        alpha.len(),
        |i: int|
            Number::spec_int(8).spec_lt(
                alpha[i].spec_times(Number::spec_int(255)).spec_short(),
            ),
    )
}

/// How far the mask of a profile is grown, across and along.
pub open spec fn growth(profile: &Profile) -> (int, int) {
    match profile.mask_dilate {
        Some(d) => (d.0 as int / 2, d.1 as int / 2),
        None => (1, 1),
    }
}

/// The mask of a mark placed at `(px, py)`: its covered cells, grown inside
/// its own box; nothing if the mark leaves the picture.
pub open spec fn placed_mask(
    profile: &Profile,
    px: int,
    py: int,
    width: int,
    height: int,
    scale: Number,
) -> Option<Seq<u8>> {
    let tw = scaled_size(profile.aw as int, scale);
    let th = scaled_size(profile.ah as int, scale);
    if py + th > height || px + tw > width {
        None
    } else {
        let alpha = scaled_plane(profile.alpha@, profile.aw as int, profile.ah as int, 1, tw, th);
        let (rx, ry) = growth(profile);
        Some(stamp_mask(dilated(covered(alpha), tw, th, rx, ry), tw, th, px, py, width, height))
    }
}

fn cover_cells(alpha: &[Number]) -> (r: Vec<bool>)
    ensures
        r@ == covered(alpha@),
{
    let n: usize = alpha.len();
    let mut out: Vec<bool> = Vec::new();
    let mut i: usize = 0;
    while i < n
        invariant
            n == alpha@.len(),
            i <= n,
            out@ == covered(alpha@).take(i as int),
        decreases n - i,
    {
        out.push(Number::from_int(8).less(alpha[i].times(Number::from_int(255)).short()));
        i = i + 1;
        proof {
            assert(out@ =~= covered(alpha@).take(i as int));
        }
    }
    proof {
        assert(out@ =~= covered(alpha@));
    }
    out
}

/// The mask of a profile's mark at a place and a scale.
pub fn mask_for(
    profile: &Profile,
    px: usize,
    py: usize,
    width: u32,
    height: u32,
    scale: Number,
) -> (r: Option<Mask>)
    requires
        profile.wf(),
        measurable(width as int, height as int),
        width * height <= usize::MAX,
    ensures
        match placed_mask(profile, px as int, py as int, width as int, height as int, scale) {
            None => r is None,
            Some(data) => r matches Some(m) && m.wf() && m.width == width && m.height == height
                && m.data@ == data,
        },
{
    let mut tw: u64 = scale_length(profile.aw, scale);
    if tw < 1 {
        tw = 1;
    }
    let mut th: u64 = scale_length(profile.ah, scale);
    if th < 1 {
        th = 1;
    }
    if px as u64 > width as u64 || tw > width as u64 - px as u64 || py as u64 > height as u64 || th
        > height as u64 - py as u64 {
        return None;
    }
    let (tw, th): (usize, usize) = (tw as usize, th as usize);
    proof {
        assert(0 <= tw * th && tw * th <= width * height) by (nonlinear_arith)
            requires
                0 <= tw <= width,
                0 <= th <= height,
        ;
        assert((tw * th) * 1 == tw * th);
    }
    let alpha = resize_plane(profile.alpha.as_slice(), profile.aw, profile.ah, 1, tw, th);
    let cells = cover_cells(alpha.as_slice());
    let (rx, ry): (usize, usize) = match profile.mask_dilate {
        Some(d) => (d.0 / 2, d.1 / 2),
        None => (1, 1),
    };
    let grown = dilate(cells.as_slice(), tw, th, rx, ry);
    Some(stamp(grown.as_slice(), tw, th, px, py, width, height))
}

/// A place that was found: its first pixel, how clearly it stands out, and the
/// scale of the mark.
#[derive(Clone, Copy)]
pub struct GapHit {
    pub px: usize,
    pub py: usize,
    pub score: Double,
    pub scale: Number,
}

/// How far the opening reaches in a picture with this shorter side.
pub open spec fn opening_reach(short: int) -> int {
    let odd = if short % 2 == 0 {
        short + 1
    } else {
        short
    };
    larger(smaller(odd, 31), 3) / 2
}

/// What stands out from its surroundings, for a mark to be found in.
pub open spec fn mark_hat(picture: &Picture) -> Seq<u8> {
    let (w, h) = (picture.width as int, picture.height as int);
    let r = opening_reach(smaller(w, h));
    stand_out(lightness(picture), opened(lightness(picture), w, h, rectangle(r, r)))
}

/// The coverage that makes a cell a stroke of the mark.
pub open spec fn stroke_coverage() -> Number {
    Number::spec_ratio(15, 100).spec_short()
}

/// The first `n` cells' strokes.
pub open spec fn mark_points(t: Seq<Number>, n: int) -> Seq<usize>
    decreases n,
{
    if n <= 0 {
        seq![]
    } else if stroke_coverage().spec_lt(t[n - 1]) {
        mark_points(t, n - 1).push((n - 1) as usize)
    } else {
        mark_points(t, n - 1)
    }
}

/// The places that are tried for one coordinate: 40 pixels either way of the
/// expected one, as far as the mark fits.
pub open spec fn tried(expected: int, room: int) -> (int, int) {
    (larger(expected - 40, 0), smaller(expected + 40, room))
}

/// Where a mark of `tw` x `th` is expected.
pub open spec fn expected_at(profile: &Profile, w: int, h: int, tw: int, th: int) -> (int, int) {
    match anchor(profile, w, h) {
        Some(a) => (a.0, a.1),
        None => (w - tw, h - th),
    }
}

/// The best place after `n` tries, row by row; the first of equals stays.
pub open spec fn best_gap(
    best: Option<GapHit>,
    hat: Seq<u8>,
    w: int,
    size: (int, int),
    pts: Seq<usize>,
    first: (int, int),
    across: int,
    scale: Number,
    n: int,
) -> Option<GapHit>
    decreases n,
{
    if n <= 0 {
        best
    } else {
        let before = best_gap(best, hat, w, size, pts, first, across, scale, n - 1);
        let (px, py) = (first.0 + (n - 1) % across, first.1 + (n - 1) / across);
        let score = gap(hat, w, size.0, size.1, pts, px, py);
        if before is None || before.unwrap().score.spec_lt(score) {
            Some(GapHit { px: px as usize, py: py as usize, score, scale })
        } else {
            before
        }
    }
}

/// The best place after a scale was tried too. A scale at which the mark is
/// too small, does not fit, or has too few strokes or no gaps is passed over.
pub open spec fn gap_at_scale(
    best: Option<GapHit>,
    picture: &Picture,
    profile: &Profile,
    scale: Number,
) -> Option<GapHit> {
    let (w, h) = (picture.width as int, picture.height as int);
    let (tw, th) = (at_scale(profile.aw as int, scale), at_scale(profile.ah as int, scale));
    let t = scaled_plane(profile.alpha@, profile.aw as int, profile.ah as int, 1, tw, th);
    let pts = mark_points(t, tw * th);
    let expected = expected_at(profile, w, h, tw, th);
    let (x1, x2) = tried(expected.0, w - tw);
    let (y1, y2) = tried(expected.1, h - th);
    if tw < 4 || th < 4 || tw >= w || th >= h {
        best
    } else if pts.len() < 8 || pts.len() >= tw * th || x2 < x1 || y2 < y1 {
        best
    } else {
        best_gap(
            best,
            mark_hat(picture),
            w,
            (tw, th),
            pts,
            (x1, y1),
            x2 - x1 + 1,
            scale,
            (x2 - x1 + 1) * (y2 - y1 + 1),
        )
    }
}

/// The place at which a profile's mark stands out most, at its own scale or 5
/// percent off.
pub open spec fn gap_hit(picture: &Picture, profile: &Profile) -> Option<GapHit> {
    let short = smaller(picture.width as int, picture.height as int);
    let base = Number::spec_int(short).spec_over(profile.ref_short_side);
    gap_at_scale(
        gap_at_scale(
            gap_at_scale(None, picture, profile, base.spec_times(Number::spec_ratio(95, 100))),
            picture,
            profile,
            base,
        ),
        picture,
        profile,
        base.spec_times(Number::spec_ratio(105, 100)),
    )
}

fn points_at(t: &[Number]) -> (r: Vec<usize>)
    ensures
        r@ == mark_points(t@, t@.len() as int),
        r@.len() <= t@.len(),
        forall|k: int| 0 <= k < r@.len() ==> #[trigger] r@[k] < t@.len(),
{
    let n: usize = t.len();
    let level = Number::decimal(15, 100).short();
    let mut out: Vec<usize> = Vec::new();
    let mut i: usize = 0;
    while i < n
        invariant
            n == t@.len(),
            level == stroke_coverage(),
            i <= n,
            out@ == mark_points(t@, i as int),
            out@.len() <= i,
            forall|k: int| 0 <= k < out@.len() ==> #[trigger] out@[k] < i,
        decreases n - i,
    {
        if level.less(t[i]) {
            out.push(i);
        }
        i = i + 1;
    }
    out
}

/// What all scales share: the top hat, its sums from the corner, and the size.
struct Field {
    hat: Vec<u8>,
    sums: Vec<u64>,
    w: usize,
    h: usize,
}

impl Field {
    spec fn wf(&self) -> bool {
        &&& self.hat@.len() == self.w * self.h
        &&& measurable(self.w as int, self.h as int)
        &&& self.w <= 0x2000_0000
        &&& self.h <= 0x2000_0000
        &&& self.sums@.len() == (self.w + 1) * (self.h + 1)
        &&& forall|x: int, y: int|
            0 <= x <= self.w && 0 <= y <= self.h ==> #[trigger] self.sums@[y * (self.w + 1) + x]
                == rect_sum(self.hat@, self.w as int, 0, 0, x, y)
    }
}

spec fn sound(best: Option<GapHit>) -> bool {
    best matches Some(b) ==> b.score.wf()
}

/// Tries the places of one scale.
fn scan(
    field: &Field,
    best: Option<GapHit>,
    size: (usize, usize),
    pts: &[usize],
    first: (usize, usize),
    last: (usize, usize),
    scale: Number,
) -> (r: Option<GapHit>)
    requires
        field.wf(),
        sound(best),
        0 < size.0 < field.w,
        0 < size.1 < field.h,
        0 < pts@.len() < size.0 * size.1,
        forall|k: int| 0 <= k < pts@.len() ==> #[trigger] pts@[k] < size.0 * size.1,
        first.0 <= last.0 <= field.w - size.0,
        first.1 <= last.1 <= field.h - size.1,
        last.0 - first.0 <= 80,
        last.1 - first.1 <= 80,
    ensures
        r == best_gap(
            best,
            field.hat@,
            field.w as int,
            (size.0 as int, size.1 as int),
            pts@,
            (first.0 as int, first.1 as int),
            last.0 - first.0 + 1,
            scale,
            (last.0 - first.0 + 1) * (last.1 - first.1 + 1),
        ),
        sound(r),
{
    let across: usize = last.0 - first.0 + 1;
    let down: usize = last.1 - first.1 + 1;
    proof {
        assert(0 <= across * down <= 81 * 81) by (nonlinear_arith)
            requires
                0 <= across <= 81,
                0 <= down <= 81,
        ;
    }
    let n: usize = across * down;
    let mut out = best;
    let mut k: usize = 0;
    while k < n
        invariant
            field.wf(),
            sound(out),
            0 < size.0 < field.w,
            0 < size.1 < field.h,
            0 < pts@.len() < size.0 * size.1,
            forall|k: int| 0 <= k < pts@.len() ==> #[trigger] pts@[k] < size.0 * size.1,
            first.0 <= last.0 <= field.w - size.0,
            first.1 <= last.1 <= field.h - size.1,
            across == last.0 - first.0 + 1,
            down == last.1 - first.1 + 1,
            n == across * down,
            k <= n,
            out == best_gap(
                best,
                field.hat@,
                field.w as int,
                (size.0 as int, size.1 as int),
                pts@,
                (first.0 as int, first.1 as int),
                across as int,
                scale,
                k as int,
            ),
        decreases n - k,
    {
        proof {
            crate::grid::lemma_position(across as int, down as int, k as int);
        }
        let px: usize = first.0 + k % across;
        let py: usize = first.1 + k / across;
        let score = gap_of(
            field.hat.as_slice(),
            field.sums.as_slice(),
            field.w,
            field.h,
            size.0,
            size.1,
            pts,
            px,
            py,
        );
        let better: bool = match out {
            None => true,
            Some(b) => b.score.less(score),
        };
        if better {
            out = Some(GapHit { px, py, score, scale });
        }
        k = k + 1;
    }
    out
}

fn span_tried(expected: usize, room: usize) -> (r: Option<(usize, usize)>)
    requires
        expected <= 0xffff_ffff,
    ensures
        ({
            let (a, b) = tried(expected as int, room as int);
            match r {
                Some(s) => s.0 == a && s.1 == b && a <= b,
                None => b < a,
            }
        }),
        r matches Some(s) ==> s.1 <= room && s.1 - s.0 <= 80,
{
    let from: usize = if expected < 40 {
        0
    } else {
        expected - 40
    };
    let far: u64 = expected as u64 + 40;
    let to: usize = if (room as u64) < far {
        room
    } else {
        far as usize
    };
    if to < from {
        None
    } else {
        Some((from, to))
    }
}

fn try_scale(
    field: &Field,
    best: Option<GapHit>,
    picture: &Picture,
    profile: &Profile,
    scale: Number,
) -> (r: Option<GapHit>)
    requires
        picture.wf(),
        field.wf(),
        field.w == picture.width,
        field.h == picture.height,
        field.hat@ == mark_hat(picture),
        sound(best),
        profile.wf(),
    ensures
        r == gap_at_scale(best, picture, profile, scale),
        sound(r),
{
    let (w, h): (usize, usize) = (picture.width as usize, picture.height as usize);
    let tw: u64 = scale_length(profile.aw, scale);
    let th: u64 = scale_length(profile.ah, scale);
    if tw < 4 || th < 4 || tw >= w as u64 || th >= h as u64 {
        return best;
    }
    let (tw, th): (usize, usize) = (tw as usize, th as usize);
    let total: usize = picture.data.len();
    proof {
        assert(0 <= tw * th && tw * th <= w * h) by (nonlinear_arith)
            requires
                0 <= tw <= w,
                0 <= th <= h,
        ;
        assert((tw * th) * 1 == tw * th);
    }
    let t = resize_plane(profile.alpha.as_slice(), profile.aw, profile.ah, 1, tw, th);
    let pts = points_at(t.as_slice());
    if pts.len() < 8 || pts.len() >= t.len() {
        return best;
    }
    let (ax, ay): (usize, usize) = match place_by_anchor(profile, w, h) {
        Some(a) => (a.0, a.1),
        None => (w - tw, h - th),
    };
    match (span_tried(ax, w - tw), span_tried(ay, h - th)) {
        (Some(xs), Some(ys)) => scan(
            field,
            best,
            (tw, th),
            pts.as_slice(),
            (xs.0, ys.0),
            (xs.1, ys.1),
            scale,
        ),
        _ => best,
    }
}

/// Looks for a profile's mark around the place that the profile tells, or else
/// in the bottom right corner: the place where the strokes of the mark stand
/// out most from its gaps.
pub fn locate_profile_dense(picture: &Picture, profile: &Profile) -> (r: Option<GapHit>)
    requires
        picture.wf(),
        profile.wf(),
    ensures
        r == gap_hit(picture, profile),
        r matches Some(hit) ==> hit.score.wf(),
{
    let (w, h): (usize, usize) = (picture.width as usize, picture.height as usize);
    let short: usize = if h < w {
        h
    } else {
        w
    };
    if short == 0 {
        return None;
    }
    let total: usize = picture.data.len();
    proof {
        lemma_measurable_sides(w as int, h as int);
        crate::planes::lemma_corner_cells(w as int, h as int);
    }
    let base = Number::from_count(short).over(profile.ref_short_side);
    let odd: usize = if short % 2 == 0 {
        short + 1
    } else {
        short
    };
    let k: usize = if odd > 31 {
        31
    } else if odd < 3 {
        3
    } else {
        odd
    };
    let gray = lightness_of(picture);
    let low = rect_opening(gray.as_slice(), w, h, k / 2, k / 2);
    let hat = difference(gray.as_slice(), low.as_slice());
    let sums = integral(hat.as_slice(), w, h);
    let field = Field { hat, sums, w, h };
    let smaller_mark = base.times(Number::decimal(95, 100));
    let larger_mark = base.times(Number::decimal(105, 100));
    let first = try_scale(&field, None, picture, profile, smaller_mark);
    let second = try_scale(&field, first, picture, profile, base);
    try_scale(&field, second, picture, profile, larger_mark)
}

/// A place counts if the mark stands out by 12 or more.
pub open spec fn gap_counts(hit: Option<GapHit>) -> bool {
    hit matches Some(b) && !b.score.spec_lt(whole(12))
}

/// Where a given profile's mark sits, if it stands out enough.
pub fn match_specific(picture: &Picture, profile: &Profile) -> (r: Option<GapHit>)
    requires
        picture.wf(),
        profile.wf(),
    ensures
        r == if gap_counts(gap_hit(picture, profile)) {
            gap_hit(picture, profile)
        } else {
            None
        },
{
    match locate_profile_dense(picture, profile) {
        None => None,
        Some(hit) => if hit.score.less(Double::from_int(12)) {
            None
        } else {
            Some(hit)
        },
    }
}

/// How many of the first `n` pictures show the mark, and the sum of how
/// clearly.
pub open spec fn hits_among(pictures: Seq<Picture>, profile: &Profile, n: int) -> (int, Number)
    decreases n,
{
    if n <= 0 {
        (0, Number::spec_int(0))
    } else {
        let (hits, sum) = hits_among(pictures, profile, n - 1);
        let hit = gap_hit(&pictures[n - 1], profile);
        if gap_counts(hit) {
            (hits + 1, sum.spec_plus(Number::spec_double(hit.unwrap().score)))
        } else {
            (hits, sum)
        }
    }
}

/// Looks for a mark in the pictures that it was learned from: in how many it
/// is found, out of how many, and how clearly on average.
pub fn profile_self_check(profile: &Profile, pictures: &[Picture]) -> (r: (usize, usize, Number))
    requires
        profile.wf(),
        forall|k: int| 0 <= k < pictures@.len() ==> (#[trigger] pictures@[k]).wf(),
    ensures
        ({
            let (hits, sum) = hits_among(pictures@, profile, pictures@.len() as int);
            &&& r.0 == hits
            &&& r.1 == pictures@.len()
            &&& r.2 == if hits > 0 {
                sum.spec_over(Number::spec_int(hits))
            } else {
                Number::spec_int(0)
            }
        }),
        r.0 <= r.1,
{
    let n: usize = pictures.len();
    let mut hits: usize = 0;
    let mut sum = Number::from_int(0);
    let mut k: usize = 0;
    while k < n
        invariant
            n == pictures@.len(),
            profile.wf(),
            forall|k: int| 0 <= k < pictures@.len() ==> (#[trigger] pictures@[k]).wf(),
            k <= n,
            hits <= k,
            (hits as int, sum) == hits_among(pictures@, profile, k as int),
        decreases n - k,
    {
        match locate_profile_dense(&pictures[k], profile) {
            Some(hit) => {
                if !hit.score.less(Double::from_int(12)) {
                    hits = hits + 1;
                    sum = sum.plus(Number::from_double(hit.score));
                }
            },
            None => {},
        }
        k = k + 1;
    }
    let mean = if hits > 0 {
        sum.over(Number::from_count(hits))
    } else {
        Number::from_int(0)
    };
    (hits, n, mean)
}

/// A placed mask marks the covered cells of the mark, and nothing outside the
/// mark's box.
pub proof fn lemma_placed_mask_fits(
    profile: &Profile,
    px: int,
    py: int,
    width: int,
    height: int,
    scale: Number,
    x: int,
    y: int,
)
    requires
        placed_mask(profile, px, py, width, height, scale) is Some,
        0 <= px,
        0 <= py,
        0 <= x < width,
        0 <= y < height,
    ensures
        ({
            let data = placed_mask(profile, px, py, width, height, scale).unwrap();
            let tw = scaled_size(profile.aw as int, scale);
            let th = scaled_size(profile.ah as int, scale);
            let alpha = scaled_plane(
                profile.alpha@,
                profile.aw as int,
                profile.ah as int,
                1,
                tw,
                th,
            );
            let inside = px <= x < px + tw && py <= y < py + th;
            &&& data[y * width + x] != 0 ==> inside
            &&& inside && covered(alpha)[(y - py) * tw + (x - px)] ==> data[y * width + x] == 255
        }),
{
    let tw = scaled_size(profile.aw as int, scale);
    let th = scaled_size(profile.ah as int, scale);
    let alpha = scaled_plane(profile.alpha@, profile.aw as int, profile.ah as int, 1, tw, th);
    let cells = covered(alpha);
    let (rx, ry) = growth(profile);
    lemma_cell(width, height, x, y);
    vstd::arithmetic::div_mod::lemma_fundamental_div_mod_converse(y * width + x, width, y, x);
    assert(width * height >= 0) by (nonlinear_arith)
        requires
            width >= 0,
            height >= 0,
    ;
    if px <= x < px + tw && py <= y < py + th && cells[(y - py) * tw + (x - px)] {
        lemma_cell(tw, th, x - px, y - py);
        lemma_dilated_keeps(cells, tw, th, rx, ry, (y - py) * tw + (x - px));
    }
}

/// No place that was tried stands out more than the one that is found.
pub proof fn lemma_best_gap_highest(
    best: Option<GapHit>,
    hat: Seq<u8>,
    w: int,
    size: (int, int),
    pts: Seq<usize>,
    first: (int, int),
    across: int,
    scale: Number,
    n: int,
    k: int,
)
    requires
        0 <= k < n,
    ensures
        ({
            let found = best_gap(best, hat, w, size, pts, first, across, scale, n);
            let (px, py) = (first.0 + k % across, first.1 + k / across);
            found matches Some(b) && !b.score.spec_lt(gap(hat, w, size.0, size.1, pts, px, py))
        }),
    decreases n,
{
    let found = best_gap(best, hat, w, size, pts, first, across, scale, n);
    let before = best_gap(best, hat, w, size, pts, first, across, scale, n - 1);
    let (px, py) = (first.0 + k % across, first.1 + k / across);
    let score = gap(hat, w, size.0, size.1, pts, px, py);
    if k == n - 1 {
        lemma_not_below_itself(score);
    } else {
        lemma_best_gap_highest(
            best,
            hat,
            w,
            size,
            pts,
            first,
            across,
            scale,
            n - 1,
            k,
        );
        let (old_high, new_high) = (before.unwrap().score, found.unwrap().score);
        if old_high.spec_lt(new_high) {
            lemma_below_is_not_above(old_high, new_high);
            lemma_not_above_transitive(score, old_high, new_high);
        }
    }
}

/// A cell of a mark is covered if its coverage is above 8 of 255.
pub proof fn lemma_covered_by_amount(alpha: Seq<Number>, i: int)
    requires
        0 <= i < alpha.len(),
        crate::accuracy::sound(alpha[i]),
        (0 as real) <= amount(alpha[i]) <= (1 as real),
    ensures
        covered(alpha).len() == alpha.len(),
        amount(alpha[i]) * (255 as real) >= (801 as real) / (100 as real) ==> covered(alpha)[i],
        amount(alpha[i]) * (255 as real) <= (799 as real) / (100 as real) ==> !covered(alpha)[i],
{
    let (a, n) = (alpha[i], Number::spec_int(255));
    lemma_int_amount(8);
    lemma_int_amount(255);
    let x = amount(a) * (255 as real);
    assert((0 as real) <= x && x <= (255 as real)) by (nonlinear_arith)
        requires
            x == amount(a) * (255 as real),
            (0 as real) <= amount(a),
            amount(a) <= (1 as real),
    ;
    lemma_product_close(a, n);
    lemma_order_by_amount(Number::spec_int(8), a.spec_times(n).spec_short());
}

/// A length at a scale is the nearest whole number to their product.
pub proof fn lemma_at_scale_by_amount(n: int, scale: Number)
    requires
        0 <= n < 0x1_0000_0000,
        crate::accuracy::sound(scale),
        (0 as real) <= amount(scale) <= (200 as real),
    ensures
        within(
            at_scale(n, scale) as real,
            (n as real) * amount(scale),
            (51 as real) / (100 as real),
        ),
{
    lemma_int_amount(n);
    let (nr, s) = (n as real, amount(scale));
    let p = nr * s;
    assert((0 as real) <= p && p <= (0xc8_0000_0000 as real)) by (nonlinear_arith)
        requires
            p == nr * s,
            (0 as real) <= nr,
            nr <= (0x1_0000_0000 as real),
            (0 as real) <= s,
            s <= (200 as real),
    ;
    let m = Number::spec_int(n).spec_times(scale);
    lemma_product_close(Number::spec_int(n), scale);
    lemma_round_by_amount(m);
}

} // verus!
