//! The search for a mark by correlation: where it runs, at which scales, and
//! which places count.

use crate::boxes::{larger, smaller};
use crate::correlate::{
    cosine_scan, downscale, normalize_unit, quarter, quartered, scanned, unit_plane,
};
use crate::grid::{lemma_cell, lemma_position};
use crate::morph::{difference, morphed, rect_morph, rectangle, stand_out};
use crate::number::{lemma_number_order, lemma_number_strict, Class, Number};
use crate::placing::{at_scale, mark_hat, opening_reach, scale_length};
use crate::planes::{lightness, lightness_of};
use crate::raster::Picture;
use crate::scaling::{resize_plane, scaled_plane};
use crate::watermark_profiles::Profile;
use vstd::prelude::*;

verus! {

/// The part of a picture that is searched.
#[derive(Clone, Copy, Debug, PartialEq, Eq, Structural)]
pub struct Search {
    pub x0: usize,
    pub y0: usize,
    pub rw: usize,
    pub rh: usize,
}

/// The part that is searched: all of the picture, or its right half below 72
/// percent of the height. Nothing if it has fewer than eight columns or rows.
pub open spec fn search_part(w: int, h: int, any_position: bool) -> Option<(int, int, int, int)> {
    let (x0, y0) = if any_position {
        (0, 0)
    } else {
        (
            w / 2,
            larger(
                smaller(
                    Number::spec_int(h).spec_times(Number::spec_ratio(72, 100)).spec_trunc(),
                    h,
                ),
                0,
            ),
        )
    };
    if w - x0 < 8 || h - y0 < 8 {
        None
    } else {
        Some((x0, y0, w - x0, h - y0))
    }
}

/// The part of a picture that is searched for a mark.
pub fn search_of(w: usize, h: usize, any_position: bool) -> (r: Option<Search>)
    requires
        w <= 0xffff_ffff,
        h <= 0xffff_ffff,
    ensures
        match search_part(w as int, h as int, any_position) {
            None => r is None,
            Some(p) => r matches Some(s) && s.x0 == p.0 && s.y0 == p.1 && s.rw == p.2 && s.rh
                == p.3,
        },
        r matches Some(s) ==> s.x0 + s.rw == w && s.y0 + s.rh == h && s.rw >= 8 && s.rh >= 8,
{
    let (x0, y0): (usize, usize) = if any_position {
        (0, 0)
    } else {
        let t: i64 = Number::from_count(h).times(Number::decimal(72, 100)).trunc();
        let y: usize = if t < 0 {
            0
        } else if t > h as i64 {
            h
        } else {
            t as usize
        };
        (w / 2, y)
    };
    if w - x0 < 8 || h - y0 < 8 {
        None
    } else {
        Some(Search { x0, y0, rw: w - x0, rh: h - y0 })
    }
}

/// What is darker than its surroundings leave open.
pub open spec fn shade_hat(picture: &Picture) -> Seq<u8> {
    let (w, h) = (picture.width as int, picture.height as int);
    let r = opening_reach(smaller(w, h));
    let near = rectangle(r, r);
    let gray = lightness(picture);
    stand_out(morphed(morphed(gray, w, h, near, true), w, h, near, false), gray)
}

/// What is brighter and what is darker than its surroundings: the two planes
/// that a mark is looked for in.
pub fn search_planes(picture: &Picture) -> (r: (Vec<u8>, Vec<u8>))
    requires
        picture.wf(),
    ensures
        r.0@ == mark_hat(picture),
        r.1@ == shade_hat(picture),
{
    let (w, h): (usize, usize) = (picture.width as usize, picture.height as usize);
    let short: usize = if h < w {
        h
    } else {
        w
    };
    let reach: usize = if short >= 31 {
        15
    } else {
        let odd: usize = if short % 2 == 0 {
            short + 1
        } else {
            short
        };
        (if odd < 3 {
            3
        } else {
            odd
        }) / 2
    };
    let gray = lightness_of(picture);
    let low = rect_morph(gray.as_slice(), w, h, reach, reach, false);
    let opening = rect_morph(low.as_slice(), w, h, reach, reach, true);
    let bright = difference(gray.as_slice(), opening.as_slice());
    let high = rect_morph(gray.as_slice(), w, h, reach, reach, true);
    let closing = rect_morph(high.as_slice(), w, h, reach, reach, false);
    let dark = difference(closing.as_slice(), gray.as_slice());
    (bright, dark)
}

/// The factors from `f` on in equal steps, up to `top`, at most `n` of them,
/// each times `base`.
pub open spec fn factors(f: Number, top: Number, step: Number, base: Number, n: int) -> Seq<Number>
    decreases n,
{
    if n <= 0 || !f.spec_le(top) {
        seq![]
    } else {
        seq![base.spec_times(f)] + factors(f.spec_plus(step), top, step, base, n - 1)
    }
}

pub(crate) fn factors_of(f: Number, top: Number, step: Number, base: Number, n: usize) -> (r: Vec<Number>)
    ensures
        r@ == factors(f, top, step, base, n as int),
{
    let mut out: Vec<Number> = Vec::new();
    let mut at = f;
    let mut left: usize = n;
    proof {
        assert(out@ + factors(at, top, step, base, n as int) =~= factors(
            f,
            top,
            step,
            base,
            n as int,
        ));
    }
    while left > 0 && at.at_most(top)
        invariant
            out@ + factors(at, top, step, base, left as int) == factors(
                f,
                top,
                step,
                base,
                n as int,
            ),
        decreases left,
    {
        let ghost before = out@;
        let v = base.times(at);
        out.push(v);
        let ghost rest = factors(at.spec_plus(step), top, step, base, left - 1);
        proof {
            assert(before + (seq![v] + rest) =~= out@ + rest);
        }
        at = at.plus(step);
        left = left - 1;
    }
    proof {
        assert(factors(at, top, step, base, left as int) =~= seq![]);
        assert(out@ + Seq::<Number>::empty() =~= out@);
    }
    out
}

/// The end of a span of factors around one, with a little to spare.
pub open spec fn span_top(span: Number) -> Number {
    Number::spec_int(1).spec_plus(span).spec_plus(Number::spec_ratio(1, 1_000_000_000))
}

/// The scales of the first pass: 35 percent either way in steps of 5.
pub open spec fn coarse_factors(base: Number) -> Seq<Number> {
    let span = Number::spec_ratio(35, 100);
    factors(
        Number::spec_int(1).spec_minus(span),
        span_top(span),
        Number::spec_ratio(5, 100),
        base,
        64,
    )
}

pub fn coarse_scales(base: Number) -> (r: Vec<Number>)
    ensures
        r@ == coarse_factors(base),
{
    let span = Number::decimal(35, 100);
    let top = Number::from_int(1).plus(span).plus(Number::decimal(1, 1_000_000_000));
    factors_of(Number::from_int(1).minus(span), top, Number::decimal(5, 100), base, 64)
}

/// The scales of the second pass around the best of the first: 5 percent
/// either way in steps of 1.25.
pub open spec fn fine_factors(base: Number, best: Number) -> Seq<Number> {
    let span = Number::spec_ratio(5, 100);
    factors(
        Number::spec_int(1).spec_minus(span),
        span_top(span),
        Number::spec_ratio(125, 10000),
        base.spec_times(best.spec_over(base)),
        64,
    )
}

pub fn fine_scales(base: Number, best: Number) -> (r: Vec<Number>)
    ensures
        r@ == fine_factors(base, best),
{
    let span = Number::decimal(5, 100);
    let top = Number::from_int(1).plus(span).plus(Number::decimal(1, 1_000_000_000));
    factors_of(
        Number::from_int(1).minus(span),
        top,
        Number::decimal(125, 10000),
        base.times(best.over(base)),
        64,
    )
}

/// A length of a mark at a scale, at least two pixels.
pub open spec fn mark_length(n: int, scale: Number) -> int {
    larger(at_scale(n, scale), 2)
}

/// The size of a mark in the first pass, at a quarter, if it fits into the
/// searched part at a quarter.
pub fn coarse_size(aw: usize, ah: usize, scale: Number, search: &Search) -> (r: Option<(
    usize,
    usize,
)>)
    requires
        search.rw <= 0xffff_ffff,
        search.rh <= 0xffff_ffff,
    ensures
        ({
            let (tw, th) = (mark_length(aw as int, scale) / 4, mark_length(ah as int, scale) / 4);
            let (cw, ch) = ((search.rw + 3) / 4, (search.rh + 3) / 4);
            if tw < 2 || th < 2 || tw >= cw || th >= ch {
                r is None
            } else {
                r matches Some(s) && s.0 == tw && s.1 == th
            }
        }),
{
    let mut w: u64 = scale_length(aw, scale);
    if w < 2 {
        w = 2;
    }
    let mut h: u64 = scale_length(ah, scale);
    if h < 2 {
        h = 2;
    }
    let (tw, th): (u64, u64) = (w / 4, h / 4);
    let cw: u64 = (search.rw as u64 + 3) / 4;
    let ch: u64 = (search.rh as u64 + 3) / 4;
    if tw < 2 || th < 2 || tw >= cw || th >= ch {
        None
    } else {
        Some((tw as usize, th as usize))
    }
}

/// What the second pass scans at one scale: the size of the mark, and the
/// first and last places.
#[derive(Clone, Copy, Debug, PartialEq, Eq, Structural)]
pub struct FineScan {
    pub tw: usize,
    pub th: usize,
    pub x_lo: usize,
    pub x_hi: usize,
    pub y_lo: usize,
    pub y_hi: usize,
}

/// The first place scanned around `at`, four before it.
pub open spec fn scan_from(at: int, start: int) -> int {
    larger(larger(at - start, 0) - 4, 0)
}

/// The last place scanned around `at`, four behind it, as far as the mark fits.
pub open spec fn scan_to(at: int, start: int, room: int) -> int {
    smaller(larger(at - start, 0) + 4, room)
}

/// The scan of the second pass around the place found by the first, if the
/// mark fits into the searched part.
pub fn fine_scan(
    aw: usize,
    ah: usize,
    scale: Number,
    search: &Search,
    px: usize,
    py: usize,
) -> (r: Option<FineScan>)
    requires
        search.rw <= 0xffff_ffff,
        search.rh <= 0xffff_ffff,
        px <= 0xffff_ffff,
        py <= 0xffff_ffff,
    ensures
        ({
            let (tw, th) = (mark_length(aw as int, scale), mark_length(ah as int, scale));
            if tw >= search.rw || th >= search.rh {
                r is None
            } else {
                r matches Some(s) && {
                    &&& s.tw == tw
                    &&& s.th == th
                    &&& s.x_lo == scan_from(px as int, search.x0 as int)
                    &&& s.y_lo == scan_from(py as int, search.y0 as int)
                    &&& s.x_hi == scan_to(px as int, search.x0 as int, search.rw - tw)
                    &&& s.y_hi == scan_to(py as int, search.y0 as int, search.rh - th)
                }
            }
        }),
        r matches Some(s) ==> s.x_hi + s.tw <= search.rw && s.y_hi + s.th <= search.rh,
{
    let mut w: u64 = scale_length(aw, scale);
    if w < 2 {
        w = 2;
    }
    let mut h: u64 = scale_length(ah, scale);
    if h < 2 {
        h = 2;
    }
    if w >= search.rw as u64 || h >= search.rh as u64 {
        return None;
    }
    let (tw, th): (usize, usize) = (w as usize, h as usize);
    let (x_lo, x_hi) = around(px, search.x0, search.rw - tw);
    let (y_lo, y_hi) = around(py, search.y0, search.rh - th);
    Some(FineScan { tw, th, x_lo, x_hi, y_lo, y_hi })
}

fn around(at: usize, start: usize, room: usize) -> (r: (usize, usize))
    requires
        at <= 0xffff_ffff,
    ensures
        r.0 == scan_from(at as int, start as int),
        r.1 == scan_to(at as int, start as int, room as int),
        r.1 <= room,
{
    let off: usize = if at < start {
        0
    } else {
        at - start
    };
    let lo: usize = if off < 4 {
        0
    } else {
        off - 4
    };
    let far: u64 = off as u64 + 4;
    let hi: usize = if far < room as u64 {
        far as usize
    } else {
        room
    };
    (lo, hi)
}

/// A place that was found by correlation.
#[derive(Clone, Copy)]
pub struct NccHit {
    pub score: Number,
    pub px: usize,
    pub py: usize,
    pub scale: Number,
}

/// Nine tenths of a length.
pub open spec fn nine_tenths(n: int) -> int {
    Number::spec_int(n).spec_times(Number::spec_ratio(9, 10)).spec_trunc()
}

/// A mark of `n` pixels at `at` reaches the last tenth of a side.
pub open spec fn reaches_end(at: int, n: int, scale: Number, side: int) -> bool {
    at + at_scale(n, scale) >= nine_tenths(side)
}

/// The better of the best place so far and a new one. A place that does not
/// reach the last tenth of the picture both ways does not count unless any
/// position does; of equals the earlier stays.
pub open spec fn considered(
    best: Option<NccHit>,
    hit: NccHit,
    mark: (int, int),
    size: (int, int),
    any_position: bool,
) -> Option<NccHit> {
    if !any_position && !(reaches_end(hit.px as int, mark.0, hit.scale, size.0) && reaches_end(
        hit.py as int,
        mark.1,
        hit.scale,
        size.1,
    )) {
        best
    } else {
        match best {
            None => Some(hit),
            Some(b) => if b.score.spec_lt(hit.score) {
                Some(hit)
            } else {
                best
            },
        }
    }
}

fn reaches(at: usize, n: usize, scale: Number, side: usize) -> (r: bool)
    requires
        at <= 0xffff_ffff,
    ensures
        r == reaches_end(at as int, n as int, scale, side as int),
{
    let end: u64 = at as u64 + scale_length(n, scale);
    let t: i64 = Number::from_count(side).times(Number::decimal(9, 10)).trunc();
    t < 0 || end >= t as u64
}

/// Takes a new place into account.
pub fn consider(
    best: Option<NccHit>,
    hit: NccHit,
    mark: (usize, usize),
    size: (usize, usize),
    any_position: bool,
) -> (r: Option<NccHit>)
    requires
        hit.px <= 0xffff_ffff,
        hit.py <= 0xffff_ffff,
    ensures
        r == considered(
            best,
            hit,
            (mark.0 as int, mark.1 as int),
            (size.0 as int, size.1 as int),
            any_position,
        ),
{
    if !any_position && !(reaches(hit.px, mark.0, hit.scale, size.0) && reaches(
        hit.py,
        mark.1,
        hit.scale,
        size.1,
    )) {
        return best;
    }
    match best {
        None => Some(hit),
        Some(b) => if b.score.less(hit.score) {
            Some(hit)
        } else {
            best
        },
    }
}

/// The place that the search ends with, if its score is at least one half.
pub fn accept(best: Option<NccHit>) -> (r: Option<NccHit>)
    ensures
        r == accepted(best),
{
    match best {
        Some(b) => if b.score.less(Number::decimal(1, 2)) {
            None
        } else {
            best
        },
        None => None,
    }
}

/// The mark of a profile at a size, with mean zero and spread one.
pub open spec fn mark_plane(profile: &Profile, tw: int, th: int) -> Seq<Number> {
    unit_plane(
        scaled_plane(profile.alpha@, profile.aw as int, profile.ah as int, 1, tw, th),
    )
}

/// The part of a plane that is searched, with mean zero and spread one.
pub open spec fn part_plane(plane: Seq<u8>, w: int, part: (int, int, int, int)) -> Seq<Number> {
    unit_plane(
        Seq::new(
            (part.2 * part.3) as nat,
            |i: int|
                Number::spec_int(
                    plane[(part.1 + i / part.2) * w + part.0 + i % part.2] as int,
                ),
        ),
    )
}

/// The best place after the outcome of a scan is taken into account, whose
/// places are `step` pixels apart.
pub open spec fn with_scan(
    best: Option<NccHit>,
    found: Option<(Number, int, int)>,
    part: (int, int, int, int),
    step: int,
    scale: Number,
    mark: (int, int),
    size: (int, int),
    any_position: bool,
) -> Option<NccHit> {
    match found {
        None => best,
        Some(f) => considered(
            best,
            NccHit {
                score: f.0,
                px: (part.0 + f.1 * step) as usize,
                py: (part.1 + f.2 * step) as usize,
                scale,
            },
            mark,
            size,
            any_position,
        ),
    }
}

/// The best place after the first pass has tried a scale in both planes, which
/// are at a quarter of their size.
pub open spec fn coarse_step(
    best: Option<NccHit>,
    bright: Seq<Number>,
    dark: Seq<Number>,
    part: (int, int, int, int),
    profile: &Profile,
    size: (int, int),
    any_position: bool,
    scale: Number,
) -> Option<NccHit> {
    let mark = (profile.aw as int, profile.ah as int);
    let (tw, th) = (mark_length(mark.0, scale) / 4, mark_length(mark.1, scale) / 4);
    let (cw, ch) = (quarter(part.2), quarter(part.3));
    if tw < 2 || th < 2 || tw >= cw || th >= ch {
        best
    } else {
        let t = mark_plane(profile, tw, th);
        let last = (cw - tw, ch - th);
        let a = scanned(bright, cw, ch, t, (tw, th), (0, 0), last);
        let b = scanned(dark, cw, ch, t, (tw, th), (0, 0), last);
        with_scan(
            with_scan(best, a, part, 4, scale, mark, size, any_position),
            b,
            part,
            4,
            scale,
            mark,
            size,
            any_position,
        )
    }
}

/// The best place of the first pass after `n` scales.
pub open spec fn coarse_best(
    bright: Seq<Number>,
    dark: Seq<Number>,
    part: (int, int, int, int),
    profile: &Profile,
    size: (int, int),
    any_position: bool,
    scales: Seq<Number>,
    n: int,
) -> Option<NccHit>
    decreases n,
{
    if n <= 0 {
        None
    } else {
        coarse_step(
            coarse_best(bright, dark, part, profile, size, any_position, scales, n - 1),
            bright,
            dark,
            part,
            profile,
            size,
            any_position,
            scales[n - 1],
        )
    }
}

/// The best place after the second pass has tried a scale in both planes,
/// around the place that the first pass found.
pub open spec fn fine_step(
    best: Option<NccHit>,
    bright: Seq<Number>,
    dark: Seq<Number>,
    part: (int, int, int, int),
    profile: &Profile,
    size: (int, int),
    any_position: bool,
    around: (int, int),
    scale: Number,
) -> Option<NccHit> {
    let mark = (profile.aw as int, profile.ah as int);
    let (tw, th) = (mark_length(mark.0, scale), mark_length(mark.1, scale));
    let (rw, rh) = (part.2, part.3);
    if tw >= rw || th >= rh {
        best
    } else {
        let t = mark_plane(profile, tw, th);
        let first = (scan_from(around.0, part.0), scan_from(around.1, part.1));
        let last = (scan_to(around.0, part.0, rw - tw), scan_to(around.1, part.1, rh - th));
        let a = scanned(bright, rw, rh, t, (tw, th), first, last);
        let b = scanned(dark, rw, rh, t, (tw, th), first, last);
        with_scan(
            with_scan(best, a, part, 1, scale, mark, size, any_position),
            b,
            part,
            1,
            scale,
            mark,
            size,
            any_position,
        )
    }
}

/// The best place after `n` scales of the second pass, which starts from the
/// best place of the first.
pub open spec fn fine_best(
    found: NccHit,
    bright: Seq<Number>,
    dark: Seq<Number>,
    part: (int, int, int, int),
    profile: &Profile,
    size: (int, int),
    any_position: bool,
    scales: Seq<Number>,
    n: int,
) -> Option<NccHit>
    decreases n,
{
    if n <= 0 {
        Some(found)
    } else {
        fine_step(
            fine_best(found, bright, dark, part, profile, size, any_position, scales, n - 1),
            bright,
            dark,
            part,
            profile,
            size,
            any_position,
            (found.px as int, found.py as int),
            scales[n - 1],
        )
    }
}

/// The place that is accepted, if its score is at least one half.
pub open spec fn accepted(best: Option<NccHit>) -> Option<NccHit> {
    match best {
        Some(b) => if b.score.spec_lt(Number::spec_ratio(1, 2)) {
            None
        } else {
            best
        },
        None => None,
    }
}

/// Where a profile's mark sits in a picture, by correlation in what is brighter
/// and what is darker than its surroundings: over all scales at a quarter of
/// the size, then closely around the best of them.
pub open spec fn ncc_hit(picture: &Picture, profile: &Profile, any_position: bool) -> Option<
    NccHit,
> {
    let (w, h) = (picture.width as int, picture.height as int);
    match search_part(w, h, any_position) {
        None => None,
        Some(part) => {
            let base = Number::spec_int(smaller(w, h)).spec_over(profile.ref_short_side);
            let bright = part_plane(mark_hat(picture), w, part);
            let dark = part_plane(shade_hat(picture), w, part);
            let scales = coarse_factors(base);
            match coarse_best(
                quartered(bright, part.2, part.3),
                quartered(dark, part.2, part.3),
                part,
                profile,
                (w, h),
                any_position,
                scales,
                scales.len() as int,
            ) {
                None => None,
                Some(found) => {
                    let close = fine_factors(base, found.scale);
                    accepted(
                        fine_best(
                            found,
                            bright,
                            dark,
                            part,
                            profile,
                            (w, h),
                            any_position,
                            close,
                            close.len() as int,
                        ),
                    )
                },
            }
        },
    }
}

fn mark_plane_of(profile: &Profile, tw: usize, th: usize) -> (r: Vec<Number>)
    requires
        profile.wf(),
        tw * th <= usize::MAX,
    ensures
        r@ == mark_plane(profile, tw as int, th as int),
        r@.len() == tw * th,
{
    assert((tw * th) * 1 == tw * th);
    assert((profile.aw * profile.ah) * 1 == profile.aw * profile.ah);
    let plane = resize_plane(profile.alpha.as_slice(), profile.aw, profile.ah, 1, tw, th);
    normalize_unit(plane.as_slice())
}

spec fn part_view(s: &Search) -> (int, int, int, int) {
    (s.x0 as int, s.y0 as int, s.rw as int, s.rh as int)
}

fn part_plane_of(plane: &[u8], w: usize, h: usize, s: &Search) -> (r: Vec<Number>)
    requires
        plane@.len() == w * h,
        s.x0 + s.rw == w,
        s.y0 + s.rh == h,
    ensures
        r@ == part_plane(plane@, w as int, part_view(s)),
        r@.len() == s.rw * s.rh,
{
    let total: usize = plane.len();
    proof {
        assert(0 <= s.rw * s.rh && s.rw * s.rh <= w * h) by (nonlinear_arith)
            requires
                0 <= s.rw <= w,
                0 <= s.rh <= h,
        ;
    }
    let n: usize = s.rw * s.rh;
    let ghost goal = Seq::new(
        (s.rw * s.rh) as nat,
        |i: int|
            Number::spec_int(
                plane@[(s.y0 + i / s.rw as int) * w + s.x0 + i % s.rw as int] as int,
            ),
    );
    let mut out: Vec<Number> = Vec::new();
    let mut i: usize = 0;
    while i < n
        invariant
            plane@.len() == w * h,
            total == w * h,
            s.x0 + s.rw == w,
            s.y0 + s.rh == h,
            n == s.rw * s.rh,
            i <= n,
            out@.len() == i,
            goal.len() == n,
            forall|k: int|
                0 <= k < n ==> #[trigger] goal[k] == Number::spec_int(
                    plane@[(s.y0 + k / s.rw as int) * w + s.x0 + k % s.rw as int] as int,
                ),
            forall|k: int| 0 <= k < i ==> #[trigger] out@[k] == goal[k],
        decreases n - i,
    {
        proof {
            lemma_position(s.rw as int, s.rh as int, i as int);
            lemma_cell(
                w as int,
                h as int,
                s.x0 + i as int % s.rw as int,
                s.y0 + i as int / s.rw as int,
            );
        }
        let v: u8 = plane[(s.y0 + i / s.rw) * w + s.x0 + i % s.rw];
        out.push(Number::from_int(v as i64));
        i = i + 1;
    }
    proof {
        assert(out@ =~= goal);
    }
    normalize_unit(out.as_slice())
}

/// What both passes share: the searched part, the mark, and the size of the
/// picture.
struct Hunt<'a> {
    search: Search,
    profile: &'a Profile,
    w: usize,
    h: usize,
    any_position: bool,
}

impl<'a> Hunt<'a> {
    spec fn wf(&self) -> bool {
        &&& self.profile.wf()
        &&& self.search.x0 + self.search.rw == self.w
        &&& self.search.y0 + self.search.rh == self.h
        &&& self.w <= 0xffff_ffff
        &&& self.h <= 0xffff_ffff
        &&& self.w * self.h <= usize::MAX
    }

    spec fn part(&self) -> (int, int, int, int) {
        part_view(&self.search)
    }

    spec fn mark(&self) -> (int, int) {
        (self.profile.aw as int, self.profile.ah as int)
    }

    spec fn size(&self) -> (int, int) {
        (self.w as int, self.h as int)
    }

    /// Takes the outcome of a scan into account.
    fn take(
        &self,
        best: Option<NccHit>,
        found: Option<(Number, usize, usize)>,
        step: usize,
        scale: Number,
    ) -> (r: Option<NccHit>)
        requires
            self.wf(),
            near(best),
            step == 1 || step == 4,
            found matches Some(f) ==> f.1 * step <= self.search.rw && f.2 * step <= self.search.rh,
        ensures
            r == with_scan(
                best,
                match found {
                    None => None,
                    Some(f) => Some((f.0, f.1 as int, f.2 as int)),
                },
                self.part(),
                step as int,
                scale,
                self.mark(),
                self.size(),
                self.any_position,
            ),
            near(r),
    {
        match found {
            None => best,
            Some(f) => {
                let hit = NccHit {
                    score: f.0,
                    px: self.search.x0 + f.1 * step,
                    py: self.search.y0 + f.2 * step,
                    scale,
                };
                consider(
                    best,
                    hit,
                    (self.profile.aw, self.profile.ah),
                    (self.w, self.h),
                    self.any_position,
                )
            },
        }
    }

    /// Tries a scale at a quarter of the size.
    fn try_coarse(
        &self,
        best: Option<NccHit>,
        bright: &[Number],
        dark: &[Number],
        scale: Number,
    ) -> (r: Option<NccHit>)
        requires
            self.wf(),
            near(best),
            bright@.len() == quarter(self.search.rw as int) * quarter(self.search.rh as int),
            dark@.len() == quarter(self.search.rw as int) * quarter(self.search.rh as int),
        ensures
            r == coarse_step(
                best,
                bright@,
                dark@,
                self.part(),
                self.profile,
                self.size(),
                self.any_position,
                scale,
            ),
            near(r),
    {
        match coarse_size(self.profile.aw, self.profile.ah, scale, &self.search) {
            None => best,
            Some((tw, th)) => {
                let cw: usize = (self.search.rw - 1) / 4 + 1;
                let ch: usize = (self.search.rh - 1) / 4 + 1;
                proof {
                    self.lemma_fits(tw as int, th as int);
                }
                let t = mark_plane_of(self.profile, tw, th);
                let last: (usize, usize) = (cw - tw, ch - th);
                let a = cosine_scan(bright, cw, ch, t.as_slice(), (tw, th), (0, 0), last);
                let b = cosine_scan(dark, cw, ch, t.as_slice(), (tw, th), (0, 0), last);
                let first = self.take(best, a, 4, scale);
                self.take(first, b, 4, scale)
            },
        }
    }

    proof fn lemma_fits(&self, tw: int, th: int)
        requires
            self.wf(),
            0 <= tw <= self.search.rw,
            0 <= th <= self.search.rh,
        ensures
            0 <= tw * th <= usize::MAX,
    {
        let (w, h) = (self.w as int, self.h as int);
        assert(0 <= tw * th && tw * th <= w * h) by (nonlinear_arith)
            requires
                0 <= tw <= w,
                0 <= th <= h,
        ;
    }

    /// Tries a scale closely around a place.
    fn try_fine(
        &self,
        best: Option<NccHit>,
        bright: &[Number],
        dark: &[Number],
        around: (usize, usize),
        scale: Number,
    ) -> (r: Option<NccHit>)
        requires
            self.wf(),
            near(best),
            around.0 <= 0xffff_ffff,
            around.1 <= 0xffff_ffff,
            bright@.len() == self.search.rw * self.search.rh,
            dark@.len() == self.search.rw * self.search.rh,
        ensures
            r == fine_step(
                best,
                bright@,
                dark@,
                self.part(),
                self.profile,
                self.size(),
                self.any_position,
                (around.0 as int, around.1 as int),
                scale,
            ),
            near(r),
    {
        let plan = fine_scan(
            self.profile.aw,
            self.profile.ah,
            scale,
            &self.search,
            around.0,
            around.1,
        );
        match plan {
            None => best,
            Some(s) => {
                proof {
                    self.lemma_fits(s.tw as int, s.th as int);
                }
                let (rw, rh): (usize, usize) = (self.search.rw, self.search.rh);
                let t = mark_plane_of(self.profile, s.tw, s.th);
                let (from, to) = ((s.x_lo, s.y_lo), (s.x_hi, s.y_hi));
                let a = cosine_scan(bright, rw, rh, t.as_slice(), (s.tw, s.th), from, to);
                let b = cosine_scan(dark, rw, rh, t.as_slice(), (s.tw, s.th), from, to);
                let first = self.take(best, a, 1, scale);
                self.take(first, b, 1, scale)
            },
        }
    }
}

spec fn near(best: Option<NccHit>) -> bool {
    best matches Some(b) ==> b.px <= 0xffff_ffff && b.py <= 0xffff_ffff
}

/// Where a profile's mark sits in a picture, by correlation.
pub fn locate_ncc_impl(picture: &Picture, profile: &Profile, any_position: bool) -> (r: Option<
    NccHit,
>)
    requires
        picture.wf(),
        profile.wf(),
    ensures
        r == ncc_hit(picture, profile, any_position),
{
    let (w, h): (usize, usize) = (picture.width as usize, picture.height as usize);
    let search: Search = match search_of(w, h, any_position) {
        None => return None,
        Some(s) => s,
    };
    let short: usize = if w < h {
        w
    } else {
        h
    };
    let base = Number::from_count(short).over(profile.ref_short_side);
    let (hat, shade) = search_planes(picture);
    let total: usize = hat.len();
    let bright = part_plane_of(hat.as_slice(), w, h, &search);
    let dark = part_plane_of(shade.as_slice(), w, h, &search);
    let (small_bright, cw, ch) = downscale(bright.as_slice(), search.rw, search.rh);
    let (small_dark, _, _) = downscale(dark.as_slice(), search.rw, search.rh);
    let hunt = Hunt { search, profile, w, h, any_position };
    let scales = coarse_scales(base);
    let mut best: Option<NccHit> = None;
    let mut k: usize = 0;
    while k < scales.len()
        invariant
            hunt.wf(),
            near(best),
            hunt.profile == profile,
            hunt.any_position == any_position,
            small_bright@.len() == quarter(hunt.search.rw as int) * quarter(hunt.search.rh as int),
            small_dark@.len() == quarter(hunt.search.rw as int) * quarter(hunt.search.rh as int),
            k <= scales@.len(),
            best == coarse_best(
                small_bright@,
                small_dark@,
                hunt.part(),
                profile,
                hunt.size(),
                any_position,
                scales@,
                k as int,
            ),
        decreases scales@.len() - k,
    {
        best = hunt.try_coarse(best, small_bright.as_slice(), small_dark.as_slice(), scales[k]);
        k = k + 1;
    }
    let found: NccHit = match best {
        None => return None,
        Some(b) => b,
    };
    let close = fine_scales(base, found.scale);
    k = 0;
    while k < close.len()
        invariant
            hunt.wf(),
            near(best),
            near(Some(found)),
            hunt.profile == profile,
            hunt.any_position == any_position,
            bright@.len() == hunt.search.rw * hunt.search.rh,
            dark@.len() == hunt.search.rw * hunt.search.rh,
            k <= close@.len(),
            best == fine_best(
                found,
                bright@,
                dark@,
                hunt.part(),
                profile,
                hunt.size(),
                any_position,
                close@,
                k as int,
            ),
        decreases close@.len() - k,
    {
        let around: (usize, usize) = (found.px, found.py);
        best = hunt.try_fine(best, bright.as_slice(), dark.as_slice(), around, close[k]);
        k = k + 1;
    }
    accept(best)
}

/// Where a profile's mark sits in a picture, by correlation.
pub fn locate_ncc(picture: &Picture, profile: &Profile, any_position: bool) -> (r: Option<NccHit>)
    requires
        picture.wf(),
        profile.wf(),
    ensures
        r == ncc_hit(picture, profile, any_position),
{
    locate_ncc_impl(picture, profile, any_position)
}

/// Where one profile's mark sits in a picture.
pub fn locate_profile(picture: &Picture, profile: &Profile, any_position: bool) -> (r: Option<
    NccHit,
>)
    requires
        picture.wf(),
        profile.wf(),
    ensures
        r == ncc_hit(picture, profile, any_position),
{
    locate_ncc_impl(picture, profile, any_position)
}

/// The profile among the first `n` whose mark was found best; of equals the
/// first.
pub open spec fn best_found(found: Seq<Option<NccHit>>, n: int) -> Option<int>
    decreases n,
{
    if n <= 0 {
        None
    } else {
        match (best_found(found, n - 1), found[n - 1]) {
            (before, None) => before,
            (None, Some(_)) => Some(n - 1),
            (Some(k), Some(hit)) => if found[k].unwrap().score.spec_lt(hit.score) {
                Some(n - 1)
            } else {
                Some(k)
            },
        }
    }
}

/// The profile whose mark was found best.
pub fn best_of(found: &[Option<NccHit>]) -> (r: Option<usize>)
    ensures
        match best_found(found@, found@.len() as int) {
            None => r is None,
            Some(k) => r matches Some(i) && i == k,
        },
        r matches Some(i) ==> i < found@.len() && found@[i as int] is Some,
        r is None ==> forall|k: int| 0 <= k < found@.len() ==> #[trigger] found@[k] is None,
{
    let n: usize = found.len();
    let mut best: Option<(usize, Number)> = None;
    let mut k: usize = 0;
    while k < n
        invariant
            n == found@.len(),
            k <= n,
            match best {
                None => best_found(found@, k as int) is None && forall|j: int|
                    0 <= j < k ==> #[trigger] found@[j] is None,
                Some(b) => best_found(found@, k as int) == Some(b.0 as int) && b.0 < k
                    && found@[b.0 as int] is Some && found@[b.0 as int].unwrap().score == b.1,
            },
        decreases n - k,
    {
        match found[k] {
            None => {},
            Some(hit) => {
                let better: bool = match best {
                    None => true,
                    Some(b) => b.1.less(hit.score),
                };
                if better {
                    best = Some((k, hit.score));
                }
            },
        }
        k = k + 1;
    }
    match best {
        None => None,
        Some(b) => Some(b.0),
    }
}

/// Where the mark of each profile sits in a picture, if it is in the corner.
pub open spec fn hits(picture: &Picture, profiles: Seq<Profile>) -> Seq<Option<NccHit>> {
    Seq::new(profiles.len(), |i: int| ncc_hit(picture, &profiles[i], false))
}

/// The profile whose mark is found best in the corner of a picture, and where.
pub fn match_image(picture: &Picture, profiles: &[Profile]) -> (r: Option<(usize, NccHit)>)
    requires
        picture.wf(),
        forall|i: int| 0 <= i < profiles@.len() ==> (#[trigger] profiles@[i]).wf(),
    ensures
        match best_found(hits(picture, profiles@), profiles@.len() as int) {
            None => r is None,
            Some(k) => r matches Some(m) && m.0 == k && Some(m.1) == ncc_hit(
                picture,
                &profiles@[k],
                false,
            ),
        },
        r matches Some(m) ==> m.0 < profiles@.len(),
{
    let n: usize = profiles.len();
    let mut found: Vec<Option<NccHit>> = Vec::new();
    let mut i: usize = 0;
    while i < n
        invariant
            n == profiles@.len(),
            i <= n,
            picture.wf(),
            forall|i: int| 0 <= i < profiles@.len() ==> (#[trigger] profiles@[i]).wf(),
            found@.len() == i,
            forall|k: int| 0 <= k < i ==> #[trigger] found@[k] == hits(picture, profiles@)[k],
        decreases n - i,
    {
        found.push(locate_ncc(picture, &profiles[i], false));
        i = i + 1;
    }
    proof {
        assert(found@ =~= hits(picture, profiles@));
    }
    match best_of(found.as_slice()) {
        None => None,
        Some(k) => match found[k] {
            None => None,
            Some(hit) => Some((k, hit)),
        },
    }
}

/// No mark was found with a higher score than the one that is taken, if all
/// scores are numbers.
pub proof fn lemma_best_found_highest(found: Seq<Option<NccHit>>, n: int, k: int)
    requires
        0 <= k < n <= found.len(),
        found[k] is Some,
        forall|i: int|
            0 <= i < n ==> (#[trigger] found[i] matches Some(hit) ==> hit.score.kind()
                != Class::Nan),
    ensures
        best_found(found, n) matches Some(b) && 0 <= b < n && found[b] is Some
            && !found[b].unwrap().score.spec_lt(found[k].unwrap().score),
    decreases n,
{
    lemma_best_found_place(found, n);
    lemma_best_found_place(found, n - 1);
    let score = found[k].unwrap().score;
    if k == n - 1 {
        lemma_number_strict(score, score);
        if let Some(b) = best_found(found, n - 1) {
            lemma_number_strict(found[b].unwrap().score, score);
        }
    } else {
        lemma_best_found_highest(found, n - 1, k);
        let before = best_found(found, n - 1).unwrap();
        let now = best_found(found, n).unwrap();
        let (old_high, new_high) = (found[before].unwrap().score, found[now].unwrap().score);
        if now != before {
            lemma_number_strict(old_high, new_high);
            lemma_number_order(score, old_high, new_high);
        }
    }
}

proof fn lemma_best_found_place(found: Seq<Option<NccHit>>, n: int)
    requires
        n <= found.len(),
    ensures
        best_found(found, n) matches Some(b) ==> 0 <= b < n && found[b] is Some,
    decreases n,
{
    if n > 0 {
        lemma_best_found_place(found, n - 1);
    }
}

} // verus!
