//! Learning a mark from samples: its coverage, its colours and its place.

use crate::accuracy::{
    amount, lemma_clamp_by_amount, lemma_difference_close, lemma_int_amount, lemma_max_by_amount,
    lemma_order_by_amount, lemma_product_close, lemma_quotient_close, lemma_ratio_close,
    lemma_sum_close, sound, within,
};
use crate::boxes::{larger, smaller};
use crate::fill::{fill_inpaint, inpainted};
use crate::grid::{lemma_cell, lemma_position};
use crate::lama::{crop_rgb, cut_rgb};
use crate::number::Number;
use crate::outline::{
    above, cells_above, clean_alpha, cleaned, count_set, covered_box, crop_to_alpha, cut_plane,
    detect_watermark_box, mark_strokes, mark_strokes_of, set_count, strokes_box, CutMark,
};
use crate::raster::{
    lemma_measurable_part, measurable, region_pixels, region_tones, Picture, Region,
};
use crate::shift::{
    estimate_shift, likely_shift, translate, translated, twice_median, Histogram,
};
use crate::stats::{median, median_of};
use crate::watermark_profiles::{
    edges, lowered, meant_edges, numbers_of, plain_numbers, resolve_box, slug, slug_text, Corners,
    Edges, Place, Profile,
};
use vstd::prelude::*;

verus! {

/// Red, green and blue.
pub type Rgb = (Number, Number, Number);

/// A box as it may be given: a negative edge counts from the far side.
pub type GivenBox = Option<(i64, i64, i64, i64)>;

/// A channel of a colour.
pub open spec fn part(c: Rgb, k: int) -> Number {
    if k == 0 {
        c.0
    } else if k == 1 {
        c.1
    } else {
        c.2
    }
}

fn part_of(c: Rgb, k: usize) -> (r: Number)
    ensures
        r == part(c, k as int),
{
    if k == 0 {
        c.0
    } else if k == 1 {
        c.1
    } else {
        c.2
    }
}

/// A decimal constant in single precision.
pub open spec fn level(p: int, q: int) -> Number {
    Number::spec_ratio(p, q).spec_short()
}

pub(crate) fn level_of(p: u32, q: u32) -> (r: Number)
    requires
        q > 0,
    ensures
        r == level(p as int, q as int),
{
    Number::decimal(p, q).short()
}

/// Why nothing was learned.
#[derive(Clone, Copy)]
pub enum Refusal {
    SizesDiffer,
    InvalidBox,
    /// The two backgrounds are this far apart.
    BackgroundsTooClose { delta: Number },
    TooLittleCoverage,
    NoStrokes,
    ColorTooClose,
    TooFewSamples { got: usize },
    Unaligned,
    NoStructure,
    TooLittleBatchCoverage,
    EmptyMark,
}

/// Channel `c` of the pixels among the first `n` that lie outside a box.
pub open spec fn outside_values(picture: &Picture, b: Edges, c: int, n: int) -> Seq<u16>
    decreases n,
{
    if n <= 0 {
        seq![]
    } else {
        let (x, y) = ((n - 1) % picture.width as int, (n - 1) / picture.width as int);
        let before = outside_values(picture, b, c, n - 1);
        if b.0 <= x < b.2 && b.1 <= y < b.3 {
            before
        } else {
            before.push(picture.channel(n - 1, c) as u16)
        }
    }
}

/// Half of a whole number.
pub open spec fn half(v: int) -> Number {
    Number::spec_int(v).spec_over(Number::spec_int(2))
}

/// A box with eight more pixels on each side, inside the picture.
pub open spec fn guard_box(picture: &Picture, b: Edges) -> Edges {
    (
        lowered(b.0, 8),
        lowered(b.1, 8),
        smaller(b.2 + 8, picture.width as int),
        smaller(b.3 + 8, picture.height as int),
    )
}

/// The median of each channel well outside a box.
pub open spec fn background(picture: &Picture, b: Edges) -> Rgb {
    let g = guard_box(picture, b);
    let n = picture.area();
    (
        half(twice_median(outside_values(picture, g, 0, n))),
        half(twice_median(outside_values(picture, g, 1, n))),
        half(twice_median(outside_values(picture, g, 2, n))),
    )
}

fn outside_median(picture: &Picture, g: Corners, c: usize) -> (r: Number)
    requires
        picture.wf(),
        c < 3,
    ensures
        r == half(twice_median(outside_values(picture, edges(g), c as int, picture.area()))),
{
    let w: usize = picture.width as usize;
    let h: usize = picture.height as usize;
    let total: usize = picture.data.len();
    let n: usize = total / 3;
    let mut found = Histogram::new();
    let mut i: usize = 0;
    while i < n
        invariant
            picture.wf(),
            w == picture.width,
            h == picture.height,
            n == picture.area(),
            n == w * h,
            c < 3,
            i <= n,
            found.wf(),
            found.counted() == outside_values(picture, edges(g), c as int, i as int),
            found.counted().len() <= i,
        decreases n - i,
    {
        proof {
            lemma_position(w as int, h as int, i as int);
        }
        let x: usize = i % w;
        let y: usize = i / w;
        if !(g.0 <= x && x < g.2 && g.1 <= y && y < g.3) {
            found.count(picture.get(i, c) as u16);
        }
        i = i + 1;
    }
    Number::from_int(found.twice_median()).over(Number::from_int(2))
}

fn saturating_less(a: usize, b: usize) -> (r: usize)
    ensures
        r == lowered(a as int, b as int),
{
    if a < b {
        0
    } else {
        a - b
    }
}

fn capped_more(a: usize, b: usize, top: usize) -> (r: usize)
    requires
        a <= top,
    ensures
        r == smaller(a + b, top as int),
{
    if top - a < b {
        top
    } else {
        a + b
    }
}

fn background_of(picture: &Picture, b: Corners) -> (r: Rgb)
    requires
        picture.wf(),
        b.2 <= picture.width,
        b.3 <= picture.height,
    ensures
        r == background(picture, edges(b)),
{
    let g = (
        saturating_less(b.0, 8),
        saturating_less(b.1, 8),
        capped_more(b.2, 8, picture.width as usize),
        capped_more(b.3, 8, picture.height as usize),
    );
    (outside_median(picture, g, 0), outside_median(picture, g, 1), outside_median(picture, g, 2))
}

/// The sum of three numbers in single precision.
pub open spec fn total3(a: Number, b: Number, c: Number) -> Number {
    a.spec_plus(b).spec_short().spec_plus(c).spec_short()
}

/// How far two colours are apart, by the mean of their channels.
pub open spec fn mean_gap(high: Rgb, low: Rgb) -> Number {
    total3(high.0, high.1, high.2).spec_minus(total3(low.0, low.1, low.2)).spec_short().spec_over(
        Number::spec_int(3),
    ).spec_short()
}

fn mean_gap_of(high: Rgb, low: Rgb) -> (r: Number)
    ensures
        r == mean_gap(high, low),
{
    let a = high.0.plus(high.1).short().plus(high.2).short();
    let b = low.0.plus(low.1).short().plus(low.2).short();
    a.minus(b).short().over(Number::from_int(3)).short()
}

/// The sum of the channels of pixel `i`.
pub open spec fn tone_sum(bytes: Seq<u8>, i: int) -> int {
    bytes[3 * i] + bytes[3 * i + 1] + bytes[3 * i + 2]
}

/// A number moved into the range from 0 to 1.
pub open spec fn unit(v: Number) -> Number {
    v.spec_clamp(Number::spec_int(0), Number::spec_int(1))
}

/// The coverage at pixel `i`: how much of the step between two backgrounds is
/// missing.
pub open spec fn pair_alpha(black: Seq<u8>, white: Seq<u8>, delta: Number, i: int) -> Number {
    let diff = Number::spec_int(tone_sum(white, i) - tone_sum(black, i)).spec_over(
        Number::spec_int(3),
    ).spec_short();
    unit(Number::spec_int(1).spec_minus(diff.spec_over(delta).spec_short()).spec_short())
}

pub open spec fn pair_alphas(black: Seq<u8>, white: Seq<u8>, delta: Number, n: int) -> Seq<Number> {
    Seq::new(n as nat, |i: int| pair_alpha(black, white, delta, i))
}

fn pair_alphas_of(black: &[u8], white: &[u8], delta: Number, n: usize) -> (r: Vec<Number>)
    requires
        black@.len() == 3 * n,
        white@.len() == 3 * n,
    ensures
        r@ == pair_alphas(black@, white@, delta, n as int),
{
    let total: usize = black.len();
    let mut out: Vec<Number> = Vec::new();
    let ghost goal = pair_alphas(black@, white@, delta, n as int);
    let mut i: usize = 0;
    while i < n
        invariant
            total == 3 * n,
            black@.len() == total,
            white@.len() == total,
            goal == pair_alphas(black@, white@, delta, n as int),
            i <= n,
            out@ == goal.take(i as int),
        decreases n - i,
    {
        let a: i64 = black[3 * i] as i64 + black[3 * i + 1] as i64 + black[3 * i + 2] as i64;
        let b: i64 = white[3 * i] as i64 + white[3 * i + 1] as i64 + white[3 * i + 2] as i64;
        let diff = Number::from_int(b - a).over(Number::from_int(3)).short();
        let v = Number::from_int(1).minus(diff.over(delta).short()).short();
        out.push(v.clamp(Number::from_int(0), Number::from_int(1)));
        i = i + 1;
        proof {
            assert(out@ =~= goal.take(i as int));
        }
    }
    proof {
        assert(out@ =~= goal);
    }
    out
}

/// A mark's colour out of what is seen over a known background.
pub open spec fn unmixed(seen: Number, a: Number, bg: Number) -> Number {
    let v = seen.spec_minus(
        Number::spec_int(1).spec_minus(a).spec_short().spec_times(bg).spec_short(),
    ).spec_short().spec_over(a.spec_max(level(1, 1000))).spec_short();
    if a.spec_le(level(3, 100)) {
        Number::spec_int(0)
    } else {
        v.spec_clamp(Number::spec_int(0), Number::spec_int(255))
    }
}

pub open spec fn pair_colors(black: Seq<u8>, alpha: Seq<Number>, bg: Rgb) -> Seq<Number> {
    Seq::new(
        (3 * alpha.len()) as nat,
        |j: int| unmixed(Number::spec_int(black[j] as int), alpha[j / 3], part(bg, j % 3)),
    )
}

fn pair_colors_of(black: &[u8], alpha: &[Number], bg: Rgb) -> (r: Vec<Number>)
    requires
        black@.len() == 3 * alpha@.len(),
    ensures
        r@ == pair_colors(black@, alpha@, bg),
{
    let n: usize = black.len();
    let mut out: Vec<Number> = Vec::new();
    let ghost goal = pair_colors(black@, alpha@, bg);
    let mut j: usize = 0;
    while j < n
        invariant
            n == black@.len(),
            n == 3 * alpha@.len(),
            goal == pair_colors(black@, alpha@, bg),
            j <= n,
            out@ == goal.take(j as int),
        decreases n - j,
    {
        let a = alpha[j / 3];
        let b = part_of(bg, j % 3);
        let share = Number::from_int(1).minus(a).short().times(b).short();
        let v = Number::from_int(black[j] as i64).minus(share).short().over(
            a.max(level_of(1, 1000)),
        ).short();
        if a.at_most(level_of(3, 100)) {
            out.push(Number::from_int(0));
        } else {
            out.push(v.clamp(Number::from_int(0), Number::from_int(255)));
        }
        j = j + 1;
        proof {
            assert(out@ =~= goal.take(j as int));
        }
    }
    proof {
        assert(out@ =~= goal);
    }
    out
}

/// A colour over a background.
pub open spec fn blended(a: Number, color: Number, bg: Number) -> Number {
    a.spec_times(color).spec_short().spec_plus(
        Number::spec_int(1).spec_minus(a).spec_short().spec_times(bg).spec_short(),
    ).spec_short()
}

/// How far a blend misses what is seen.
pub open spec fn miss(a: Number, color: Number, bg: Number, seen: u8) -> Number {
    blended(a, color, bg).spec_minus(Number::spec_int(seen as int)).spec_short().spec_abs()
}

/// The misses of the first `n` channels, where the coverage is not at most
/// `least`, added to `start`.
pub open spec fn miss_sum(
    start: Number,
    alpha: Seq<Number>,
    color: Seq<Number>,
    bg: Seq<Number>,
    seen: Seq<u8>,
    least: Number,
    n: int,
) -> Number
    decreases n,
{
    if n <= 0 {
        start
    } else {
        let before = miss_sum(start, alpha, color, bg, seen, least, n - 1);
        let a = alpha[(n - 1) / 3];
        if a.spec_le(least) {
            before
        } else {
            before.spec_plus(miss(a, color[n - 1], bg[n - 1], seen[n - 1]))
        }
    }
}

pub(crate) fn add_misses(
    start: Number,
    alpha: &[Number],
    color: &[Number],
    bg: &[Number],
    seen: &[u8],
    least: Number,
) -> (r: Number)
    requires
        color@.len() == 3 * alpha@.len(),
        bg@.len() == 3 * alpha@.len(),
        seen@.len() == 3 * alpha@.len(),
    ensures
        r == miss_sum(start, alpha@, color@, bg@, seen@, least, seen@.len() as int),
{
    let n: usize = seen.len();
    let mut sum = start;
    let mut j: usize = 0;
    while j < n
        invariant
            n == seen@.len(),
            n == 3 * alpha@.len(),
            n == color@.len(),
            n == bg@.len(),
            j <= n,
            sum == miss_sum(start, alpha@, color@, bg@, seen@, least, j as int),
        decreases n - j,
    {
        let a = alpha[j / 3];
        if !a.at_most(least) {
            let mixed = a.times(color[j]).short().plus(
                Number::from_int(1).minus(a).short().times(bg[j]).short(),
            ).short();
            sum = sum.plus(mixed.minus(Number::from_int(seen[j] as i64)).short().abs());
        }
        j = j + 1;
    }
    sum
}

/// The cells whose coverage is not at most `least`.
pub open spec fn beyond(alpha: Seq<Number>, least: Number) -> Seq<bool> {
    Seq::new(alpha.len(), |i: int| !alpha[i].spec_le(least))
}

pub(crate) fn count_beyond(alpha: &[Number], least: Number) -> (r: usize)
    ensures
        r == set_count(beyond(alpha@, least), alpha@.len() as int),
        r <= alpha@.len(),
{
    let n: usize = alpha.len();
    let mut count: usize = 0;
    let mut i: usize = 0;
    while i < n
        invariant
            n == alpha@.len(),
            i <= n,
            count <= i,
            count == set_count(beyond(alpha@, least), i as int),
        decreases n - i,
    {
        if !alpha[i].at_most(least) {
            count = count + 1;
        }
        i = i + 1;
    }
    count
}

/// The mean miss per channel; 999 where nothing was compared.
pub open spec fn mean_miss(sum: Number, cells: int) -> Number {
    if cells > 0 {
        sum.spec_over(Number::spec_int(3 * cells))
    } else {
        Number::spec_int(999)
    }
}

pub(crate) fn mean_miss_of(sum: Number, cells: usize) -> (r: Number)
    requires
        3 * cells <= usize::MAX,
    ensures
        r == mean_miss(sum, cells as int),
{
    if cells > 0 {
        sum.over(Number::from_count(3 * cells))
    } else {
        Number::from_int(999)
    }
}

/// One colour for each of `n` pixels.
pub open spec fn flat_plane(c: Rgb, n: int) -> Seq<Number> {
    Seq::new((3 * n) as nat, |j: int| part(c, j % 3))
}

fn flat_plane_of(c: Rgb, n: usize) -> (r: Vec<Number>)
    requires
        3 * n <= usize::MAX,
    ensures
        r@ == flat_plane(c, n as int),
{
    let total: usize = 3 * n;
    let mut out: Vec<Number> = Vec::new();
    let mut j: usize = 0;
    while j < total
        invariant
            total == 3 * n,
            j <= total,
            out@ == flat_plane(c, n as int).take(j as int),
        decreases total - j,
    {
        out.push(part_of(c, j % 3));
        j = j + 1;
        proof {
            assert(out@ =~= flat_plane(c, n as int).take(j as int));
        }
    }
    proof {
        assert(out@ =~= flat_plane(c, n as int));
    }
    out
}

/// The part of a picture around a box in which two samples are aligned: 40
/// more pixels on each side.
pub open spec fn align_region(picture: &Picture, b: Edges) -> Region {
    let (x0, y0) = (lowered(b.0, 40), lowered(b.1, 40));
    Region {
        x0: x0 as usize,
        y0: y0 as usize,
        rw: (smaller(b.2 + 40, picture.width as int) - x0) as usize,
        rh: (smaller(b.3 + 40, picture.height as int) - y0) as usize,
    }
}

/// The shift of the second sample against the first.
pub open spec fn pair_shift(black: &Picture, white: &Picture, b: Edges) -> (int, int) {
    let region = align_region(black, b);
    likely_shift(
        region_tones(black, &region),
        region_tones(white, &region),
        region.rw as int,
        region.rh as int,
    )
}

/// The second sample moved back by a shift of more than one pixel.
pub open spec fn is_aligned(white: &Picture, shift: (int, int), out: &Picture) -> bool {
    &&& out.width == white.width
    &&& out.height == white.height
    &&& out.wf()
    &&& out.data@ == if shift.0 > 1 || shift.0 < -1 || shift.1 > 1 || shift.1 < -1 {
        translated(
            white.data@,
            white.width as int,
            white.height as int,
            -shift.0,
            -shift.1,
        )
    } else {
        white.data@
    }
}

/// Aligns the second of two samples with the first.
pub fn align_pair(black: &Picture, white: &Picture, b: Corners) -> (r: (Picture, (i64, i64)))
    requires
        black.wf(),
        white.wf(),
        black.width == white.width,
        black.height == white.height,
        b.0 < b.2 <= black.width,
        b.1 < b.3 <= black.height,
    ensures
        (r.1.0 as int, r.1.1 as int) == pair_shift(black, white, edges(b)),
        is_aligned(white, pair_shift(black, white, edges(b)), &r.0),
        r.0.wf(),
{
    let x0: usize = saturating_less(b.0, 40);
    let y0: usize = saturating_less(b.1, 40);
    let x1: usize = capped_more(b.2, 40, black.width as usize);
    let y1: usize = capped_more(b.3, 40, black.height as usize);
    let region = Region { x0, y0, rw: x1 - x0, rh: y1 - y0 };
    proof {
        crate::raster::lemma_measurable_sides(black.width as int, black.height as int);
        lemma_measurable_part(
            black.width as int,
            black.height as int,
            region.rw as int,
            region.rh as int,
        );
    }
    let (a, _) = region_pixels(black, &region);
    let (c, _) = region_pixels(white, &region);
    let (dx, dy) = estimate_shift(a.as_slice(), c.as_slice(), region.rw, region.rh);
    if dx > 1 || dx < -1 || dy > 1 || dy < -1 {
        (translate(white, -dx, -dy), (dx, dy))
    } else {
        let data = white.data.clone();
        proof {
            assert(data@ =~= white.data@);
        }
        (Picture { width: white.width, height: white.height, data }, (dx, dy))
    }
}

/// The box of both samples' strokes.
pub open spec fn joint_box(a: Option<Edges>, b: Option<Edges>) -> GivenBox {
    match (a, b) {
        (Some(a), Some(b)) => Some(
            (
                smaller(a.0, b.0) as i64,
                smaller(a.1, b.1) as i64,
                larger(a.2, b.2) as i64,
                larger(a.3, b.3) as i64,
            ),
        ),
        (Some(a), None) => Some((a.0 as i64, a.1 as i64, a.2 as i64, a.3 as i64)),
        (None, Some(b)) => Some((b.0 as i64, b.1 as i64, b.2 as i64, b.3 as i64)),
        (None, None) => None,
    }
}

/// The box in which a mark is looked for: the given one, else that of the
/// strokes of both samples, else the corner.
pub open spec fn pair_edges(black: &Picture, white: &Picture, given: GivenBox) -> Edges {
    let (w, h) = (black.width as int, black.height as int);
    match given {
        Some(_) => meant_edges(given, w, h),
        None => meant_edges(
            joint_box(
                strokes_box(mark_strokes(black), w, h),
                strokes_box(mark_strokes(white), w, h),
            ),
            w,
            h,
        ),
    }
}

fn pair_frame(black: &Picture, white: &Picture, given: GivenBox) -> (r: Corners)
    requires
        black.wf(),
        white.wf(),
        black.width == white.width,
        black.height == white.height,
    ensures
        edges(r) == pair_edges(black, white, given),
        r.0 <= r.2 <= black.width,
        r.1 <= r.3 <= black.height,
{
    let (w, h): (usize, usize) = (black.width as usize, black.height as usize);
    if given.is_some() {
        return resolve_box(given, w, h);
    }
    let joint: GivenBox = match (detect_watermark_box(black), detect_watermark_box(white)) {
        (Some(a), Some(b)) => Some(
            (
                (if b.0 < a.0 {
                    b.0
                } else {
                    a.0
                }) as i64,
                (if b.1 < a.1 {
                    b.1
                } else {
                    a.1
                }) as i64,
                (if a.2 < b.2 {
                    b.2
                } else {
                    a.2
                }) as i64,
                (if a.3 < b.3 {
                    b.3
                } else {
                    a.3
                }) as i64,
            ),
        ),
        (Some(a), None) => Some((a.0 as i64, a.1 as i64, a.2 as i64, a.3 as i64)),
        (None, Some(b)) => Some((b.0 as i64, b.1 as i64, b.2 as i64, b.3 as i64)),
        (None, None) => None,
    };
    resolve_box(joint, w, h)
}

/// The bytes of a box.
pub open spec fn box_bytes(picture: &Picture, b: Edges) -> Seq<u8> {
    cut_rgb(picture, b.0, b.1, b.2 - b.0, b.3 - b.1)
}

/// How many pixels a box holds.
pub open spec fn box_area(b: Edges) -> int {
    (b.2 - b.0) * (b.3 - b.1)
}

pub open spec fn pair_delta(black: &Picture, white: &Picture, b: Edges) -> Number {
    mean_gap(background(white, b), background(black, b))
}

/// The coverage that a pair of samples shows, without specks.
pub open spec fn pair_cover(
    black: &Picture,
    white: &Picture,
    b: Edges,
    delta: Number,
    least: int,
) -> Seq<Number> {
    cleaned(
        pair_alphas(box_bytes(black, b), box_bytes(white, b), delta, box_area(b)),
        b.2 - b.0,
        level(2, 100),
        least,
    )
}

/// How well a mark explains a sample.
pub open spec fn pair_residual(
    cover: Seq<Number>,
    color: Seq<Number>,
    bg: Rgb,
    seen: Seq<u8>,
) -> Number {
    let n = cover.len() as int;
    mean_miss(
        miss_sum(
            Number::spec_int(0),
            cover,
            color,
            flat_plane(bg, n),
            seen,
            level(5, 100),
            seen.len() as int,
        ),
        set_count(beyond(cover, level(5, 100)), n),
    )
}

fn residual_of(cover: &[Number], color: &[Number], bg: Rgb, seen: &[u8]) -> (r: Number)
    requires
        color@.len() == 3 * cover@.len(),
        seen@.len() == 3 * cover@.len(),
    ensures
        r == pair_residual(cover@, color@, bg, seen@),
{
    let total: usize = seen.len();
    let n: usize = cover.len();
    let plane = flat_plane_of(bg, n);
    let sum = add_misses(Number::from_int(0), cover, color, plane.as_slice(), seen, level_of(5, 100));
    let cells: usize = count_beyond(cover, level_of(5, 100));
    mean_miss_of(sum, cells)
}

/// What a pair of samples was measured to be.
#[derive(Clone, Copy)]
pub struct PairFit {
    pub frame: Corners,
    pub shift: (i64, i64),
    pub bg_black: Rgb,
    pub bg_white: Rgb,
    pub coverage: Number,
    pub residual_black: Number,
    pub residual_white: Number,
}

/// What came of a pair of samples.
pub enum PairResult {
    Refused { why: Refusal },
    /// The mark does not explain the samples well enough.
    Unfit { fit: PairFit },
    Learned { fit: PairFit, profile: Profile, stroke_box: Corners },
}

/// Where a mark at the box `at` sits in a picture.
pub open spec fn told_place(w: int, h: int, at: Edges) -> Place {
    let short = Number::spec_int(smaller(w, h));
    Place {
        reference: Some(short),
        right: Some(Number::spec_int(w - at.2).spec_over(short)),
        bottom: Some(Number::spec_int(h - at.3).spec_over(short)),
    }
}

/// The profile holds the part `cut` of a coverage and its colours.
pub open spec fn holds_mark(
    p: Profile,
    label: Seq<char>,
    source: Seq<char>,
    ref_short_side: Number,
    place: Option<Place>,
    cover: Seq<Number>,
    color: Seq<Number>,
    w: int,
    cut: Edges,
) -> bool {
    &&& p.wf()
    &&& p.id@ == slug_text(label)
    &&& p.label@ == label
    &&& p.source@ == source
    &&& p.created@ == ""@
    &&& p.ref_short_side == ref_short_side
    &&& p.place == place
    &&& p.mask_dilate is None
    &&& p.aw == cut.2 - cut.0
    &&& p.ah == cut.3 - cut.1
    &&& p.alpha@ == cut_plane(cover, w, 1, cut)
    &&& p.color@ == cut_plane(color, w, 3, cut)
}

/// A box inside another, in the outer coordinates.
pub open spec fn placed_box(b: Edges, cut: Edges) -> Edges {
    (b.0 + cut.0, b.1 + cut.1, b.0 + cut.2, b.1 + cut.3)
}

pub(crate) fn place_at(w: usize, h: usize, at: Corners) -> (r: Place)
    requires
        at.2 <= w,
        at.3 <= h,
    ensures
        r == told_place(w as int, h as int, edges(at)),
{
    let short = Number::from_count(
        if h < w {
            h
        } else {
            w
        },
    );
    Place {
        reference: Some(short),
        right: Some(Number::from_count(w - at.2).over(short)),
        bottom: Some(Number::from_count(h - at.3).over(short)),
    }
}

pub(crate) fn mark_profile(
    mark: CutMark,
    label: &str,
    source: String,
    ref_short_side: Number,
    place: Option<Place>,
    Ghost(outer): Ghost<(int, int)>,
) -> (r: Profile)
    requires
        measurable(outer.0, outer.1),
        mark.w <= outer.0 <= 0xffff_ffff,
        mark.h <= outer.1 <= 0xffff_ffff,
        mark.alpha@.len() == mark.w * mark.h,
        mark.color@.len() == 3 * (mark.w * mark.h),
    ensures
        r.wf(),
        r.id@ == slug_text(label@),
        r.label@ == label@,
        r.source@ == source@,
        r.created@ == ""@,
        r.ref_short_side == ref_short_side,
        r.place == place,
        r.mask_dilate is None,
        r.aw == mark.w,
        r.ah == mark.h,
        r.alpha@ == mark.alpha@,
        r.color@ == mark.color@,
{
    proof {
        lemma_measurable_part(outer.0, outer.1, mark.w as int, mark.h as int);
    }
    Profile {
        id: slug(label),
        label: String::from_str(label),
        ref_short_side,
        source,
        created: String::from_str(""),
        place,
        mask_dilate: None,
        aw: mark.w,
        ah: mark.h,
        alpha: mark.alpha,
        color: mark.color,
    }
}

pub open spec fn pair_source(black: Seq<char>, white: Seq<char>) -> Seq<char> {
    "pair: "@ + black + " + "@ + white
}

/// What the measurements of an aligned pair are.
pub open spec fn is_pair_fit(
    black: &Picture,
    aligned: &Picture,
    b: Edges,
    shift: (int, int),
    cover: Seq<Number>,
    fit: PairFit,
) -> bool {
    let (bg_black, bg_white) = (background(black, b), background(aligned, b));
    let color = pair_colors(box_bytes(black, b), cover, bg_black);
    &&& edges(fit.frame) == b
    &&& (fit.shift.0 as int, fit.shift.1 as int) == shift
    &&& fit.bg_black == bg_black
    &&& fit.bg_white == bg_white
    &&& fit.coverage == Number::spec_int(
        set_count(above(cover, level(5, 100)), cover.len() as int),
    ).spec_over(Number::spec_int(box_area(b)))
    &&& fit.residual_black == pair_residual(cover, color, bg_black, box_bytes(black, b))
    &&& fit.residual_white == pair_residual(cover, color, bg_white, box_bytes(aligned, b))
}

/// What comes of an aligned pair.
pub open spec fn is_pair_result(
    black: &Picture,
    aligned: &Picture,
    b: Edges,
    shift: (int, int),
    least: int,
    max_resid: Number,
    ref_short_side: Option<Number>,
    label: Seq<char>,
    source: Seq<char>,
    r: PairResult,
) -> bool {
    let (w, h) = (black.width as int, black.height as int);
    let delta = pair_delta(black, aligned, b);
    let cover = pair_cover(black, aligned, b, delta, least);
    let color = pair_colors(box_bytes(black, b), cover, background(black, b));
    let n = box_area(b);
    if delta.spec_lt(Number::spec_int(32)) {
        r matches PairResult::Refused { why: Refusal::BackgroundsTooClose { delta: d } } && d
            == delta
    } else if set_count(above(cover, level(5, 100)), n) < 50 {
        r matches PairResult::Refused { why: Refusal::TooLittleCoverage }
    } else {
        match r {
            PairResult::Unfit { fit } => {
                &&& is_pair_fit(black, aligned, b, shift, cover, fit)
                &&& max_resid.spec_lt(fit.residual_black.spec_max(fit.residual_white))
            },
            PairResult::Learned { fit, profile, stroke_box } => {
                &&& is_pair_fit(black, aligned, b, shift, cover, fit)
                &&& !max_resid.spec_lt(fit.residual_black.spec_max(fit.residual_white))
                &&& covered_box(cover, b.2 - b.0, b.3 - b.1) matches Some(cut) && {
                    &&& edges(stroke_box) == placed_box(b, cut)
                    &&& holds_mark(
                        profile,
                        label,
                        source,
                        match ref_short_side {
                            Some(v) => v,
                            None => Number::spec_int(smaller(w, h)),
                        },
                        Some(told_place(w, h, placed_box(b, cut))),
                        cover,
                        color,
                        b.2 - b.0,
                        cut,
                    )
                }
            },
            PairResult::Refused { why } => {
                &&& why == Refusal::EmptyMark
                &&& covered_box(cover, b.2 - b.0, b.3 - b.1) is None
                &&& exists|fit: PairFit|
                    {
                        &&& #[trigger] is_pair_fit(black, aligned, b, shift, cover, fit)
                        &&& !max_resid.spec_lt(fit.residual_black.spec_max(fit.residual_white))
                    }
            },
        }
    }
}

/// Fits a mark to an aligned pair.
fn fit_pair(
    black: &Picture,
    aligned: &Picture,
    b: Corners,
    shift: (i64, i64),
    least: usize,
    max_resid: Number,
    ref_short_side: Option<Number>,
    label: &str,
    source: String,
) -> (r: PairResult)
    requires
        black.wf(),
        aligned.wf(),
        black.width == aligned.width,
        black.height == aligned.height,
        b.0 < b.2 <= black.width,
        b.1 < b.3 <= black.height,
    ensures
        is_pair_result(
            black,
            aligned,
            edges(b),
            (shift.0 as int, shift.1 as int),
            least as int,
            max_resid,
            ref_short_side,
            label@,
            source@,
            r,
        ),
{
    let (w, h): (usize, usize) = (black.width as usize, black.height as usize);
    let (rw, rh): (usize, usize) = (b.2 - b.0, b.3 - b.1);
    proof {
        lemma_measurable_part(w as int, h as int, rw as int, rh as int);
        assert(rw * rh >= 0) by (nonlinear_arith)
            requires
                rw >= 0,
                rh >= 0,
        ;
    }
    let bg_black = background_of(black, b);
    let bg_white = background_of(aligned, b);
    let delta = mean_gap_of(bg_white, bg_black);
    if delta.less(Number::from_int(32)) {
        return PairResult::Refused { why: Refusal::BackgroundsTooClose { delta } };
    }
    let dark = crop_rgb(black, b.0, b.1, rw, rh);
    let light = crop_rgb(aligned, b.0, b.1, rw, rh);
    let total: usize = dark.len();
    let n: usize = total / 3;
    let mut cover = pair_alphas_of(dark.as_slice(), light.as_slice(), delta, n);
    clean_alpha(&mut cover, rw, rh, level_of(2, 100), least);
    let inked = cells_above(cover.as_slice(), level_of(5, 100));
    let core: usize = count_set(inked.as_slice());
    if core < 50 {
        return PairResult::Refused { why: Refusal::TooLittleCoverage };
    }
    let color = pair_colors_of(dark.as_slice(), cover.as_slice(), bg_black);
    let residual_black = residual_of(cover.as_slice(), color.as_slice(), bg_black, dark.as_slice());
    let residual_white = residual_of(cover.as_slice(), color.as_slice(), bg_white, light.as_slice());
    let fit = PairFit {
        frame: b,
        shift,
        bg_black,
        bg_white,
        coverage: Number::from_count(core).over(Number::from_count(n)),
        residual_black,
        residual_white,
    };
    proof {
        assert(is_pair_fit(
            black,
            aligned,
            edges(b),
            (shift.0 as int, shift.1 as int),
            cover@,
            fit,
        ));
    }
    if max_resid.less(residual_black.max(residual_white)) {
        return PairResult::Unfit { fit };
    }
    match crop_to_alpha(cover.as_slice(), color.as_slice(), rw, rh) {
        None => PairResult::Refused { why: Refusal::EmptyMark },
        Some(mark) => {
            let stroke_box: Corners = (
                b.0 + mark.x0,
                b.1 + mark.y0,
                b.0 + mark.x0 + mark.w,
                b.1 + mark.y0 + mark.h,
            );
            let place = place_at(w, h, stroke_box);
            let reference = match ref_short_side {
                Some(v) => v,
                None => Number::from_count(
                    if h < w {
                        h
                    } else {
                        w
                    },
                ),
            };
            let profile = mark_profile(
                mark,
                label,
                source,
                reference,
                Some(place),
                Ghost((rw as int, rh as int)),
            );
            PairResult::Learned { fit, profile, stroke_box }
        },
    }
}

/// A box is too small to hold a mark.
pub open spec fn is_small_box(b: Edges) -> bool {
    b.2 <= b.0 + 4 || b.3 <= b.1 + 4
}

/// Learns a mark exactly from two samples, one on a dark and one on a light
/// ground: the coverage is what is missing of the step between the grounds.
pub fn extract_from_pair(
    black: &Picture,
    white: &Picture,
    given: GivenBox,
    ref_short_side: Option<Number>,
    label: &str,
    least: usize,
    max_resid: Number,
    names: (&str, &str),
) -> (r: PairResult)
    requires
        black.wf(),
        white.wf(),
    ensures
        if black.width != white.width || black.height != white.height {
            r matches PairResult::Refused { why: Refusal::SizesDiffer }
        } else {
            let b = pair_edges(black, white, given);
            let shift = pair_shift(black, white, b);
            if is_small_box(b) {
                r matches PairResult::Refused { why: Refusal::InvalidBox }
            } else {
                exists|aligned: Picture|
                    {
                        &&& #[trigger] is_aligned(white, shift, &aligned)
                        &&& is_pair_result(
                            black,
                            &aligned,
                            b,
                            shift,
                            least as int,
                            max_resid,
                            ref_short_side,
                            label@,
                            pair_source(names.0@, names.1@),
                            r,
                        )
                    }
            }
        },
{
    if black.width != white.width || black.height != white.height {
        return PairResult::Refused { why: Refusal::SizesDiffer };
    }
    let b = pair_frame(black, white, given);
    if b.2 - b.0 <= 4 || b.3 - b.1 <= 4 {
        return PairResult::Refused { why: Refusal::InvalidBox };
    }
    let (aligned, shift) = align_pair(black, white, b);
    let mut source = String::from_str("pair: ");
    source.append(names.0);
    source.append(" + ");
    source.append(names.1);
    fit_pair(
        black,
        &aligned,
        b,
        shift,
        least,
        max_resid,
        ref_short_side,
        label,
        source,
    )
}

/// A part of a picture as a picture.
pub open spec fn is_window(picture: &Picture, b: Edges, win: &Picture) -> bool {
    &&& win.wf()
    &&& win.width == b.2 - b.0
    &&& win.height == b.3 - b.1
    &&& win.data@ == box_bytes(picture, b)
}

/// Cuts a box out of a picture.
pub fn window(picture: &Picture, b: Corners) -> (r: Picture)
    requires
        picture.wf(),
        b.0 <= b.2 <= picture.width,
        b.1 <= b.3 <= picture.height,
    ensures
        is_window(picture, edges(b), &r),
        r.data@.len() == 3 * box_area(edges(b)),
{
    let (rw, rh): (usize, usize) = (b.2 - b.0, b.3 - b.1);
    proof {
        lemma_measurable_part(
            picture.width as int,
            picture.height as int,
            rw as int,
            rh as int,
        );
        assert(rw * rh >= 0) by (nonlinear_arith)
            requires
                rw >= 0,
                rh >= 0,
        ;
    }
    Picture { width: rw as u32, height: rh as u32, data: crop_rgb(picture, b.0, b.1, rw, rh) }
}

/// What one channel says of the coverage.
pub open spec fn channel_share(seen: Number, color: Number, bg: Number) -> Number {
    seen.spec_minus(bg).spec_short().spec_over(
        color.spec_minus(bg).spec_short().spec_max(level(1, 1000)),
    ).spec_short()
}

fn channel_share_of(seen: u8, color: Number, bg: Number) -> (r: Number)
    ensures
        r == channel_share(Number::spec_int(seen as int), color, bg),
{
    Number::from_int(seen as i64).minus(bg).short().over(
        color.minus(bg).short().max(level_of(1, 1000)),
    ).short()
}

/// The coverage of pixel `i` by a mark of one colour over a background.
pub open spec fn solid_alpha(seen: Seq<u8>, color: Rgb, bg: Seq<Number>, i: int) -> Number {
    let zero = Number::spec_int(0);
    let a = channel_share(Number::spec_int(seen[3 * i] as int), color.0, bg[3 * i]);
    let b = channel_share(Number::spec_int(seen[3 * i + 1] as int), color.1, bg[3 * i + 1]);
    let c = channel_share(Number::spec_int(seen[3 * i + 2] as int), color.2, bg[3 * i + 2]);
    unit(
        total3(zero.spec_plus(a).spec_short(), b, c).spec_over(Number::spec_int(3)).spec_short(),
    )
}

pub open spec fn solid_alphas(seen: Seq<u8>, color: Rgb, bg: Seq<Number>, n: int) -> Seq<Number> {
    Seq::new(n as nat, |i: int| solid_alpha(seen, color, bg, i))
}

fn solid_alphas_of(seen: &[u8], color: Rgb, bg: &[Number], n: usize) -> (r: Vec<Number>)
    requires
        seen@.len() == 3 * n,
        bg@.len() == 3 * n,
    ensures
        r@ == solid_alphas(seen@, color, bg@, n as int),
{
    let total: usize = seen.len();
    let mut out: Vec<Number> = Vec::new();
    let ghost goal = solid_alphas(seen@, color, bg@, n as int);
    let mut i: usize = 0;
    while i < n
        invariant
            total == 3 * n,
            seen@.len() == total,
            bg@.len() == total,
            goal == solid_alphas(seen@, color, bg@, n as int),
            i <= n,
            out@ == goal.take(i as int),
        decreases n - i,
    {
        let a = channel_share_of(seen[3 * i], color.0, bg[3 * i]);
        let b = channel_share_of(seen[3 * i + 1], color.1, bg[3 * i + 1]);
        let c = channel_share_of(seen[3 * i + 2], color.2, bg[3 * i + 2]);
        let sum = Number::from_int(0).plus(a).short().plus(b).short().plus(c).short();
        out.push(sum.over(Number::from_int(3)).short().clamp(
            Number::from_int(0),
            Number::from_int(1),
        ));
        i = i + 1;
        proof {
            assert(out@ =~= goal.take(i as int));
        }
    }
    proof {
        assert(out@ =~= goal);
    }
    out
}

/// The part of a coverage that is kept; nothing of one without covered cells.
pub open spec fn kept_box(cover: Seq<Number>, w: int, h: int) -> Edges {
    match covered_box(cover, w, h) {
        Some(b) => b,
        None => (0, 0, 0, 0),
    }
}

pub(crate) fn crop_mark(cover: &[Number], color: &[Number], w: usize, h: usize) -> (m: CutMark)
    requires
        cover@.len() == w * h,
        color@.len() == w * h * 3,
        w <= 0xffff_ffff,
        h <= 0xffff_ffff,
    ensures
        ({
            let b = kept_box(cover@, w as int, h as int);
            &&& m.alpha@ == cut_plane(cover@, w as int, 1, b)
            &&& m.color@ == cut_plane(color@, w as int, 3, b)
            &&& m.w == b.2 - b.0
            &&& m.h == b.3 - b.1
            &&& m.x0 == b.0
            &&& m.y0 == b.1
        }),
        m.x0 + m.w <= w,
        m.y0 + m.h <= h,
        m.alpha@.len() == m.w * m.h,
        m.color@.len() == 3 * (m.w * m.h),
{
    match crop_to_alpha(cover, color, w, h) {
        Some(mark) => mark,
        None => {
            let alpha: Vec<Number> = Vec::new();
            let colors: Vec<Number> = Vec::new();
            proof {
                let none: Edges = (0, 0, 0, 0);
                let (cw, ch) = (none.2 - none.0, none.3 - none.1);
                assert(cw * ch * 1 == 0 && cw * ch * 3 == 0) by (nonlinear_arith)
                    requires
                        cw == 0,
                ;
                assert(alpha@ =~= cut_plane(cover@, w as int, 1, none));
                assert(colors@ =~= cut_plane(color@, w as int, 3, none));
            }
            CutMark { alpha, color: colors, w: 0, h: 0, x0: 0, y0: 0 }
        },
    }
}

/// The distance of two colours, channel by channel.
pub open spec fn color_distance(a: Rgb, b: Rgb) -> Number {
    total3(
        a.0.spec_minus(b.0).spec_short().spec_abs(),
        a.1.spec_minus(b.1).spec_short().spec_abs(),
        a.2.spec_minus(b.2).spec_short().spec_abs(),
    )
}

pub open spec fn solid_source(name: Seq<char>) -> Seq<char> {
    "learn-solid: "@ + name
}

/// Learns a mark of a known colour on a known ground.
pub fn extract_from_solid(
    picture: &Picture,
    given: GivenBox,
    bg: Rgb,
    color: Rgb,
    ref_short_side: Option<Number>,
    label: &str,
    least: usize,
    name: &str,
) -> (r: Result<Profile, String>)
    requires
        picture.wf(),
    ensures
        ({
            let b = meant_edges(given, picture.width as int, picture.height as int);
            let n = box_area(b);
            let cover = cleaned(
                solid_alphas(box_bytes(picture, b), color, flat_plane(bg, n), n),
                b.2 - b.0,
                level(2, 100),
                least as int,
            );
            if b.2 <= b.0 + 2 || b.3 <= b.1 + 2 {
                crate::text::fails_with(r, "invalid box"@)
            } else if color_distance(color, bg).spec_lt(Number::spec_int(8)) {
                crate::text::fails_with(r, "watermark color and background are too close"@)
            } else {
                r matches Ok(p) && holds_mark(
                    p,
                    label@,
                    solid_source(name@),
                    match ref_short_side {
                        Some(v) => v,
                        None => Number::spec_int(1600),
                    },
                    None,
                    cover,
                    flat_plane(color, n),
                    b.2 - b.0,
                    kept_box(cover, b.2 - b.0, b.3 - b.1),
                )
            }
        }),
{
    let b = resolve_box(given, picture.width as usize, picture.height as usize);
    if b.2 - b.0 <= 2 || b.3 - b.1 <= 2 {
        return Err(String::from_str("invalid box"));
    }
    let d0 = color.0.minus(bg.0).short().abs();
    let d1 = color.1.minus(bg.1).short().abs();
    let d2 = color.2.minus(bg.2).short().abs();
    if d0.plus(d1).short().plus(d2).short().less(Number::from_int(8)) {
        return Err(String::from_str("watermark color and background are too close"));
    }
    let (rw, rh): (usize, usize) = (b.2 - b.0, b.3 - b.1);
    let win = window(picture, b);
    let total: usize = win.data.len();
    let n: usize = total / 3;
    let ground = flat_plane_of(bg, n);
    let mut cover = solid_alphas_of(win.data.as_slice(), color, ground.as_slice(), n);
    clean_alpha(&mut cover, rw, rh, level_of(2, 100), least);
    let colors = flat_plane_of(color, n);
    let mark = crop_mark(cover.as_slice(), colors.as_slice(), rw, rh);
    let reference = match ref_short_side {
        Some(v) => v,
        None => Number::from_int(1600),
    };
    let mut source = String::from_str("learn-solid: ");
    source.append(name);
    Ok(mark_profile(mark, label, source, reference, None, Ghost((rw as int, rh as int))))
}

/// Channel `c` of a plane.
pub open spec fn channel_values(plane: Seq<Number>, c: int) -> Seq<Number> {
    Seq::new(plane.len() / 3, |i: int| plane[3 * i + c])
}

fn channel_values_of(plane: &[Number], c: usize) -> (r: Vec<Number>)
    requires
        c < 3,
    ensures
        r@ == channel_values(plane@, c as int),
{
    let total: usize = plane.len();
    let n: usize = total / 3;
    let mut out: Vec<Number> = Vec::new();
    let mut i: usize = 0;
    while i < n
        invariant
            n == plane@.len() / 3,
            total == plane@.len(),
            n == total / 3,
            c < 3,
            i <= n,
            out@ == channel_values(plane@, c as int).take(i as int),
        decreases n - i,
    {
        out.push(plane[3 * i + c]);
        i = i + 1;
        proof {
            assert(out@ =~= channel_values(plane@, c as int).take(i as int));
        }
    }
    proof {
        assert(out@ =~= channel_values(plane@, c as int));
    }
    out
}

/// The median of each channel of a plane.
pub open spec fn plane_median(plane: Seq<Number>) -> Rgb {
    (
        median_of(channel_values(plane, 0)),
        median_of(channel_values(plane, 1)),
        median_of(channel_values(plane, 2)),
    )
}

fn plane_median_of(plane: &[Number]) -> (r: Rgb)
    ensures
        r == plane_median(plane@),
{
    (
        median(channel_values_of(plane, 0).as_slice()),
        median(channel_values_of(plane, 1).as_slice()),
        median(channel_values_of(plane, 2).as_slice()),
    )
}

/// How far a colour is above a background, by the mean of the channels.
pub open spec fn mean_lift(color: Rgb, r: Number, g: Number, b: Number) -> Number {
    total3(
        Number::spec_int(0).spec_plus(color.0.spec_minus(r).spec_short()).spec_short(),
        color.1.spec_minus(g).spec_short(),
        color.2.spec_minus(b).spec_short(),
    ).spec_over(Number::spec_int(3)).spec_short()
}

fn mean_lift_of(color: Rgb, r: Number, g: Number, b: Number) -> (v: Number)
    ensures
        v == mean_lift(color, r, g, b),
{
    Number::from_int(0).plus(color.0.minus(r).short()).short().plus(
        color.1.minus(g).short(),
    ).short().plus(color.2.minus(b).short()).short().over(Number::from_int(3)).short()
}

pub open spec fn lifts(color: Rgb, plane: Seq<Number>) -> Seq<Number> {
    Seq::new(
        plane.len() / 3,
        |i: int| mean_lift(color, plane[3 * i], plane[3 * i + 1], plane[3 * i + 2]),
    )
}

fn lifts_of(color: Rgb, plane: &[Number]) -> (r: Vec<Number>)
    ensures
        r@ == lifts(color, plane@),
{
    let total: usize = plane.len();
    let n: usize = total / 3;
    let mut out: Vec<Number> = Vec::new();
    let mut i: usize = 0;
    while i < n
        invariant
            total == plane@.len(),
            n == total / 3,
            i <= n,
            out@ == lifts(color, plane@).take(i as int),
        decreases n - i,
    {
        out.push(mean_lift_of(color, plane[3 * i], plane[3 * i + 1], plane[3 * i + 2]));
        i = i + 1;
        proof {
            assert(out@ =~= lifts(color, plane@).take(i as int));
        }
    }
    proof {
        assert(out@ =~= lifts(color, plane@));
    }
    out
}

/// The background of a window with its strokes filled in.
pub open spec fn filled_ground(win: &Picture) -> Seq<Number> {
    inpainted(
        plain_numbers(win.data@),
        mark_strokes(win),
        win.width as int,
        win.height as int,
    )
}

/// The distances of the first `n` values of a plane from its medians, summed.
pub open spec fn spread_sum(plane: Seq<Number>, middle: Rgb, n: int) -> Number
    decreases n,
{
    if n <= 0 {
        Number::spec_int(0)
    } else {
        spread_sum(plane, middle, n - 1).spec_plus(
            plane[n - 1].spec_minus(part(middle, (n - 1) % 3)).spec_short().spec_abs(),
        )
    }
}

fn spread_sum_of(plane: &[Number], middle: Rgb) -> (r: Number)
    ensures
        r == spread_sum(plane@, middle, plane@.len() as int),
{
    let n: usize = plane.len();
    let mut sum = Number::from_int(0);
    let mut j: usize = 0;
    while j < n
        invariant
            n == plane@.len(),
            j <= n,
            sum == spread_sum(plane@, middle, j as int),
        decreases n - j,
    {
        sum = sum.plus(plane[j].minus(part_of(middle, j % 3)).short().abs());
        j = j + 1;
    }
    sum
}

/// How suitable a sample is to learn a mark from.
#[derive(Clone, Copy)]
pub struct Score {
    pub frame: Corners,
    pub coverage: Number,
    pub bg_median: Rgb,
    pub uniformity: Number,
    pub contrast: Number,
}

/// The score of a window: how much of it strokes take, how even its background
/// is, and how far the mark's colour is above it.
pub open spec fn is_score(win: &Picture, b: Edges, color: Rgb, s: Score) -> bool {
    let n = win.area();
    let ground = filled_ground(win);
    let middle = plane_median(ground);
    &&& edges(s.frame) == b
    &&& s.coverage == Number::spec_int(set_count(mark_strokes(win), n)).spec_over(
        Number::spec_int(n),
    )
    &&& s.bg_median == middle
    &&& s.uniformity == spread_sum(ground, middle, ground.len() as int).spec_over(
        Number::spec_int(3 * n),
    )
    &&& s.contrast == mean_lift(color, middle.0, middle.1, middle.2)
}

/// The score of a picture, if its box is large enough and holds at least 20
/// stroke pixels.
pub open spec fn is_scored(
    picture: &Picture,
    given: GivenBox,
    color: Rgb,
    r: Option<Score>,
) -> bool {
    let b = meant_edges(given, picture.width as int, picture.height as int);
    if is_small_box(b) {
        r is None
    } else {
        exists|win: Picture|
            {
                &&& #[trigger] is_window(picture, b, &win)
                &&& if set_count(mark_strokes(&win), win.area()) < 20 {
                    r is None
                } else {
                    r matches Some(s) && is_score(&win, b, color, s)
                }
            }
    }
}

/// How suitable a picture is to learn a mark from; nothing for a box that is
/// too small or holds fewer than 20 stroke pixels.
pub fn background_score(picture: &Picture, given: GivenBox, color: Rgb) -> (r: Option<Score>)
    requires
        picture.wf(),
    ensures
        is_scored(picture, given, color, r),
        r matches Some(s) ==> s.frame.0 <= s.frame.2 <= picture.width && s.frame.1 <= s.frame.3
            <= picture.height,
{
    let b = resolve_box(given, picture.width as usize, picture.height as usize);
    if b.2 - b.0 <= 4 || b.3 - b.1 <= 4 {
        return None;
    }
    let win = window(picture, b);
    let (rw, rh): (usize, usize) = (b.2 - b.0, b.3 - b.1);
    let total: usize = win.data.len();
    let n: usize = total / 3;
    proof {
        crate::raster::lemma_measurable_sides(rw as int, rh as int);
    }
    let strokes = mark_strokes_of(&win);
    let count: usize = count_set(strokes.as_slice());
    if count < 20 {
        return None;
    }
    let seen = numbers_of(win.data.as_slice());
    let ground = fill_inpaint(seen.as_slice(), rw, rh, strokes.as_slice());
    let middle = plane_median_of(ground.as_slice());
    let uniformity = spread_sum_of(ground.as_slice(), middle).over(Number::from_count(total));
    let contrast = mean_lift_of(color, middle.0, middle.1, middle.2);
    Some(
        Score {
            frame: b,
            coverage: Number::from_count(count).over(Number::from_count(n)),
            bg_median: middle,
            uniformity,
            contrast,
        },
    )
}

/// What a sample on an even ground was measured to be.
#[derive(Clone, Copy)]
pub struct UniformFit {
    pub frame: Corners,
    pub coverage: Number,
    pub bg_median: Rgb,
    pub residual: Number,
}

/// What came of a sample on an even ground.
pub enum UniformResult {
    Refused { why: Refusal },
    Unfit { fit: UniformFit },
    Learned { fit: UniformFit, profile: Profile, stroke_box: Corners },
}

/// The coverage of a window by a mark of one colour, without specks.
pub open spec fn uniform_cover(
    win: &Picture,
    color: Rgb,
    ground: Seq<Number>,
    least: int,
) -> Seq<Number> {
    cleaned(
        solid_alphas(win.data@, color, ground, win.area()),
        win.width as int,
        level(2, 100),
        least,
    )
}

pub open spec fn is_uniform_fit(
    win: &Picture,
    b: Edges,
    color: Rgb,
    ground: Seq<Number>,
    cover: Seq<Number>,
    fit: UniformFit,
) -> bool {
    let n = win.area();
    &&& edges(fit.frame) == b
    &&& fit.coverage == Number::spec_int(set_count(above(cover, level(3, 10)), n)).spec_over(
        Number::spec_int(n),
    )
    &&& fit.bg_median == plane_median(ground)
    &&& fit.residual == mean_miss(
        miss_sum(
            Number::spec_int(0),
            cover,
            flat_plane(color, n),
            ground,
            win.data@,
            level(3, 10),
            win.data@.len() as int,
        ),
        set_count(beyond(cover, level(3, 10)), n),
    )
}

pub open spec fn uniform_source(name: Seq<char>) -> Seq<char> {
    "auto: "@ + name
}

/// What comes of a window of a picture of `w` x `h`, over a known background.
pub open spec fn is_uniform_result(
    win: &Picture,
    w: int,
    h: int,
    b: Edges,
    color: Rgb,
    ground: Seq<Number>,
    least: int,
    max_resid: Number,
    ref_short_side: Option<Number>,
    label: Seq<char>,
    name: Seq<char>,
    r: UniformResult,
) -> bool {
    let n = win.area();
    let cover = uniform_cover(win, color, ground, least);
    if median_of(lifts(color, ground)).spec_lt(Number::spec_int(8)) {
        r matches UniformResult::Refused { why: Refusal::ColorTooClose }
    } else if set_count(above(cover, level(3, 10)), n) < 20 {
        r matches UniformResult::Refused { why: Refusal::TooLittleCoverage }
    } else {
        match r {
            UniformResult::Refused { .. } => false,
            UniformResult::Unfit { fit } => {
                &&& is_uniform_fit(win, b, color, ground, cover, fit)
                &&& max_resid.spec_lt(fit.residual)
            },
            UniformResult::Learned { fit, profile, stroke_box } => {
                let cut = kept_box(cover, b.2 - b.0, b.3 - b.1);
                &&& is_uniform_fit(win, b, color, ground, cover, fit)
                &&& !max_resid.spec_lt(fit.residual)
                &&& edges(stroke_box) == placed_box(b, cut)
                &&& holds_mark(
                    profile,
                    label,
                    uniform_source(name),
                    match ref_short_side {
                        Some(v) => v,
                        None => Number::spec_int(smaller(w, h)),
                    },
                    Some(told_place(w, h, placed_box(b, cut))),
                    cover,
                    flat_plane(color, n),
                    b.2 - b.0,
                    cut,
                )
            },
        }
    }
}

fn fit_uniform(
    win: &Picture,
    size: (usize, usize),
    b: Corners,
    color: Rgb,
    ground: &[Number],
    least: usize,
    max_resid: Number,
    ref_short_side: Option<Number>,
    label: &str,
    name: &str,
) -> (r: UniformResult)
    requires
        win.wf(),
        b.0 < b.2 <= size.0,
        b.1 < b.3 <= size.1,
        win.width == b.2 - b.0,
        win.height == b.3 - b.1,
        ground@.len() == win.data@.len(),
    ensures
        is_uniform_result(
            win,
            size.0 as int,
            size.1 as int,
            edges(b),
            color,
            ground@,
            least as int,
            max_resid,
            ref_short_side,
            label@,
            name@,
            r,
        ),
{
    let (rw, rh): (usize, usize) = (b.2 - b.0, b.3 - b.1);
    let total: usize = win.data.len();
    let n: usize = total / 3;
    if median(lifts_of(color, ground).as_slice()).less(Number::from_int(8)) {
        return UniformResult::Refused { why: Refusal::ColorTooClose };
    }
    let mut cover = solid_alphas_of(win.data.as_slice(), color, ground, n);
    clean_alpha(&mut cover, rw, rh, level_of(2, 100), least);
    let inked = cells_above(cover.as_slice(), level_of(3, 10));
    let core: usize = count_set(inked.as_slice());
    if core < 20 {
        return UniformResult::Refused { why: Refusal::TooLittleCoverage };
    }
    let colors = flat_plane_of(color, n);
    let sum = add_misses(
        Number::from_int(0),
        cover.as_slice(),
        colors.as_slice(),
        ground,
        win.data.as_slice(),
        level_of(3, 10),
    );
    let residual = mean_miss_of(sum, count_beyond(cover.as_slice(), level_of(3, 10)));
    let fit = UniformFit {
        frame: b,
        coverage: Number::from_count(core).over(Number::from_count(n)),
        bg_median: plane_median_of(ground),
        residual,
    };
    if max_resid.less(residual) {
        return UniformResult::Unfit { fit };
    }
    let mark = crop_mark(cover.as_slice(), colors.as_slice(), rw, rh);
    let stroke_box: Corners = (
        b.0 + mark.x0,
        b.1 + mark.y0,
        b.0 + mark.x0 + mark.w,
        b.1 + mark.y0 + mark.h,
    );
    let place = place_at(size.0, size.1, stroke_box);
    let reference = match ref_short_side {
        Some(v) => v,
        None => Number::from_count(
            if size.1 < size.0 {
                size.1
            } else {
                size.0
            },
        ),
    };
    let mut source = String::from_str("auto: ");
    source.append(name);
    let profile = mark_profile(
        mark,
        label,
        source,
        reference,
        Some(place),
        Ghost((rw as int, rh as int)),
    );
    UniformResult::Learned { fit, profile, stroke_box }
}

/// What comes of a sample on an even ground, which is given or is what the
/// strokes leave when they are filled in.
pub open spec fn is_uniform_outcome(
    picture: &Picture,
    given: GivenBox,
    color: Rgb,
    ref_short_side: Option<Number>,
    label: Seq<char>,
    least: int,
    bg: Option<Rgb>,
    max_resid: Number,
    name: Seq<char>,
    r: UniformResult,
) -> bool {
    let (w, h) = (picture.width as int, picture.height as int);
    let b = meant_edges(given, w, h);
    if is_small_box(b) {
        r matches UniformResult::Refused { why: Refusal::InvalidBox }
    } else {
        exists|win: Picture|
            {
                &&& #[trigger] is_window(picture, b, &win)
                &&& if bg is None && set_count(mark_strokes(&win), win.area()) < 20 {
                    r matches UniformResult::Refused { why: Refusal::NoStrokes }
                } else {
                    is_uniform_result(
                        &win,
                        w,
                        h,
                        b,
                        color,
                        match bg {
                            Some(c) => flat_plane(c, win.area()),
                            None => filled_ground(&win),
                        },
                        least,
                        max_resid,
                        ref_short_side,
                        label,
                        name,
                        r,
                    )
                }
            }
    }
}

/// Learns a mark of a known colour on an even ground, which is given or is what
/// the strokes leave when they are filled in.
pub fn build_from_uniform(
    picture: &Picture,
    given: GivenBox,
    color: Rgb,
    ref_short_side: Option<Number>,
    label: &str,
    least: usize,
    bg: Option<Rgb>,
    max_resid: Number,
    name: &str,
) -> (r: UniformResult)
    requires
        picture.wf(),
    ensures
        is_uniform_outcome(
            picture,
            given,
            color,
            ref_short_side,
            label@,
            least as int,
            bg,
            max_resid,
            name@,
            r,
        ),
{
    let (w, h): (usize, usize) = (picture.width as usize, picture.height as usize);
    let b = resolve_box(given, w, h);
    if b.2 - b.0 <= 4 || b.3 - b.1 <= 4 {
        return UniformResult::Refused { why: Refusal::InvalidBox };
    }
    let win = window(picture, b);
    let (rw, rh): (usize, usize) = (b.2 - b.0, b.3 - b.1);
    let total: usize = win.data.len();
    let n: usize = total / 3;
    proof {
        crate::raster::lemma_measurable_sides(rw as int, rh as int);
    }
    let ground: Vec<Number> = match bg {
        Some(c) => flat_plane_of(c, n),
        None => {
            let strokes = mark_strokes_of(&win);
            if count_set(strokes.as_slice()) < 20 {
                return UniformResult::Refused { why: Refusal::NoStrokes };
            }
            let seen = numbers_of(win.data.as_slice());
            fill_inpaint(seen.as_slice(), rw, rh, strokes.as_slice())
        },
    };
    fit_uniform(
        &win,
        (w, h),
        b,
        color,
        ground.as_slice(),
        least,
        max_resid,
        ref_short_side,
        label,
        name,
    )
}

/// The colour that a mark is unmixed to is near the one that solves the blend.
proof fn lemma_unmixed_close(seen: u8, a: Number, bg: Number)
    requires
        sound(a),
        sound(bg),
        (0 as real) <= amount(a) <= (1 as real),
        (0 as real) <= amount(bg) <= (255 as real),
    ensures
        ({
            let k = unmixed(Number::spec_int(seen as int), a, bg);
            let cover = amount(a);
            let left = (seen as real) - ((1 as real) - cover) * amount(bg);
            let eps = (1 as real) / (1000 as real);
            &&& sound(k)
            &&& (0 as real) <= amount(k) <= (255 as real)
            &&& cover >= (301 as real) / (10000 as real) && (0 as real) <= left <= (255 as real)
                * cover ==> within(cover * amount(k), left, eps)
            &&& cover >= (301 as real) / (10000 as real) && left <= (0 as real) - eps ==> amount(k)
                == (0 as real)
            &&& cover >= (301 as real) / (10000 as real) && left >= (255 as real) * cover + eps
                ==> amount(k) == (255 as real)
            &&& cover <= (299 as real) / (10000 as real) ==> amount(k) == (0 as real)
        }),
{
    let (n0, n1, n255, ns) = (
        Number::spec_int(0),
        Number::spec_int(1),
        Number::spec_int(255),
        Number::spec_int(seen as int),
    );
    lemma_int_amount(0);
    lemma_int_amount(1);
    lemma_int_amount(255);
    lemma_int_amount(seen as int);
    let (x, g, s) = (amount(a), amount(bg), seen as real);
    let least = level(3, 100);
    let floor = level(1, 1000);
    lemma_ratio_close(3, 100);
    lemma_ratio_close(1, 1000);
    lemma_order_by_amount(a, least);
    lemma_max_by_amount(a, floor);
    lemma_difference_close(n1, a);
    let rest = n1.spec_minus(a).spec_short();
    let rr = amount(rest);
    let tiny = (1 as real) / (0x20_0000 as real);
    assert(within(rr, (1 as real) - x, tiny));
    let whole_share = ((1 as real) - x) * g;
    assert(rr * g - whole_share <= (1 as real) / (0x2000 as real) && whole_share - rr * g <= (1
        as real) / (0x2000 as real) && (0 as real) - (1 as real) <= rr * g && rr * g <= (256
        as real)) by (nonlinear_arith)
        requires
            whole_share == ((1 as real) - x) * g,
            (0 as real) <= x,
            x <= (1 as real),
            (0 as real) <= g,
            g <= (255 as real),
            rr - ((1 as real) - x) <= (1 as real) / (0x20_0000 as real),
            ((1 as real) - x) - rr <= (1 as real) / (0x20_0000 as real),
    ;
    lemma_product_close(rest, bg);
    let share = rest.spec_times(bg).spec_short();
    lemma_difference_close(ns, share);
    let n = ns.spec_minus(share).spec_short();
    let (nr, left) = (amount(n), s - whole_share);
    let off = (1 as real) / (0x1000 as real);
    assert(within(nr, left, off));
    if x >= (301 as real) / (10000 as real) {
        assert(a.spec_max(floor) == a) by {
            crate::number::lemma_operations(a, floor);
            lemma_order_by_amount(a, floor);
        }
        let q = nr / x;
        assert(nr == q * x) by (nonlinear_arith)
            requires
                q == nr / x,
                x > (0 as real),
        ;
        assert((0 as real) - (10000 as real) <= q && q <= (10000 as real)) by (nonlinear_arith)
            requires
                nr == q * x,
                x >= (3 as real) / (100 as real),
                (0 as real) - (257 as real) <= nr,
                nr <= (257 as real),
        ;
        lemma_quotient_close(n, a);
        let v = n.spec_over(a).spec_short();
        let vr = amount(v);
        lemma_clamp_by_amount(v, n0, n255);
        if (0 as real) <= left <= (255 as real) * x {
            let top = (255 as real) + (1 as real) / (100 as real);
            assert((0 as real) - (1 as real) / (100 as real) <= q && q <= top) by (nonlinear_arith)
                requires
                    top == (255 as real) + (1 as real) / (100 as real),
                    nr == q * x,
                    x >= (3 as real) / (100 as real),
                    nr <= (255 as real) * x + (1 as real) / (0x1000 as real),
                    nr >= (0 as real) - (1 as real) / (0x1000 as real),
            ;
            let k = if vr < (0 as real) {
                0 as real
            } else if vr > (255 as real) {
                255 as real
            } else {
                vr
            };
            assert(within(vr, q, (1 as real) / (10000 as real)));
            assert(x * k - left <= (1 as real) / (1000 as real) && left - x * k <= (1 as real) / (
            1000 as real)) by (nonlinear_arith)
                requires
                    nr == q * x,
                    x >= (3 as real) / (100 as real),
                    x <= (1 as real),
                    nr - left <= (1 as real) / (0x1000 as real),
                    left - nr <= (1 as real) / (0x1000 as real),
                    (0 as real) <= left,
                    left <= (255 as real) * x,
                    vr - q <= (1 as real) / (10000 as real),
                    q - vr <= (1 as real) / (10000 as real),
                    k == (if vr < (0 as real) {
                        0 as real
                    } else if vr > (255 as real) {
                        255 as real
                    } else {
                        vr
                    }),
            ;
        }
        if left <= (0 as real) - (1 as real) / (1000 as real) {
            assert(q < (0 as real) - (1 as real) / (10000 as real)) by (nonlinear_arith)
                requires
                    nr == q * x,
                    x > (0 as real),
                    x <= (1 as real),
                    nr <= (0 as real) - (2 as real) / (10000 as real),
            ;
        }
        if left >= (255 as real) * x + (1 as real) / (1000 as real) {
            assert(q >= (255 as real) + (5 as real) / (10000 as real)) by (nonlinear_arith)
                requires
                    nr == q * x,
                    x > (0 as real),
                    x <= (1 as real),
                    nr >= (255 as real) * x + (5 as real) / (10000 as real),
            ;
        }
    } else if x > (299 as real) / (10000 as real) {
        // the coverage is too near the level to tell
        if !a.spec_le(least) {
            assert(a.spec_max(floor) == a) by {
                crate::number::lemma_operations(a, floor);
                lemma_order_by_amount(a, floor);
            }
            let q = nr / x;
            assert(nr == q * x) by (nonlinear_arith)
                requires
                    q == nr / x,
                    x > (0 as real),
            ;
            assert((0 as real) - (10000 as real) <= q && q <= (10000 as real)) by (nonlinear_arith)
                requires
                    nr == q * x,
                    x >= (29 as real) / (1000 as real),
                    (0 as real) - (257 as real) <= nr,
                    nr <= (257 as real),
            ;
            lemma_quotient_close(n, a);
            lemma_clamp_by_amount(n.spec_over(a).spec_short(), n0, n255);
        }
    }
}

/// A learned colour explains its own sample in each channel. Where the coverage
/// is more than three hundredths and some colour can explain what is seen, the
/// learned colour over the dark ground's channel gives the byte that was seen.
/// Where the sample is too dark for any colour it is zero, where it is too light
/// 255, and where there is hardly any coverage zero.
pub proof fn lemma_colors_explain_the_sample(
    black: Seq<u8>,
    alpha: Seq<Number>,
    bg: Rgb,
    color: Seq<Number>,
    i: int,
    c: int,
)
    requires
        color == pair_colors(black, alpha, bg),
        0 <= i < alpha.len(),
        0 <= c < 3,
        sound(alpha[i]),
        (0 as real) <= amount(alpha[i]) <= (1 as real),
        sound(bg.0) && (0 as real) <= amount(bg.0) <= (255 as real),
        sound(bg.1) && (0 as real) <= amount(bg.1) <= (255 as real),
        sound(bg.2) && (0 as real) <= amount(bg.2) <= (255 as real),
    ensures
        ({
            let (seen, k, a) = (
                black[3 * i + c] as real,
                amount(color[3 * i + c]),
                amount(alpha[i]),
            );
            let under = amount(
                if c == 0 {
                    bg.0
                } else if c == 1 {
                    bg.1
                } else {
                    bg.2
                },
            );
            let ground = ((1 as real) - a) * under;
            let eps = (1 as real) / (1000 as real);
            &&& sound(color[3 * i + c])
            &&& (0 as real) <= k <= (255 as real)
            &&& a >= (301 as real) / (10000 as real) && ground <= seen <= ground + (255 as real) * a
                ==> within(a * k + ground, seen, eps)
            &&& a >= (301 as real) / (10000 as real) && seen <= ground - eps ==> k == (0 as real)
            &&& a >= (301 as real) / (10000 as real) && seen >= ground + (255 as real) * a + eps
                ==> k == (255 as real)
            &&& a <= (299 as real) / (10000 as real) ==> k == (0 as real)
        }),
{
    assert((3 * i + c) / 3 == i && (3 * i + c) % 3 == c);
    let under = if c == 0 {
        bg.0
    } else if c == 1 {
        bg.1
    } else {
        bg.2
    };
    lemma_unmixed_close(black[3 * i + c], alpha[i], under);
}

/// The coverage at a pixel is near what is missing of the step between the two
/// grounds, by the mean of the three channels.
proof fn lemma_pair_alpha_close(black: Seq<u8>, white: Seq<u8>, delta: Number, i: int)
    requires
        sound(delta),
        (1 as real) <= amount(delta) <= (255 as real),
    ensures
        ({
            let total = (white[3 * i] + white[3 * i + 1] + white[3 * i + 2]) - (black[3 * i]
                + black[3 * i + 1] + black[3 * i + 2]);
            let missing = (1 as real) - (total as real) / (3 as real) / amount(delta);
            let a = pair_alpha(black, white, delta, i);
            &&& sound(a)
            &&& (0 as real) <= amount(a) <= (1 as real)
            &&& within(
                amount(a),
                if missing < (0 as real) {
                    0 as real
                } else if missing > (1 as real) {
                    1 as real
                } else {
                    missing
                },
                (1 as real) / (5000 as real),
            )
        }),
{
    let total = (white[3 * i] + white[3 * i + 1] + white[3 * i + 2]) - (black[3 * i] + black[3 * i
        + 1] + black[3 * i + 2]);
    let (n0, n1, n3, nt) = (
        Number::spec_int(0),
        Number::spec_int(1),
        Number::spec_int(3),
        Number::spec_int(total),
    );
    lemma_int_amount(0);
    lemma_int_amount(1);
    lemma_int_amount(3);
    lemma_int_amount(total);
    let (t, d) = ((total as real) / (3 as real), amount(delta));
    lemma_quotient_close(nt, n3);
    let diff = nt.spec_over(n3).spec_short();
    let dr = amount(diff);
    assert(within(dr, t, (1 as real) / (0x4000 as real)));
    let (q, m) = (dr / d, t / d);
    assert(dr == q * d && t == m * d) by (nonlinear_arith)
        requires
            q == dr / d,
            m == t / d,
            d > (0 as real),
    ;
    assert((0 as real) - (256 as real) <= q && q <= (256 as real) && q - m <= (1 as real) / (0x4000
        as real) && m - q <= (1 as real) / (0x4000 as real)) by (nonlinear_arith)
        requires
            dr == q * d,
            t == m * d,
            d >= (1 as real),
            dr - t <= (1 as real) / (0x4000 as real),
            t - dr <= (1 as real) / (0x4000 as real),
            (0 as real) - (255 as real) <= t,
            t <= (255 as real),
    ;
    lemma_quotient_close(diff, delta);
    let f = diff.spec_over(delta).spec_short();
    lemma_difference_close(n1, f);
    lemma_clamp_by_amount(n1.spec_minus(f).spec_short(), n0, n1);
}

/// The two samples of a pair show the coverage. If every channel of a pixel is
/// seen on each ground as the same logo blended over that ground, rounded, then
/// the coverage that is found is the logo's, up to the roundings over the step
/// between the grounds.
pub proof fn lemma_pair_shows_the_coverage(
    black: Seq<u8>,
    white: Seq<u8>,
    delta: Number,
    alpha: Seq<Number>,
    i: int,
    a: real,
    logo: (real, real, real),
    dark: (real, real, real),
    light: (real, real, real),
)
    requires
        0 <= i < alpha.len(),
        alpha == pair_alphas(black, white, delta, alpha.len() as int),
        sound(delta),
        (1 as real) <= amount(delta) <= (255 as real),
        (light.0 + light.1 + light.2) - (dark.0 + dark.1 + dark.2) == (3 as real) * amount(delta),
        (0 as real) <= a <= (1 as real),
        ({
            let half = (1 as real) / (2 as real);
            &&& within(black[3 * i] as real, a * logo.0 + ((1 as real) - a) * dark.0, half)
            &&& within(black[3 * i + 1] as real, a * logo.1 + ((1 as real) - a) * dark.1, half)
            &&& within(black[3 * i + 2] as real, a * logo.2 + ((1 as real) - a) * dark.2, half)
            &&& within(white[3 * i] as real, a * logo.0 + ((1 as real) - a) * light.0, half)
            &&& within(white[3 * i + 1] as real, a * logo.1 + ((1 as real) - a) * light.1, half)
            &&& within(white[3 * i + 2] as real, a * logo.2 + ((1 as real) - a) * light.2, half)
        }),
    ensures
        sound(alpha[i]),
        within(
            amount(alpha[i]),
            a,
            (1 as real) / amount(delta) + (1 as real) / (5000 as real),
        ),
{
    lemma_pair_alpha_close(black, white, delta, i);
    let total = (white[3 * i] + white[3 * i + 1] + white[3 * i + 2]) - (black[3 * i] + black[3 * i
        + 1] + black[3 * i + 2]);
    let (d, tr, b) = (amount(delta), total as real, (1 as real) - a);
    assert((b * light.0 + b * light.1 + b * light.2) - (b * dark.0 + b * dark.1 + b * dark.2) == b
        * ((3 as real) * d)) by (nonlinear_arith)
        requires
            (light.0 + light.1 + light.2) - (dark.0 + dark.1 + dark.2) == (3 as real) * d,
    ;
    assert(tr - b * ((3 as real) * d) <= (3 as real) && b * ((3 as real) * d) - tr <= (3 as real));
    let (t, far) = (tr / (3 as real), (1 as real) / d);
    let m = t / d;
    assert(t == m * d && far * d == (1 as real)) by (nonlinear_arith)
        requires
            m == t / d,
            far == (1 as real) / d,
            d > (0 as real),
    ;
    assert(m - b <= far && b - m <= far) by (nonlinear_arith)
        requires
            t == m * d,
            far * d == (1 as real),
            d > (0 as real),
            t == tr / (3 as real),
            tr - b * ((3 as real) * d) <= (3 as real),
            b * ((3 as real) * d) - tr <= (3 as real),
    ;
}

/// A learned pair explains its dark sample: a colour of the profile, over the
/// ground of its channel with the coverage of its cell, gives what that channel
/// of the dark sample shows at the cell's place.
pub proof fn lemma_learned_pair_explains_its_sample(
    black: &Picture,
    aligned: &Picture,
    b: Edges,
    shift: (int, int),
    least: int,
    max_resid: Number,
    ref_short_side: Option<Number>,
    label: Seq<char>,
    source: Seq<char>,
    fit: PairFit,
    profile: Profile,
    stroke_box: Corners,
    x: int,
    y: int,
    c: int,
)
    requires
        black.wf(),
        0 <= b.0 < b.2 <= black.width,
        0 <= b.1 < b.3 <= black.height,
        is_pair_result(
            black,
            aligned,
            b,
            shift,
            least,
            max_resid,
            ref_short_side,
            label,
            source,
            PairResult::Learned { fit, profile, stroke_box },
        ),
        0 <= x < profile.aw,
        0 <= y < profile.ah,
        0 <= c < 3,
        sound(profile.alpha@[y * profile.aw + x]),
        (301 as real) / (10000 as real) <= amount(profile.alpha@[y * profile.aw + x]) <= (1 as real),
        sound(fit.bg_black.0) && (0 as real) <= amount(fit.bg_black.0) <= (255 as real),
        sound(fit.bg_black.1) && (0 as real) <= amount(fit.bg_black.1) <= (255 as real),
        sound(fit.bg_black.2) && (0 as real) <= amount(fit.bg_black.2) <= (255 as real),
    ensures
        ({
            let at = (stroke_box.1 + y) * black.width + (stroke_box.0 + x);
            let cell = y * profile.aw + x;
            let seen = black.data@[3 * at + c] as real;
            let a = amount(profile.alpha@[cell]);
            let k = amount(profile.color@[3 * cell + c]);
            let under = amount(
                if c == 0 {
                    fit.bg_black.0
                } else if c == 1 {
                    fit.bg_black.1
                } else {
                    fit.bg_black.2
                },
            );
            let ground = ((1 as real) - a) * under;
            ground <= seen <= ground + (255 as real) * a ==> within(
                a * k + ground,
                seen,
                (1 as real) / (1000 as real),
            )
        }),
{
    let (w, bw, bh) = (black.width as int, b.2 - b.0, b.3 - b.1);
    let delta = pair_delta(black, aligned, b);
    let cover = pair_cover(black, aligned, b, delta, least);
    let bytes = box_bytes(black, b);
    let color = pair_colors(bytes, cover, background(black, b));
    let cut = covered_box(cover, bw, bh)->Some_0;
    let (cw, ch) = (cut.2 - cut.0, cut.3 - cut.1);
    let cell = y * cw + x;
    lemma_cell(cw, ch, x, y);
    lemma_cell(bw, bh, cut.0 + x, cut.1 + y);
    let i = (cut.1 + y) * bw + (cut.0 + x);
    assert(cw * ch * 1 == cw * ch && cell / 1 == cell && cell % 1 == 0 && i * 1 == i);
    assert(profile.alpha@[cell] == cover[i]);
    let j = 3 * cell + c;
    assert(j / 3 == cell && j % 3 == c);
    assert(0 <= j < cw * ch * 3);
    assert(profile.color@[j] == color[i * 3 + c]);
    assert(i * 3 + c == 3 * i + c);
    let k = 3 * i + c;
    assert(k / 3 == i && k % 3 == c);
    assert(bytes[k] == black.channel((b.1 + i / bw) * w + (b.0 + i % bw), c));
    assert(cover.len() == bw * bh);
    lemma_colors_explain_the_sample(bytes, cover, background(black, b), color, i, c);
}

/// A colour over a background is near the blend of the two by the coverage.
pub proof fn lemma_blend_is_a_blend(a: Number, color: Number, bg: Number)
    requires
        sound(a),
        sound(color),
        sound(bg),
        (0 as real) <= amount(a) <= (1 as real),
        (0 as real) <= amount(color) <= (255 as real),
        (0 as real) <= amount(bg) <= (255 as real),
    ensures
        sound(blended(a, color, bg)),
        within(
            amount(blended(a, color, bg)),
            amount(a) * amount(color) + ((1 as real) - amount(a)) * amount(bg),
            (1 as real) / (1000 as real),
        ),
{
    let one = Number::spec_int(1);
    lemma_int_amount(1);
    let (x, k, g) = (amount(a), amount(color), amount(bg));
    assert((0 as real) <= x * k && x * k <= (255 as real)) by (nonlinear_arith)
        requires
            (0 as real) <= x,
            x <= (1 as real),
            (0 as real) <= k,
            k <= (255 as real),
    ;
    lemma_product_close(a, color);
    lemma_difference_close(one, a);
    let rest = one.spec_minus(a).spec_short();
    let (r, u) = (amount(rest), (1 as real) - x);
    let full = u * g;
    assert(r * g - full <= (1 as real) / (0x2000 as real) && full - r * g <= (1 as real) / (0x2000
        as real) && (0 as real) - (1 as real) <= r * g && r * g <= (256 as real)) by (nonlinear_arith)
        requires
            full == u * g,
            (0 as real) <= u,
            u <= (1 as real),
            (0 as real) <= g,
            g <= (255 as real),
            r - u <= (1 as real) / (0x20_0000 as real),
            u - r <= (1 as real) / (0x20_0000 as real),
    ;
    lemma_product_close(rest, bg);
    lemma_sum_close(a.spec_times(color).spec_short(), rest.spec_times(bg).spec_short());
}

/// What one channel says of the coverage is near the coverage with which its
/// colour was blended over its background.
proof fn lemma_channel_share_close(seen: u8, color: Number, bg: Number, a: real, step: real)
    requires
        sound(color),
        sound(bg),
        (0 as real) <= amount(color) <= (255 as real),
        (0 as real) <= amount(bg) <= (255 as real),
        (0 as real) <= a <= (1 as real),
        (1 as real) <= step <= (255 as real),
        amount(color) - amount(bg) >= step,
        within(
            seen as real,
            a * amount(color) + ((1 as real) - a) * amount(bg),
            (1 as real) / (2 as real),
        ),
    ensures
        ({
            let s = channel_share(Number::spec_int(seen as int), color, bg);
            &&& sound(s)
            &&& within(
                amount(s),
                a,
                ((1 as real) / (2 as real)) / step + (1 as real) / (1000 as real),
            )
        }),
{
    let ns = Number::spec_int(seen as int);
    lemma_int_amount(seen as int);
    let (k, g) = (amount(color), amount(bg));
    lemma_difference_close(ns, bg);
    lemma_difference_close(color, bg);
    let (n, d) = (ns.spec_minus(bg).spec_short(), color.spec_minus(bg).spec_short());
    let (x, y, full) = (amount(n), amount(d), k - g);
    let tiny = (1 as real) / (0x4000 as real);
    assert(within(x, (seen as real) - g, tiny) && within(y, full, tiny));
    let floor = level(1, 1000);
    lemma_ratio_close(1, 1000);
    lemma_max_by_amount(d, floor);
    assert(d.spec_max(floor) == d) by {
        crate::number::lemma_operations(d, floor);
        lemma_order_by_amount(d, floor);
    }
    let part = a * full;
    assert(a * k + ((1 as real) - a) * g == g + part) by (nonlinear_arith)
        requires
            part == a * full,
            full == k - g,
    ;
    assert((0 as real) <= part && part <= full) by (nonlinear_arith)
        requires
            part == a * full,
            (0 as real) <= a,
            a <= (1 as real),
            full >= (1 as real),
    ;
    let q = x / y;
    assert(x == q * y) by (nonlinear_arith)
        requires
            q == x / y,
            y > (0 as real),
    ;
    let made = a * y;
    assert(made - part <= tiny && part - made <= tiny) by (nonlinear_arith)
        requires
            made == a * y,
            part == a * full,
            (0 as real) <= a,
            a <= (1 as real),
            y - full <= tiny,
            full - y <= tiny,
            tiny > (0 as real),
    ;
    let off = (q - a) * y;
    assert(off == x - made) by (nonlinear_arith)
        requires
            off == (q - a) * y,
            x == q * y,
            made == a * y,
    ;
    let half = (1 as real) / (2 as real);
    assert(off <= half + (2 as real) * tiny && (0 as real) - (half + (2 as real) * tiny) <= off);
    let f = half / step;
    assert(f * step == half && f <= half && f > (0 as real)) by (nonlinear_arith)
        requires
            f == half / step,
            step >= (1 as real),
            half == (1 as real) / (2 as real),
    ;
    let lim = f + (1 as real) / (2000 as real);
    assert(lim * y >= half + (2 as real) * tiny) by {
        assert(f * y >= half - tiny) by (nonlinear_arith)
            requires
                f * step == half,
                y >= step - tiny,
                f <= half,
                f > (0 as real),
                half == (1 as real) / (2 as real),
                tiny > (0 as real),
        ;
        assert(lim * y == f * y + y / (2000 as real)) by (nonlinear_arith)
            requires
                lim == f + (1 as real) / (2000 as real),
        ;
    }
    assert(q - a <= lim && a - q <= lim) by (nonlinear_arith)
        requires
            off == (q - a) * y,
            off <= half + (2 as real) * tiny,
            (0 as real) - (half + (2 as real) * tiny) <= off,
            lim * y >= half + (2 as real) * tiny,
            y > (0 as real),
    ;
    lemma_quotient_close(n, d);
}

/// A mark of one colour shows its coverage. If every channel of a pixel is seen
/// as the colour's channel blended over the background's, rounded, and each
/// colour is at least `step` above its background, then the coverage that is
/// found is the one of the blend, up to a half over the step.
pub proof fn lemma_solid_shows_the_coverage(
    seen: Seq<u8>,
    color: Rgb,
    bg: Seq<Number>,
    alpha: Seq<Number>,
    i: int,
    a: real,
    step: real,
)
    requires
        0 <= i < alpha.len(),
        alpha == solid_alphas(seen, color, bg, alpha.len() as int),
        sound(color.0) && sound(color.1) && sound(color.2),
        sound(bg[3 * i]) && sound(bg[3 * i + 1]) && sound(bg[3 * i + 2]),
        (0 as real) <= amount(color.0) <= (255 as real),
        (0 as real) <= amount(color.1) <= (255 as real),
        (0 as real) <= amount(color.2) <= (255 as real),
        (0 as real) <= amount(bg[3 * i]) <= (255 as real),
        (0 as real) <= amount(bg[3 * i + 1]) <= (255 as real),
        (0 as real) <= amount(bg[3 * i + 2]) <= (255 as real),
        (0 as real) <= a <= (1 as real),
        (1 as real) <= step <= (255 as real),
        amount(color.0) - amount(bg[3 * i]) >= step,
        amount(color.1) - amount(bg[3 * i + 1]) >= step,
        amount(color.2) - amount(bg[3 * i + 2]) >= step,
        ({
            let half = (1 as real) / (2 as real);
            let b = (1 as real) - a;
            &&& within(seen[3 * i] as real, a * amount(color.0) + b * amount(bg[3 * i]), half)
            &&& within(
                seen[3 * i + 1] as real,
                a * amount(color.1) + b * amount(bg[3 * i + 1]),
                half,
            )
            &&& within(
                seen[3 * i + 2] as real,
                a * amount(color.2) + b * amount(bg[3 * i + 2]),
                half,
            )
        }),
    ensures
        sound(alpha[i]),
        within(
            amount(alpha[i]),
            a,
            ((1 as real) / (2 as real)) / step + (1 as real) / (500 as real),
        ),
{
    lemma_channel_share_close(seen[3 * i], color.0, bg[3 * i], a, step);
    lemma_channel_share_close(seen[3 * i + 1], color.1, bg[3 * i + 1], a, step);
    lemma_channel_share_close(seen[3 * i + 2], color.2, bg[3 * i + 2], a, step);
    let f = ((1 as real) / (2 as real)) / step;
    assert(f <= (1 as real) / (2 as real) && f > (0 as real)) by (nonlinear_arith)
        requires
            f == ((1 as real) / (2 as real)) / step,
            step >= (1 as real),
    ;
    let p = channel_share(Number::spec_int(seen[3 * i] as int), color.0, bg[3 * i]);
    let q = channel_share(Number::spec_int(seen[3 * i + 1] as int), color.1, bg[3 * i + 1]);
    let r = channel_share(Number::spec_int(seen[3 * i + 2] as int), color.2, bg[3 * i + 2]);
    let (zero, one, three) = (Number::spec_int(0), Number::spec_int(1), Number::spec_int(3));
    lemma_int_amount(0);
    lemma_int_amount(1);
    lemma_int_amount(3);
    lemma_sum_close(zero, p);
    let s1 = zero.spec_plus(p).spec_short();
    lemma_sum_close(s1, q);
    let s2 = s1.spec_plus(q).spec_short();
    lemma_sum_close(s2, r);
    let s3 = s2.spec_plus(r).spec_short();
    lemma_quotient_close(s3, three);
    let m = s3.spec_over(three).spec_short();
    lemma_clamp_by_amount(m, zero, one);
}

/// A background is told channel by channel: two pictures of one size that agree
/// in one channel outside the box with its eight pixels around it have the same
/// background in that channel, whatever stands in the box and in the others.
pub proof fn lemma_background_by_channel(a: &Picture, b: &Picture, frame: Edges, c: int)
    requires
        a.width == b.width,
        a.height == b.height,
        0 <= c < 3,
        forall|i: int|
            0 <= i < a.area() && !(frame.0 - 8 <= i % (a.width as int) < frame.2 + 8 && frame.1 - 8
                <= i / (a.width as int) < frame.3 + 8) ==> #[trigger] a.data@[3 * i + c] == b.data@[3 * i + c],
    ensures
        c == 0 ==> background(a, frame).0 == background(b, frame).0,
        c == 1 ==> background(a, frame).1 == background(b, frame).1,
        c == 2 ==> background(a, frame).2 == background(b, frame).2,
{
    assert(guard_box(a, frame) == guard_box(b, frame));
    lemma_outside_agrees(a, b, frame, c, a.area());
}

proof fn lemma_outside_agrees(a: &Picture, b: &Picture, frame: Edges, c: int, n: int)
    requires
        a.width == b.width,
        a.height == b.height,
        n <= a.area(),
        forall|i: int|
            0 <= i < a.area() && !(frame.0 - 8 <= i % (a.width as int) < frame.2 + 8 && frame.1 - 8
                <= i / (a.width as int) < frame.3 + 8) ==> #[trigger] a.data@[3 * i + c] == b.data@[3 * i + c],
    ensures
        outside_values(a, guard_box(a, frame), c, n) == outside_values(
            b,
            guard_box(a, frame),
            c,
            n,
        ),
    decreases n,
{
    if n > 0 {
        lemma_outside_agrees(a, b, frame, c, n - 1);
        let i = n - 1;
        let (w, h) = (a.width as int, a.height as int);
        lemma_position(w, h, i);
        let g = guard_box(a, frame);
        let (x, y) = (i % w, i / w);
        if g.0 <= x < g.2 && g.1 <= y < g.3 {
        } else {
            assert(!(frame.0 - 8 <= x && x < frame.2 + 8 && frame.1 - 8 <= y && y < frame.3 + 8));
            assert(a.data@[3 * i + c] == b.data@[3 * i + c]);
        }
    }
}

} // verus!
