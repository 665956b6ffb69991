//! Matching the known watermark glyphs in the bottom right corner of a picture.

use crate::codec::{
    fits_side, gray_fault, gray_size, open_mask, reads_gray, resize_gray, resized_gray, side_fits,
    too_large, Sampling,
};
use crate::double::{
    lemma_below_is_not_above, lemma_not_above_transitive, lemma_not_below_itself, whole, Double,
};
use crate::grid::{dilate, dilated, lemma_cell, lemma_position, lit, touched};
use crate::morph::{ellipse, ellipse_opening, opened, stand_out};
use crate::names::Format;
use crate::number::{Class, Number};
use crate::raster::{
    lemma_measurable_area, lemma_measurable_part, lemma_measurable_sides, measurable,
    region_pixels, region_tones, stamp, stamp_mask, Mask, Picture, Region,
};
use crate::text::fails_with;
use vstd::prelude::*;

verus! {

/// The watermark as cut from samples: which pixels are strokes, how strongly
/// each pixel is tinted, and the shorter side of the picture it was cut from.
pub struct Template {
    pub strokes: Mask,
    pub alpha: Mask,
    pub ref_short: Double,
}

impl Template {
    pub open spec fn wf(&self) -> bool {
        &&& self.strokes.wf()
        &&& self.alpha.wf()
        &&& self.strokes.width > 0
        &&& self.strokes.height > 0
        &&& self.alpha.width > 0
        &&& self.alpha.height > 0
        &&& self.ref_short.wf()
        &&& self.ref_short.mant != 0
        &&& !self.ref_short.neg
        &&& self.ref_short.spread() <= 1200
    }
}

/// The sum of the tones of row `y` in the columns `x1..x2`.
pub open spec fn row_sum(s: Seq<u8>, w: int, y: int, x1: int, x2: int) -> int
    decreases x2 - x1,
{
    if x2 <= x1 {
        0
    } else {
        row_sum(s, w, y, x1, x2 - 1) + s[y * w + (x2 - 1)]
    }
}

/// The sum of the tones in the columns `x1..x2` of the rows `y1..y2`.
pub open spec fn rect_sum(s: Seq<u8>, w: int, x1: int, y1: int, x2: int, y2: int) -> int
    decreases y2 - y1,
{
    if y2 <= y1 {
        0
    } else {
        rect_sum(s, w, x1, y1, x2, y2 - 1) + row_sum(s, w, y2 - 1, x1, x2)
    }
}

proof fn lemma_row_sum_split(s: Seq<u8>, w: int, y: int, a: int, b: int, c: int)
    requires
        a <= b <= c,
    ensures
        row_sum(s, w, y, a, c) == row_sum(s, w, y, a, b) + row_sum(s, w, y, b, c),
    decreases c - b,
{
    if b < c {
        lemma_row_sum_split(s, w, y, a, b, c - 1);
    }
}

/// A rectangle's sum from four sums that start at the corner.
proof fn lemma_rect_sum_corners(s: Seq<u8>, w: int, x1: int, y1: int, x2: int, y2: int)
    requires
        0 <= x1 <= x2,
        0 <= y1 <= y2,
    ensures
        rect_sum(s, w, x1, y1, x2, y2) == rect_sum(s, w, 0, 0, x2, y2) + rect_sum(
            s,
            w,
            0,
            0,
            x1,
            y1,
        ) - rect_sum(s, w, 0, 0, x2, y1) - rect_sum(s, w, 0, 0, x1, y2),
    decreases y2 - y1,
{
    if y1 < y2 {
        lemma_rect_sum_corners(s, w, x1, y1, x2, y2 - 1);
        lemma_row_sum_split(s, w, y2 - 1, 0, x1, x2);
    }
}

proof fn lemma_row_sum_bound(s: Seq<u8>, w: int, y: int, x1: int, x2: int)
    requires
        x1 <= x2,
    ensures
        0 <= row_sum(s, w, y, x1, x2) <= 255 * (x2 - x1),
    decreases x2 - x1,
{
    if x1 < x2 {
        lemma_row_sum_bound(s, w, y, x1, x2 - 1);
    }
}

proof fn lemma_rect_sum_bound(s: Seq<u8>, w: int, x1: int, y1: int, x2: int, y2: int)
    requires
        x1 <= x2,
        y1 <= y2,
    ensures
        0 <= rect_sum(s, w, x1, y1, x2, y2) <= 255 * ((x2 - x1) * (y2 - y1)),
    decreases y2 - y1,
{
    if y1 < y2 {
        lemma_rect_sum_bound(s, w, x1, y1, x2, y2 - 1);
        lemma_row_sum_bound(s, w, y2 - 1, x1, x2);
        assert((x2 - x1) * (y2 - y1) == (x2 - x1) * (y2 - 1 - y1) + (x2 - x1)) by (nonlinear_arith);
    } else {
        assert((x2 - x1) * (y2 - y1) == 0) by (nonlinear_arith)
            requires
                y1 == y2,
        ;
    }
}

/// The sums of all rectangles that start at the corner, row by row.
pub(crate) fn integral(s: &[u8], w: usize, h: usize) -> (r: Vec<u64>)
    requires
        s@.len() == w * h,
        measurable(w as int, h as int),
        w < 0xffff_ffff,
        h < 0xffff_ffff,
        (w + 1) * (h + 1) <= usize::MAX,
    ensures
        r@.len() == (w + 1) * (h + 1),
        forall|x: int, y: int|
            0 <= x <= w && 0 <= y <= h ==> #[trigger] r@[y * (w + 1) + x] == rect_sum(
                s@,
                w as int,
                0,
                0,
                x,
                y,
            ),
{
    let n: usize = s.len();
    let side: usize = w + 1;
    let mut out: Vec<u64> = Vec::new();
    let mut y: usize = 0;
    while y <= h
        invariant
            n == w * h,
            s@.len() == n,
            side == w + 1,
            w < 0xffff_ffff,
            h < 0xffff_ffff,
            measurable(w as int, h as int),
            side * (h + 1) <= usize::MAX,
            y <= h + 1,
            out@.len() == y * side,
            forall|a: int, b: int|
                0 <= a <= w && 0 <= b < y ==> #[trigger] out@[b * side + a] == rect_sum(
                    s@,
                    w as int,
                    0,
                    0,
                    a,
                    b,
                ),
        decreases h + 1 - y,
    {
        let mut acc: u64 = 0;
        let mut x: usize = 0;
        proof {
            lemma_cell(side as int, h + 1, 0, y as int);
        }
        while x <= w
            invariant
                n == w * h,
                s@.len() == n,
                side == w + 1,
                w < 0xffff_ffff,
                h < 0xffff_ffff,
                measurable(w as int, h as int),
                side * (h + 1) <= usize::MAX,
                y <= h,
                x <= w + 1,
                out@.len() == y * side + x,
                x <= w && y > 0 ==> acc == row_sum(s@, w as int, y - 1, 0, x as int),
                forall|a: int, b: int|
                    0 <= a <= w && 0 <= b < y ==> #[trigger] out@[b * side + a] == rect_sum(
                        s@,
                        w as int,
                        0,
                        0,
                        a,
                        b,
                    ),
                forall|a: int|
                    0 <= a < x ==> #[trigger] out@[y * side + a] == rect_sum(
                        s@,
                        w as int,
                        0,
                        0,
                        a,
                        y as int,
                    ),
            decreases w + 1 - x,
        {
            let ghost prior = out@;
            proof {
                lemma_cell(side as int, h + 1, x as int, y as int);
                lemma_rect_sum_bound(s@, w as int, 0, 0, x as int, y as int);
                lemma_measurable_part(w as int, h as int, x as int, y as int);
                lemma_measurable_area(w as int, h as int);
            }
            if y == 0 {
                out.push(0);
            } else {
                proof {
                    lemma_cell(side as int, h + 1, x as int, y - 1);
                    lemma_rect_sum_bound(s@, w as int, 0, 0, x as int, y - 1);
                    lemma_row_sum_bound(s@, w as int, y - 1, 0, x as int);
                    assert(out@[(y - 1) * side + x] == rect_sum(
                        s@,
                        w as int,
                        0,
                        0,
                        x as int,
                        y - 1,
                    ));
                }
                let above: u64 = out[(y - 1) * side + x];
                out.push(above + acc);
                if x < w {
                    proof {
                        lemma_cell(w as int, h as int, x as int, y - 1);
                        lemma_row_sum_bound(s@, w as int, y - 1, 0, x + 1);
                    }
                    acc = acc + s[(y - 1) * w + x] as u64;
                }
            }
            proof {
                assert forall|a: int, b: int| 0 <= a <= w && 0 <= b < y implies #[trigger] out@[b
                    * side + a] == rect_sum(s@, w as int, 0, 0, a, b) by {
                    lemma_cell(side as int, y as int, a, b);
                    assert(y * side == side * y) by (nonlinear_arith);
                    assert(prior[b * side + a] == out@[b * side + a]);
                }
                assert forall|a: int| 0 <= a < x + 1 implies #[trigger] out@[y * side + a]
                    == rect_sum(s@, w as int, 0, 0, a, y as int) by {
                    if a < x {
                        assert(prior[y * side + a] == out@[y * side + a]);
                    }
                }
            }
            x = x + 1;
        }
        proof {
            assert((y + 1) * side == y * side + side) by (nonlinear_arith);
            assert forall|a: int, b: int| 0 <= a <= w && 0 <= b < y + 1 implies #[trigger] out@[b
                * side + a] == rect_sum(s@, w as int, 0, 0, a, b) by {
                if b == y {
                    assert(out@[y * side + a] == rect_sum(s@, w as int, 0, 0, a, y as int));
                }
            }
        }
        y = y + 1;
    }
    proof {
        assert((h + 1) * side == side * (h + 1)) by (nonlinear_arith);
    }
    out
}

/// A glyph box of `tw` x `th` in the bottom right corner of a picture of
/// `iw` x `ih`.
#[derive(Clone, Copy)]
pub struct Placement {
    pub iw: usize,
    pub ih: usize,
    pub tw: usize,
    pub th: usize,
}

/// `a - b`, not below zero.
pub open spec fn less_by(a: int, b: int) -> int {
    if a < b {
        0
    } else {
        a - b
    }
}

impl Placement {
    pub open spec fn wf(&self) -> bool {
        &&& 0 < self.tw < self.iw <= 0xffff_ffff
        &&& 0 < self.th < self.ih <= 0xffff_ffff
    }

    /// The leftmost column tried: up to 40 pixels off the right edge.
    pub open spec fn first_x(&self) -> int {
        less_by(self.iw - self.tw, 40)
    }

    pub open spec fn first_y(&self) -> int {
        less_by(self.ih - self.th, 40)
    }

    /// How many columns are tried.
    pub open spec fn across(&self) -> int {
        self.iw - self.tw - self.first_x() + 1
    }

    pub open spec fn down(&self) -> int {
        self.ih - self.th - self.first_y() + 1
    }

    /// The part of the picture that is looked at: 15 pixels more.
    pub open spec fn region(&self) -> Region {
        Region {
            x0: less_by(self.first_x(), 15) as usize,
            y0: less_by(self.first_y(), 15) as usize,
            rw: (self.iw - less_by(self.first_x(), 15)) as usize,
            rh: (self.ih - less_by(self.first_y(), 15)) as usize,
        }
    }

    /// The column of try `k`.
    pub open spec fn x_of(&self, k: int) -> int {
        self.first_x() + k % self.across()
    }

    /// The row of try `k`.
    pub open spec fn y_of(&self, k: int) -> int {
        self.first_y() + k / self.across()
    }
}

/// The stroke positions among the first `n` of a glyph box.
pub open spec fn stroke_points(t: Seq<u8>, n: int) -> Seq<usize>
    decreases n,
{
    if n <= 0 {
        seq![]
    } else if t[n - 1] > 127 {
        stroke_points(t, n - 1).push((n - 1) as usize)
    } else {
        stroke_points(t, n - 1)
    }
}

/// The sum of what stands out under the first `n` stroke points of a glyph box
/// placed at column `lx` and row `ly`.
pub open spec fn stroke_sum(
    hat: Seq<u8>,
    rw: int,
    tw: int,
    pts: Seq<usize>,
    lx: int,
    ly: int,
    n: int,
) -> int
    decreases n,
{
    if n <= 0 {
        0
    } else {
        stroke_sum(hat, rw, tw, pts, lx, ly, n - 1) + hat[(ly + pts[n - 1] as int / tw) * rw + (lx
            + pts[n - 1] as int % tw)]
    }
}

/// How much more the strokes stand out than what lies between them, on
/// average, for try `k`.
pub open spec fn contrast(hat: Seq<u8>, place: &Placement, pts: Seq<usize>, k: int) -> Double {
    let region = place.region();
    let (tw, th) = (place.tw as int, place.th as int);
    let (lx, ly) = (place.x_of(k) - region.x0, place.y_of(k) - region.y0);
    gap(hat, region.rw as int, tw, th, pts, lx, ly)
}

/// How much brighter the strokes of a glyph box at `(lx, ly)` are than its
/// gaps, on average.
pub open spec fn gap(
    hat: Seq<u8>,
    w: int,
    tw: int,
    th: int,
    pts: Seq<usize>,
    lx: int,
    ly: int,
) -> Double {
    let on = stroke_sum(hat, w, tw, pts, lx, ly, pts.len() as int);
    let all = rect_sum(hat, w, lx, ly, lx + tw, ly + th);
    whole(on).spec_over(whole(pts.len() as int)).spec_minus(
        whole(all - on).spec_over(whole(tw * th - pts.len())),
    )
}

/// The first try with the highest contrast among the first `n`.
pub open spec fn best_try(hat: Seq<u8>, place: &Placement, pts: Seq<usize>, n: int) -> int
    decreases n,
{
    if n <= 1 {
        0
    } else {
        let before = best_try(hat, place, pts, n - 1);
        if contrast(hat, place, pts, before).spec_lt(contrast(hat, place, pts, n - 1)) {
            n - 1
        } else {
            before
        }
    }
}

/// The tinted pixels of a glyph box, grown by one pixel.
pub open spec fn tinted(alpha: Seq<u8>, tw: int, th: int) -> Seq<bool> {
    dilated(Seq::new((tw * th) as nat, |i: int| alpha[i] > 8), tw, th, 1, 1)
}

/// A match: the mask of the tinted pixels, how much the strokes stand out, and
/// where the glyph box lies.
pub struct TemplateHit {
    pub mask: Mask,
    pub score: Double,
    pub px: usize,
    pub py: usize,
}

/// The size of the glyph box in a picture.
pub open spec fn glyph_size(picture: &Picture, template: &Template, size: int) -> int {
    let short = if picture.width < picture.height {
        picture.width as int
    } else {
        picture.height as int
    };
    whole(size).spec_times(whole(short).spec_over(template.ref_short)).spec_trunc()
}

/// What a match holds: its score, its place and the bytes of its mask.
pub type HitView = (Double, int, int, Seq<u8>);

/// What an optional match holds.
pub open spec fn hit_view(r: Option<TemplateHit>) -> Option<HitView> {
    match r {
        Some(hit) => Some((hit.score, hit.px as int, hit.py as int, hit.mask.data@)),
        None => None,
    }
}

/// The match with the resampled glyph box and tint.
pub open spec fn found_hit(
    picture: &Picture,
    place: &Placement,
    glyph: Seq<u8>,
    alpha: Seq<u8>,
) -> Option<HitView> {
    let (tw, th) = (place.tw as int, place.th as int);
    let pts = stroke_points(glyph, tw * th);
    let region = place.region();
    let tones = region_tones(picture, &region);
    let hat = stand_out(
        tones,
        opened(tones, region.rw as int, region.rh as int, ellipse(15)),
    );
    let k = best_try(hat, place, pts, place.across() * place.down());
    let score = contrast(hat, place, pts, k);
    if pts.len() == 0 || pts.len() == tw * th || score.spec_lt(whole(20)) {
        None
    } else {
        let data = stamp_mask(
            tinted(alpha, tw, th),
            tw,
            th,
            place.x_of(k),
            place.y_of(k),
            picture.width as int,
            picture.height as int,
        );
        Some((score, place.x_of(k), place.y_of(k), data))
    }
}

/// The match of the template in a picture.
pub open spec fn template_hit(picture: &Picture, template: &Template) -> Option<HitView> {
    let strokes = &template.strokes;
    let alpha = &template.alpha;
    let tw = glyph_size(picture, template, strokes.width as int);
    let th = glyph_size(picture, template, strokes.height as int);
    if tw == 0 || th == 0 || tw >= picture.width || th >= picture.height {
        None
    } else {
        let place = Placement {
            iw: picture.width as usize,
            ih: picture.height as usize,
            tw: tw as usize,
            th: th as usize,
        };
        found_hit(
            picture,
            &place,
            resized_gray(
                strokes.width,
                strokes.height,
                strokes.data@,
                tw as u32,
                th as u32,
                Sampling::Nearest,
            ),
            resized_gray(
                alpha.width,
                alpha.height,
                alpha.data@,
                tw as u32,
                th as u32,
                Sampling::Triangle,
            ),
        )
    }
}

/// The scaled template fits into the picture, but the resampler cannot scale it
/// so far.
pub open spec fn template_beyond(picture: &Picture, template: &Template) -> bool {
    let tw = glyph_size(picture, template, template.strokes.width as int);
    let th = glyph_size(picture, template, template.strokes.height as int);
    &&& tw != 0 && th != 0 && tw < picture.width && th < picture.height
    &&& !side_fits(template.alpha.width, tw as u32) || !side_fits(
        template.alpha.height,
        th as u32,
    )
}

/// The mask of a match has the size of the picture.
pub open spec fn hit_fits(r: Option<TemplateHit>, picture: &Picture) -> bool {
    r matches Some(hit) ==> {
        &&& hit.score.wf()
        &&& hit.mask.wf()
        &&& hit.mask.width == picture.width
        &&& hit.mask.height == picture.height
    }
}

fn points_of(t: &[u8]) -> (r: Vec<usize>)
    ensures
        r@ == stroke_points(t@, t@.len() as int),
        r@.len() <= t@.len(),
        forall|k: int| 0 <= k < r@.len() ==> #[trigger] r@[k] < t@.len(),
{
    let n: usize = t.len();
    let mut out: Vec<usize> = Vec::new();
    let mut i: usize = 0;
    while i < n
        invariant
            n == t@.len(),
            i <= n,
            out@ == stroke_points(t@, i as int),
            out@.len() <= i,
            forall|k: int| 0 <= k < out@.len() ==> #[trigger] out@[k] < n,
        decreases n - i,
    {
        if t[i] > 127 {
            out.push(i);
        }
        i = i + 1;
    }
    out
}

fn stroke_total(
    hat: &[u8],
    rw: usize,
    rh: usize,
    tw: usize,
    th: usize,
    pts: &[usize],
    lx: usize,
    ly: usize,
) -> (r: i64)
    requires
        hat@.len() == rw * rh,
        0 < tw,
        0 < th,
        lx + tw <= rw,
        ly + th <= rh,
        rw <= 0xffff_ffff,
        rh <= 0xffff_ffff,
        pts@.len() <= 0x10_0000_0000_0000,
        forall|k: int| 0 <= k < pts@.len() ==> #[trigger] pts@[k] < tw * th,
    ensures
        r == stroke_sum(
            hat@,
            rw as int,
            tw as int,
            pts@,
            lx as int,
            ly as int,
            pts@.len() as int,
        ),
        0 <= r <= 255 * pts@.len(),
{
    let cells: usize = hat.len();
    let n: usize = pts.len();
    let mut sum: i64 = 0;
    let mut k: usize = 0;
    while k < n
        invariant
            cells == rw * rh,
            hat@.len() == cells,
            0 < tw,
            0 < th,
            lx + tw <= rw,
            ly + th <= rh,
            rw <= 0xffff_ffff,
            rh <= 0xffff_ffff,
            n == pts@.len(),
            n <= 0x10_0000_0000_0000,
            k <= n,
            forall|j: int| 0 <= j < pts@.len() ==> #[trigger] pts@[j] < tw * th,
            sum == stroke_sum(
                hat@,
                rw as int,
                tw as int,
                pts@,
                lx as int,
                ly as int,
                k as int,
            ),
            0 <= sum <= 255 * k,
        decreases n - k,
    {
        let p: usize = pts[k];
        proof {
            lemma_position(tw as int, th as int, p as int);
            lemma_cell(
                rw as int,
                rh as int,
                lx + p as int % tw as int,
                ly + p as int / tw as int,
            );
        }
        sum = sum + hat[(ly + p / tw) * rw + (lx + p % tw)] as i64;
        k = k + 1;
    }
    sum
}

proof fn lemma_try(place: &Placement, k: int)
    requires
        place.wf(),
        0 <= k < place.across() * place.down(),
    ensures
        ({
            let region = place.region();
            &&& place.across() > 0
            &&& place.down() > 0
            &&& region.x0 <= place.x_of(k)
            &&& place.x_of(k) + place.tw <= place.iw
            &&& region.y0 <= place.y_of(k)
            &&& place.y_of(k) + place.th <= place.ih
            &&& region.x0 + region.rw == place.iw
            &&& region.y0 + region.rh == place.ih
        }),
{
    lemma_position(place.across(), place.down(), k);
}

/// How much brighter the strokes of a glyph box at `(x1, y1)` are than its
/// gaps, out of the sums from the corner.
pub(crate) fn gap_of(
    hat: &[u8],
    sums: &[u64],
    rw: usize,
    rh: usize,
    tw: usize,
    th: usize,
    pts: &[usize],
    x1: usize,
    y1: usize,
) -> (r: Double)
    requires
        hat@.len() == rw * rh,
        measurable(rw as int, rh as int),
        rw <= 0xffff_ffff,
        rh <= 0xffff_ffff,
        0 < tw,
        0 < th,
        x1 + tw <= rw,
        y1 + th <= rh,
        0 < pts@.len() < tw * th,
        forall|j: int| 0 <= j < pts@.len() ==> #[trigger] pts@[j] < tw * th,
        sums@.len() == (rw + 1) * (rh + 1),
        forall|x: int, y: int|
            0 <= x <= rw && 0 <= y <= rh ==> #[trigger] sums@[y * (rw + 1) + x] == rect_sum(
                hat@,
                rw as int,
                0,
                0,
                x,
                y,
            ),
    ensures
        r == gap(hat@, rw as int, tw as int, th as int, pts@, x1 as int, y1 as int),
        r.wf(),
        r.spread() <= 1000,
{
    proof {
        lemma_measurable_area(rw as int, rh as int);
        assert(tw * th <= rw * rh) by (nonlinear_arith)
            requires
                tw <= rw,
                th <= rh,
        ;
        assert(tw * th > 0) by (nonlinear_arith)
            requires
                tw > 0,
                th > 0,
        ;
    }
    let len: usize = sums.len();
    let cells: usize = hat.len();
    proof {
        assert(rw + 1 <= (rw + 1) * (rh + 1)) by (nonlinear_arith);
    }
    let side: usize = rw + 1;
    let x2: usize = x1 + tw;
    let y2: usize = y1 + th;
    proof {
        let (s, high) = (side as int, rh + 1);
        lemma_cell(s, high, x1 as int, y1 as int);
        lemma_cell(s, high, x2 as int, y1 as int);
        lemma_cell(s, high, x1 as int, y2 as int);
        lemma_cell(s, high, x2 as int, y2 as int);
        lemma_rect_sum_corners(
            hat@,
            rw as int,
            x1 as int,
            y1 as int,
            x2 as int,
            y2 as int,
        );
        let (rw, rh) = (rw as int, rh as int);
        lemma_rect_sum_bound(hat@, rw, 0, 0, x1 as int, y1 as int);
        lemma_rect_sum_bound(hat@, rw, 0, 0, x2 as int, y1 as int);
        lemma_rect_sum_bound(hat@, rw, 0, 0, x1 as int, y2 as int);
        lemma_rect_sum_bound(hat@, rw, 0, 0, x2 as int, y2 as int);
        lemma_measurable_part(rw, rh, x1 as int, y1 as int);
        lemma_measurable_part(rw, rh, x2 as int, y1 as int);
        lemma_measurable_part(rw, rh, x1 as int, y2 as int);
        lemma_measurable_part(rw, rh, x2 as int, y2 as int);
        assert(sums@[y1 * (rw + 1) + x1] == rect_sum(hat@, rw, 0, 0, x1 as int, y1 as int));
        assert(sums@[y1 * (rw + 1) + x2] == rect_sum(hat@, rw, 0, 0, x2 as int, y1 as int));
        assert(sums@[y2 * (rw + 1) + x1] == rect_sum(hat@, rw, 0, 0, x1 as int, y2 as int));
        assert(sums@[y2 * (rw + 1) + x2] == rect_sum(hat@, rw, 0, 0, x2 as int, y2 as int));
    }
    let a: i64 = sums[y2 * side + x2] as i64;
    let b: i64 = sums[y1 * side + x1] as i64;
    let c: i64 = sums[y1 * side + x2] as i64;
    let d: i64 = sums[y2 * side + x1] as i64;
    let all: i64 = a + b - c - d;
    let on: i64 = stroke_total(hat, rw, rh, tw, th, pts, x1, y1);
    let n: usize = pts.len();
    let rest: usize = tw * th - n;
    let strokes = Double::from_int(on).over(Double::from_count(n));
    let between = Double::from_int(all - on).over(Double::from_count(rest));
    strokes.minus(between)
}

/// The contrast of try `k`.
fn contrast_of(
    hat: &[u8],
    sums: &[u64],
    place: &Placement,
    region: &Region,
    pts: &[usize],
    px: usize,
    py: usize,
    Ghost(k): Ghost<int>,
) -> (r: Double)
    requires
        place.wf(),
        *region == place.region(),
        hat@.len() == region.rw * region.rh,
        measurable(region.rw as int, region.rh as int),
        0 <= k < place.across() * place.down(),
        px == place.x_of(k),
        py == place.y_of(k),
        0 < pts@.len() < place.tw * place.th,
        forall|j: int| 0 <= j < pts@.len() ==> #[trigger] pts@[j] < place.tw * place.th,
        sums@.len() == (region.rw + 1) * (region.rh + 1),
        forall|x: int, y: int|
            0 <= x <= region.rw && 0 <= y <= region.rh ==> #[trigger] sums@[y * (region.rw + 1) + x]
                == rect_sum(hat@, region.rw as int, 0, 0, x, y),
    ensures
        r == contrast(hat@, place, pts@, k),
        r.wf(),
        r.spread() <= 1000,
{
    proof {
        lemma_try(place, k);
    }
    gap_of(
        hat,
        sums,
        region.rw,
        region.rh,
        place.tw,
        place.th,
        pts,
        px - region.x0,
        py - region.y0,
    )
}

fn tinted_cells(alpha: &[u8], tw: usize, th: usize) -> (r: Vec<bool>)
    requires
        alpha@.len() == tw * th,
    ensures
        r@ == tinted(alpha@, tw as int, th as int),
        r@.len() == tw * th,
{
    let n: usize = alpha.len();
    let mut cells: Vec<bool> = Vec::new();
    let mut i: usize = 0;
    let ghost goal = Seq::new((tw * th) as nat, |i: int| alpha@[i] > 8);
    while i < n
        invariant
            n == tw * th,
            alpha@.len() == n,
            i <= n,
            goal == Seq::new((tw * th) as nat, |i: int| alpha@[i] > 8),
            cells@ == goal.take(i as int),
        decreases n - i,
    {
        cells.push(alpha[i] > 8);
        i = i + 1;
        proof {
            assert(cells@ =~= goal.take(i as int));
        }
    }
    proof {
        assert(cells@ =~= goal);
    }
    dilate(cells.as_slice(), tw, th, 1, 1)
}

/// Looks for the glyphs in the bottom right corner of a picture: the first
/// place with the highest contrast between strokes and gaps wins, if that is
/// 20 or more. The mask takes the tinted pixels, grown by one.
pub fn match_glyphs(
    picture: &Picture,
    place: &Placement,
    glyph: &[u8],
    alpha: &[u8],
) -> (r: Option<TemplateHit>)
    requires
        picture.wf(),
        place.wf(),
        place.iw == picture.width,
        place.ih == picture.height,
        glyph@.len() == place.tw * place.th,
        alpha@.len() == place.tw * place.th,
    ensures
        hit_view(r) == found_hit(picture, place, glyph@, alpha@),
        hit_fits(r, picture),
{
    let pts = points_of(glyph);
    if pts.len() == 0 || pts.len() == glyph.len() {
        return None;
    }
    let max_x: usize = place.iw - place.tw;
    let max_y: usize = place.ih - place.th;
    let min_x: usize = if max_x < 40 {
        0
    } else {
        max_x - 40
    };
    let min_y: usize = if max_y < 40 {
        0
    } else {
        max_y - 40
    };
    let x0: usize = if min_x < 15 {
        0
    } else {
        min_x - 15
    };
    let y0: usize = if min_y < 15 {
        0
    } else {
        min_y - 15
    };
    let region = Region { x0, y0, rw: place.iw - x0, rh: place.ih - y0 };
    let total: usize = picture.data.len();
    proof {
        lemma_measurable_part(
            picture.width as int,
            picture.height as int,
            region.rw as int,
            region.rh as int,
        );
        lemma_measurable_sides(picture.width as int, picture.height as int);
        let (a, b) = (region.rw as int, region.rh as int);
        assert((a + 1) * (b + 1) <= 3 * (a * b)) by (nonlinear_arith)
            requires
                a >= 2,
                b >= 2,
        ;
    }
    let (tones, _colour) = region_pixels(picture, &region);
    let opening = ellipse_opening(tones.as_slice(), region.rw, region.rh, 15);
    let hat = crate::morph::difference(tones.as_slice(), opening.as_slice());
    let sums = integral(hat.as_slice(), region.rw, region.rh);
    let across: usize = max_x - min_x + 1;
    let down: usize = max_y - min_y + 1;
    let mut k: usize = 0;
    let mut best_x: usize = min_x;
    let mut best_y: usize = min_y;
    let mut best: Double = Double::zero();
    let ghost mut best_k: int = 0;
    proof {
        assert(across * down <= 41 * 41) by (nonlinear_arith)
            requires
                0 <= across <= 41,
                0 <= down <= 41,
        ;
        assert(across * down >= 1) by (nonlinear_arith)
            requires
                across >= 1,
                down >= 1,
        ;
    }
    let tries: usize = across * down;
    while k < tries
        invariant
            place.wf(),
            region == place.region(),
            hat@.len() == region.rw * region.rh,
            measurable(region.rw as int, region.rh as int),
            across == place.across(),
            down == place.down(),
            tries == across * down,
            across > 0,
            min_x == place.first_x(),
            min_y == place.first_y(),
            0 < pts@.len() < place.tw * place.th,
            forall|j: int| 0 <= j < pts@.len() ==> #[trigger] pts@[j] < place.tw * place.th,
            sums@.len() == (region.rw + 1) * (region.rh + 1),
            forall|x: int, y: int|
                0 <= x <= region.rw && 0 <= y <= region.rh ==> #[trigger] sums@[y * (region.rw + 1)
                    + x] == rect_sum(hat@, region.rw as int, 0, 0, x, y),
            k <= tries,
            k > 0 ==> {
                &&& best_k == best_try(hat@, place, pts@, k as int)
                &&& 0 <= best_k < k
                &&& best == contrast(hat@, place, pts@, best_k)
                &&& best.wf()
                &&& best_x == place.x_of(best_k)
                &&& best_y == place.y_of(best_k)
            },
        decreases tries - k,
    {
        proof {
            lemma_try(place, k as int);
            lemma_position(across as int, down as int, k as int);
        }
        let px: usize = min_x + k % across;
        let py: usize = min_y + k / across;
        let score = contrast_of(
            hat.as_slice(),
            sums.as_slice(),
            place,
            &region,
            pts.as_slice(),
            px,
            py,
            Ghost(k as int),
        );
        if k == 0 || best.less(score) {
            best = score;
            best_x = px;
            best_y = py;
            proof {
                best_k = k as int;
            }
        }
        k = k + 1;
    }
    if best.less(Double::from_int(20)) {
        return None;
    }
    proof {
        lemma_try(place, best_k);
    }
    let cells = tinted_cells(alpha, place.tw, place.th);
    let mask = stamp(
        cells.as_slice(),
        place.tw,
        place.th,
        best_x,
        best_y,
        picture.width,
        picture.height,
    );
    Some(TemplateHit { mask, score: best, px: best_x, py: best_y })
}

/// Matches the template, scaled to the picture's shorter side. `None` where
/// the scaled glyph box is empty or does not fit, or where nothing stands out
/// enough; an error where the resampler cannot scale it so far.
pub fn template_stroke_mask(picture: &Picture, template: &Template) -> (r: Result<
    Option<TemplateHit>,
    String,
>)
    requires
        picture.wf(),
        template.wf(),
    ensures
        if template_beyond(picture, template) {
            fails_with(r, too_large())
        } else {
            r matches Ok(hit) && hit_view(hit) == template_hit(picture, template) && hit_fits(
                hit,
                picture,
            )
        },
{
    let short: u32 = if picture.width < picture.height {
        picture.width
    } else {
        picture.height
    };
    let scale = Double::from_int(short as i64).over(template.ref_short);
    let tw: i64 = Double::from_int(template.strokes.width as i64).times(scale).trunc();
    let th: i64 = Double::from_int(template.strokes.height as i64).times(scale).trunc();
    if tw == 0 || th == 0 || tw >= picture.width as i64 || th >= picture.height as i64 {
        return Ok(None);
    }
    if !fits_side(template.alpha.width, tw as u32) || !fits_side(
        template.alpha.height,
        th as u32,
    ) {
        return Err(String::from_str("picture too large"));
    }
    let place = Placement {
        iw: picture.width as usize,
        ih: picture.height as usize,
        tw: tw as usize,
        th: th as usize,
    };
    let strokes = &template.strokes;
    let alpha = &template.alpha;
    proof {
        lemma_measurable_sides(strokes.width as int, strokes.height as int);
        lemma_measurable_sides(alpha.width as int, alpha.height as int);
        lemma_measurable_sides(picture.width as int, picture.height as int);
        lemma_small_product(strokes.width as int, th as int);
        lemma_small_product(alpha.width as int, th as int);
        lemma_small_product(tw as int, th as int);
    }
    let glyph = resize_gray(
        strokes.width,
        strokes.height,
        strokes.data.as_slice(),
        tw as u32,
        th as u32,
        Sampling::Nearest,
    );
    let tint = resize_gray(
        alpha.width,
        alpha.height,
        alpha.data.as_slice(),
        tw as u32,
        th as u32,
        Sampling::Triangle,
    );
    Ok(match_glyphs(picture, &place, glyph.as_slice(), tint.as_slice()))
}

proof fn lemma_small_product(a: int, b: int)
    requires
        0 <= a <= 0x2000_0000,
        0 <= b <= 0x2000_0000,
    ensures
        0 <= a * b <= 0x400_0000_0000_0000,
{
    assert(0 <= a * b && a * b <= 0x2000_0000 * 0x2000_0000) by (nonlinear_arith)
        requires
            0 <= a <= 0x2000_0000,
            0 <= b <= 0x2000_0000,
    ;
}

/// The message for a template that cannot be scaled.
pub open spec fn unusable_message() -> Seq<char> {
    "invalid template"@
}

/// The template holds what its two files give, cut at this shorter side.
pub open spec fn is_template(
    t: Template,
    strokes_png: Seq<u8>,
    alpha_png: Seq<u8>,
    short: Number,
) -> bool {
    &&& reads_gray(
        strokes_png,
        Format::Png,
        (t.strokes.width, t.strokes.height, t.strokes.data@),
    )
    &&& reads_gray(alpha_png, Format::Png, (t.alpha.width, t.alpha.height, t.alpha.data@))
    &&& short.kind() == Class::Finite { value: t.ref_short }
}

/// Sizes at which a template can be used.
pub open spec fn is_usable(strokes: (u32, u32), alpha: (u32, u32), short: Number) -> bool {
    &&& strokes.0 > 0
    &&& strokes.1 > 0
    &&& alpha.0 > 0
    &&& alpha.1 > 0
    &&& short.kind() matches Class::Finite { value } && value.mant != 0 && !value.neg
}

/// Reads the template out of its two pictures and the shorter side that they
/// were cut at. Empty pictures and a side that is no positive number are
/// refused.
pub fn load_template(strokes_png: &[u8], alpha_png: &[u8], short: Result<Number, String>) -> (r:
    Result<Template, String>)
    ensures
        r matches Ok(t) ==> t.wf(),
        match gray_fault(strokes_png@, Format::Png) {
            Some(message) => fails_with(r, message),
            None => match gray_fault(alpha_png@, Format::Png) {
                Some(message) => fails_with(r, message),
                None => match short {
                    Err(e) => fails_with(r, e@),
                    Ok(v) => if is_usable(
                        gray_size(strokes_png@, Format::Png),
                        gray_size(alpha_png@, Format::Png),
                        v,
                    ) {
                        r matches Ok(t) && is_template(t, strokes_png@, alpha_png@, v)
                    } else {
                        fails_with(r, unusable_message())
                    },
                },
            },
        },
{
    let strokes = match open_mask(strokes_png, Format::Png) {
        Ok(mask) => mask,
        Err(e) => {
            return Err(e);
        },
    };
    let alpha = match open_mask(alpha_png, Format::Png) {
        Ok(mask) => mask,
        Err(e) => {
            return Err(e);
        },
    };
    let side = match short {
        Ok(v) => v,
        Err(e) => {
            return Err(e);
        },
    };
    match side.finite() {
        Some(d) => {
            if d.mant == 0 || d.neg || strokes.width == 0 || strokes.height == 0 || alpha.width == 0
                || alpha.height == 0 {
                Err(String::from_str("invalid template"))
            } else {
                Ok(Template { strokes, alpha, ref_short: d })
            }
        },
        None => Err(String::from_str("invalid template")),
    }
}

/// No place that was tried shows a higher contrast than the one that wins, and
/// none before it an equal one.
pub proof fn lemma_best_try_highest(
    hat: Seq<u8>,
    place: &Placement,
    pts: Seq<usize>,
    n: int,
    k: int,
)
    requires
        0 <= k < n,
    ensures
        ({
            let best = best_try(hat, place, pts, n);
            &&& 0 <= best < n
            &&& !contrast(hat, place, pts, best).spec_lt(contrast(hat, place, pts, k))
            &&& k < best ==> contrast(hat, place, pts, k).spec_lt(contrast(hat, place, pts, best))
        }),
    decreases n,
{
    let best = best_try(hat, place, pts, n);
    if n == 1 {
        lemma_not_below_itself(contrast(hat, place, pts, 0));
    } else {
        let before = best_try(hat, place, pts, n - 1);
        let (old_high, last) = (
            contrast(hat, place, pts, before),
            contrast(hat, place, pts, n - 1),
        );
        lemma_best_try_highest(hat, place, pts, n - 1, 0);
        lemma_not_below_itself(last);
        if k < n - 1 {
            lemma_best_try_highest(hat, place, pts, n - 1, k);
            if old_high.spec_lt(last) {
                lemma_below_is_not_above(old_high, last);
                lemma_not_above_transitive(contrast(hat, place, pts, k), old_high, last);
                lemma_below_through(contrast(hat, place, pts, k), old_high, last);
            }
        }
    }
}

/// What is not above a number that is below another is below that one.
proof fn lemma_below_through(a: Double, b: Double, c: Double)
    requires
        !b.spec_lt(a),
        b.spec_lt(c),
    ensures
        a.spec_lt(c),
{
    if !a.spec_lt(c) {
        lemma_not_above_transitive(c, a, b);
    }
}

/// The stroke points of a glyph box are its positions above 127, in order and
/// each once, and no others.
pub proof fn lemma_stroke_points_are_the_strokes(t: Seq<u8>, n: int)
    requires
        0 <= n <= t.len(),
        n <= usize::MAX,
    ensures
        ({
            let pts = stroke_points(t, n);
            &&& forall|k: int| 0 <= k < pts.len() ==> #[trigger] pts[k] < n && t[pts[k] as int] > 127
            &&& forall|j: int, k: int| 0 <= j < k < pts.len() ==> #[trigger] pts[j] < #[trigger] pts[k]
            &&& forall|i: int| 0 <= i < n && #[trigger] t[i] > 127 ==> pts.contains(i as usize)
        }),
    decreases n,
{
    if n > 0 {
        lemma_stroke_points_are_the_strokes(t, n - 1);
        let (before, pts) = (stroke_points(t, n - 1), stroke_points(t, n));
        assert forall|i: int| 0 <= i < n && #[trigger] t[i] > 127 implies pts.contains(
            i as usize,
        ) by {
            if i == n - 1 {
                assert(pts.last() == i as usize);
            } else {
                let k = choose|k: int| 0 <= k < before.len() && before[k] == i as usize;
                assert(pts[k] == i as usize);
            }
        }
    }
}

/// A pixel of a glyph box is tinted exactly if one of the nine around it, itself
/// counting, has a coverage above 8.
pub proof fn lemma_tinted_by_place(alpha: Seq<u8>, tw: int, th: int, x: int, y: int)
    requires
        alpha.len() == tw * th,
        0 <= x < tw,
        0 <= y < th,
    ensures
        tinted(alpha, tw, th)[y * tw + x] <==> exists|sx: int, sy: int|
            #![trigger alpha[sy * tw + sx]]
            0 <= sx < tw && 0 <= sy < th && x - 1 <= sx <= x + 1 && y - 1 <= sy <= y + 1
                && alpha[sy * tw + sx] > 8,
{
    lemma_cell(tw, th, x, y);
    let grid = Seq::new((tw * th) as nat, |i: int| alpha[i] > 8);
    if touched(grid, tw, th, 1, 1, x, y) {
        let (sx, sy) = choose|sx: int, sy: int|
            {
                &&& 0 <= sx < tw
                &&& 0 <= sy < th
                &&& x - 1 <= sx <= x + 1
                &&& y - 1 <= sy <= y + 1
                &&& #[trigger] lit(grid, tw, sx, sy)
            };
        lemma_cell(tw, th, sx, sy);
        assert(alpha[sy * tw + sx] > 8);
    }
    if exists|sx: int, sy: int|
        #![trigger alpha[sy * tw + sx]]
        0 <= sx < tw && 0 <= sy < th && x - 1 <= sx <= x + 1 && y - 1 <= sy <= y + 1 && alpha[sy
            * tw + sx] > 8 {
        let (sx, sy) = choose|sx: int, sy: int|
            #![trigger alpha[sy * tw + sx]]
            0 <= sx < tw && 0 <= sy < th && x - 1 <= sx <= x + 1 && y - 1 <= sy <= y + 1 && alpha[sy
                * tw + sx] > 8;
        lemma_cell(tw, th, sx, sy);
        assert(lit(grid, tw, sx, sy));
    }
}

} // verus!
