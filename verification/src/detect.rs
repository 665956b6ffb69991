//! Finding watermark boxes: text-like groups of bright pixels.

use crate::accuracy::{
    lemma_fill_value, lemma_less_by_value, lemma_quotient_value, lemma_ratio_value,
    lemma_share_value, lemma_whole_value, value, within,
};
use crate::boxes::{
    apart, boxes_overlap, fuse_boxes, fused, held_by, inside, larger, lemma_fused_apart, lemma_fused_least,
    overlaps, smaller, Frame,
};
use crate::components::{components, parts_of, within_grid, Component};
use crate::double::{ratio, whole, Double};
use crate::grid::{
    dilate_rect_9x3_twice, dilate_square5, dilated, lemma_cell, lit,
};
use crate::morph::{by_table, disc_table, opened, stand_out, top_hat};
use crate::raster::{
    lemma_measurable_area, lemma_measurable_part, measurable, region_colour, region_pixels,
    region_tones, Picture, Region,
};
use vstd::prelude::*;

verus! {

/// The set cells of column `x` in the rows `y1..y2`.
pub open spec fn ink(grid: Seq<bool>, w: int, x: int, y1: int, y2: int) -> int
    decreases y2 - y1,
{
    if y2 <= y1 {
        0
    } else {
        ink(grid, w, x, y1, y2 - 1) + if lit(grid, w, x, y2 - 1) {
            1int
        } else {
            0
        }
    }
}

/// The set cells in the columns `x1..x2` of the rows `y1..y2`.
pub open spec fn ink_within(grid: Seq<bool>, w: int, x1: int, x2: int, y1: int, y2: int) -> int
    decreases x2 - x1,
{
    if x2 <= x1 {
        0
    } else {
        ink_within(grid, w, x1, x2 - 1, y1, y2) + ink(grid, w, x2 - 1, y1, y2)
    }
}

/// Column `x` of a component holds at least 8 % of its height in ink, and not
/// less than one cell.
pub open spec fn inked(grid: Seq<bool>, w: int, c: Component, x: int) -> bool {
    let least = whole(c.y2 - c.y1).spec_times(ratio(8, 100)).spec_max(whole(1));
    !whole(ink(grid, w, x, c.y1 as int, c.y2 as int)).spec_lt(least)
}

/// How many runs of inked columns start before column `x`.
pub open spec fn runs(grid: Seq<bool>, w: int, c: Component, x: int) -> int
    decreases x,
{
    if x <= c.x1 {
        0
    } else {
        runs(grid, w, c, x - 1) + if inked(grid, w, c, x - 1) && (x - 1 == c.x1 || !inked(
            grid,
            w,
            c,
            x - 2,
        )) {
            1int
        } else {
            0
        }
    }
}

/// The number of cells in the box of a component.
pub open spec fn box_cells(c: Component) -> Double {
    whole(c.x2 - c.x1).spec_times(whole(c.y2 - c.y1))
}

/// Writing, not a solid blob: at most 60 % of the box is ink, in three or more
/// runs of columns.
pub open spec fn textlike(grid: Seq<bool>, w: int, c: Component) -> bool {
    let cells = ink_within(grid, w, c.x1 as int, c.x2 as int, c.y1 as int, c.y2 as int);
    &&& !ratio(6, 10).spec_lt(whole(cells).spec_over(box_cells(c)))
    &&& runs(grid, w, c, c.x2 as int) >= 3
}

proof fn lemma_ink_bound(grid: Seq<bool>, w: int, x: int, y1: int, y2: int)
    ensures
        0 <= ink(grid, w, x, y1, y2),
        y1 <= y2 ==> ink(grid, w, x, y1, y2) <= y2 - y1,
    decreases y2 - y1,
{
    if y2 > y1 {
        lemma_ink_bound(grid, w, x, y1, y2 - 1);
    }
}

fn count_ink(grid: &[bool], w: usize, h: usize, x: usize, y1: usize, y2: usize) -> (r: usize)
    requires
        grid@.len() == w * h,
        x < w,
        y1 <= y2 <= h,
    ensures
        r == ink(grid@, w as int, x as int, y1 as int, y2 as int),
        r <= y2 - y1,
{
    let n: usize = grid.len();
    let mut y: usize = y1;
    let mut found: usize = 0;
    while y < y2
        invariant
            n == w * h,
            grid@.len() == n,
            x < w,
            y1 <= y <= y2 <= h,
            found == ink(grid@, w as int, x as int, y1 as int, y as int),
            found <= y - y1,
        decreases y2 - y,
    {
        proof {
            lemma_cell(w as int, h as int, x as int, y as int);
        }
        if grid[y * w + x] {
            found = found + 1;
        }
        y = y + 1;
    }
    found
}

/// Tells whether a component of a grid looks like writing.
pub fn looks_like_text(grid: &[bool], w: usize, h: usize, c: &Component) -> (r: bool)
    requires
        grid@.len() == w * h,
        within_grid(w as int, h as int, *c),
    ensures
        r == textlike(grid@, w as int, *c),
{
    let n: usize = grid.len();
    let tall: usize = c.y2 - c.y1;
    let least = Double::from_count(tall).times(Double::decimal(8, 100)).max(Double::from_int(1));
    let mut x: usize = c.x1;
    let mut cells: usize = 0;
    let mut found: usize = 0;
    let mut prev_on: bool = false;
    proof {
        assert(0 <= (c.x2 - c.x1) * tall && (c.x2 - c.x1) * tall <= w * h) by (nonlinear_arith)
            requires
                0 <= c.x2 - c.x1 <= w,
                0 <= tall <= h,
        ;
    }
    while x < c.x2
        invariant
            n == w * h,
            grid@.len() == n,
            within_grid(w as int, h as int, *c),
            tall == c.y2 - c.y1,
            c.x1 <= x <= c.x2,
            least.wf(),
            least == whole(c.y2 - c.y1).spec_times(ratio(8, 100)).spec_max(whole(1)),
            cells == ink_within(grid@, w as int, c.x1 as int, x as int, c.y1 as int, c.y2 as int),
            cells <= (x - c.x1) * tall,
            (c.x2 - c.x1) * tall <= n,
            found == runs(grid@, w as int, *c, x as int),
            found <= x - c.x1,
            x == c.x1 ==> !prev_on,
            x > c.x1 ==> prev_on == inked(grid@, w as int, *c, x - 1),
        decreases c.x2 - x,
    {
        let here: usize = count_ink(grid, w, h, x, c.y1, c.y2);
        let on: bool = !Double::from_count(here).less(least);
        if on && !prev_on {
            found = found + 1;
        }
        prev_on = on;
        proof {
            assert((x + 1 - c.x1) * tall == (x - c.x1) * tall + tall && (x + 1 - c.x1) * tall <= (
            c.x2 - c.x1) * tall) by (nonlinear_arith)
                requires
                    x < c.x2,
                    tall >= 0,
            ;
        }
        cells = cells + here;
        x = x + 1;
    }
    let size = Double::from_count(c.x2 - c.x1).times(Double::from_count(tall));
    let fill = Double::from_count(cells).over(size);
    !Double::decimal(6, 10).less(fill) && found >= 3
}

/// The margin around a found box in a picture of height `h`.
pub open spec fn margin(h: int) -> int {
    larger(h / 150, 10)
}

/// A box grown by a margin, kept inside a picture and six pixels off its right
/// and bottom edges.
pub open spec fn padded(
    x1: int,
    y1: int,
    x2: int,
    y2: int,
    pad: int,
    w: int,
    h: int,
) -> Frame {
    (
        larger(x1 - pad, 0) as i64,
        larger(y1 - pad, 0) as i64,
        smaller(x2 + pad, w - 6) as i64,
        smaller(y2 + pad, h - 6) as i64,
    )
}

fn pad_box(x1: i64, y1: i64, x2: i64, y2: i64, pad: i64, w: i64, h: i64) -> (r: Frame)
    requires
        0 <= x1 <= 0x2_0000_0000,
        0 <= y1 <= 0x2_0000_0000,
        0 <= x2 <= 0x2_0000_0000,
        0 <= y2 <= 0x2_0000_0000,
        0 <= pad <= 0x1_0000_0000,
        0 <= w <= 0x1_0000_0000,
        0 <= h <= 0x1_0000_0000,
    ensures
        r == padded(
            x1 as int,
            y1 as int,
            x2 as int,
            y2 as int,
            pad as int,
            w as int,
            h as int,
        ),
        inside(r, box_range(w as int, h as int)),
{
    (
        if x1 - pad < 0 {
            0
        } else {
            x1 - pad
        },
        if y1 - pad < 0 {
            0
        } else {
            y1 - pad
        },
        if w - 6 < x2 + pad {
            w - 6
        } else {
            x2 + pad
        },
        if h - 6 < y2 + pad {
            h - 6
        } else {
            y2 + pad
        },
    )
}

/// A component of white pixels that has the shape of a line of writing in a
/// picture of height `h`.
pub open spec fn is_caption(grid: Seq<bool>, w: int, h: int, c: Component) -> bool {
    let (cw, ch) = (c.x2 - c.x1, c.y2 - c.y1);
    let shape = whole(cw).spec_over(whole(ch));
    let fill = whole(c.area as int).spec_over(box_cells(c));
    &&& c.area >= 1200
    &&& textlike(grid, w, c)
    &&& !whole(ch).spec_lt(whole(h).spec_times(ratio(12, 1000)))
    &&& !whole(h).spec_times(ratio(9, 100)).spec_lt(whole(ch))
    &&& cw >= ch
    &&& !shape.spec_lt(whole(2))
    &&& !whole(15).spec_lt(shape)
    &&& !fill.spec_lt(ratio(2, 10))
    &&& !ratio(95, 100).spec_lt(fill)
}

/// How much a caption weighs: large, long and close to the bottom right
/// corner is more.
pub open spec fn caption_score(w: int, h: int, c: Component) -> Double {
    let shape = whole(c.x2 - c.x1).spec_over(whole(c.y2 - c.y1));
    let far = whole((w - c.x2) + (h - c.y2));
    whole(c.area as int).spec_times(shape.spec_over(whole(6)).spec_min(whole(1))).spec_over(
        whole(1).spec_plus(far.spec_over(whole(w).spec_times(ratio(1, 10)))),
    )
}

/// The captions among the first `n` components.
pub open spec fn captions(
    grid: Seq<bool>,
    w: int,
    h: int,
    parts: Seq<Component>,
    n: int,
) -> Seq<Component>
    decreases n,
{
    if n <= 0 {
        seq![]
    } else {
        let before = captions(grid, w, h, parts, n - 1);
        if is_caption(grid, w, h, parts[n - 1]) {
            before.push(parts[n - 1])
        } else {
            before
        }
    }
}

/// The highest score among the first `n` captions, or zero.
pub open spec fn top_score(w: int, h: int, found: Seq<Component>, n: int) -> Double
    decreases n,
{
    if n <= 0 {
        whole(0)
    } else {
        top_score(w, h, found, n - 1).spec_max(caption_score(w, h, found[n - 1]))
    }
}

/// The boxes of those of the first `n` captions that score at least
/// `threshold`.
pub open spec fn weighty(
    w: int,
    h: int,
    found: Seq<Component>,
    threshold: Double,
    n: int,
) -> Seq<Frame>
    decreases n,
{
    if n <= 0 {
        seq![]
    } else {
        let before = weighty(w, h, found, threshold, n - 1);
        let c = found[n - 1];
        if caption_score(w, h, c).spec_lt(threshold) {
            before
        } else {
            before.push(
                padded(
                    c.x1 as int,
                    c.y1 as int,
                    c.x2 as int,
                    c.y2 as int,
                    margin(h),
                    w,
                    h,
                ),
            )
        }
    }
}

/// The pixels of a picture that are almost white.
pub open spec fn white(picture: &Picture) -> Seq<bool> {
    Seq::new(
        picture.area() as nat,
        |i: int|
            picture.channel(i, 0) >= 248 && picture.channel(i, 1) >= 248 && picture.channel(i, 2)
                >= 248,
    )
}

/// The boxes of white writing anywhere in a picture.
pub open spec fn white_boxes(picture: &Picture) -> Seq<Frame> {
    let (w, h) = (picture.width as int, picture.height as int);
    let grid = white(picture);
    let parts = components(dilated(grid, w, h, 8, 2), w);
    let found = captions(grid, w, h, parts, parts.len() as int);
    let threshold = top_score(w, h, found, found.len() as int).spec_times(ratio(4, 100));
    weighty(w, h, found, threshold, found.len() as int)
}

fn caption(grid: &[bool], w: usize, h: usize, c: &Component) -> (r: bool)
    requires
        grid@.len() == w * h,
        within_grid(w as int, h as int, *c),
    ensures
        r == is_caption(grid@, w as int, h as int, *c),
{
    if c.area < 1200 || !looks_like_text(grid, w, h, c) {
        return false;
    }
    let cw: usize = c.x2 - c.x1;
    let ch: usize = c.y2 - c.y1;
    let wide = Double::from_count(cw);
    let tall = Double::from_count(ch);
    let height = Double::from_count(h);
    if tall.less(height.times(Double::decimal(12, 1000))) || height.times(
        Double::decimal(9, 100),
    ).less(tall) || cw < ch {
        return false;
    }
    let shape = wide.over(tall);
    if shape.less(Double::from_int(2)) || Double::from_int(15).less(shape) {
        return false;
    }
    let fill = Double::from_count(c.area).over(wide.times(tall));
    !fill.less(Double::decimal(2, 10)) && !Double::decimal(95, 100).less(fill)
}

fn score(w: usize, h: usize, c: &Component) -> (r: Double)
    requires
        within_grid(w as int, h as int, *c),
        w <= 0xffff_ffff,
        h <= 0xffff_ffff,
    ensures
        r == caption_score(w as int, h as int, *c),
        r.wf(),
        r.spread() <= 2000,
{
    let shape = Double::from_count(c.x2 - c.x1).over(Double::from_count(c.y2 - c.y1));
    let far = Double::from_int((w - c.x2) as i64 + (h - c.y2) as i64);
    let reach = Double::from_count(w).times(Double::decimal(1, 10));
    let near = Double::from_int(1).plus(far.over(reach));
    Double::from_count(c.area).times(
        shape.over(Double::from_int(6)).min(Double::from_int(1)),
    ).over(near)
}

fn white_grid(picture: &Picture) -> (r: Vec<bool>)
    requires
        picture.wf(),
    ensures
        r@ == white(picture),
{
    let n: usize = picture.data.len() / 3;
    let mut out: Vec<bool> = Vec::new();
    let mut i: usize = 0;
    while i < n
        invariant
            picture.wf(),
            n == picture.area(),
            i <= n,
            out@ == white(picture).take(i as int),
        decreases n - i,
    {
        out.push(picture.get(i, 0) >= 248 && picture.get(i, 1) >= 248 && picture.get(i, 2) >= 248);
        i = i + 1;
        proof {
            assert(out@ =~= white(picture).take(i as int));
        }
    }
    proof {
        assert(out@ =~= white(picture));
    }
    out
}

/// The margin around a found box.
fn margin_of(h: i64) -> (r: i64)
    requires
        0 <= h <= 0xffff_ffff,
    ensures
        r == margin(h as int),
        10 <= r <= 0xffff_ffff,
{
    if h / 150 < 10 {
        10
    } else {
        h / 150
    }
}

/// Finds white writing anywhere in a picture. Only the boxes that score within
/// a twenty-fifth of the best are kept.
pub fn detect_full_white(picture: &Picture) -> (r: Vec<Frame>)
    requires
        picture.wf(),
    ensures
        r@ == white_boxes(picture),
        all_in_range(r@, picture.width as int, picture.height as int),
        forall|k: int| 0 <= k < r@.len() ==> holds_white(picture, #[trigger] r@[k]),
{
    let w: usize = picture.width as usize;
    let h: usize = picture.height as usize;
    let grid = white_grid(picture);
    let grown = dilate_rect_9x3_twice(grid.as_slice(), w, h);
    let parts = parts_of(grown.as_slice(), w, h);
    let mut found: Vec<Component> = Vec::new();
    let mut top = Double::zero();
    let mut i: usize = 0;
    while i < parts.len()
        invariant
            i <= parts@.len(),
            w == picture.width,
            h == picture.height,
            grid@.len() == w * h,
            forall|k: int|
                0 <= k < parts@.len() ==> within_grid(w as int, h as int, #[trigger] parts@[k]),
            found@ == captions(grid@, w as int, h as int, parts@, i as int),
            forall|k: int|
                0 <= k < found@.len() ==> within_grid(w as int, h as int, #[trigger] found@[k]),
            top.wf(),
            top.spread() <= 2000,
            top == top_score(w as int, h as int, found@, found@.len() as int),
        decreases parts@.len() - i,
    {
        let c: Component = parts[i];
        if caption(grid.as_slice(), w, h, &c) {
            let ghost before = found@;
            top = top.max(score(w, h, &c));
            found.push(c);
            proof {
                lemma_top_score_prefix(w as int, h as int, before, found@, before.len() as int);
            }
        }
        i = i + 1;
    }
    let threshold = top.times(Double::decimal(4, 100));
    let pad: i64 = margin_of(h as i64);
    let mut out: Vec<Frame> = Vec::new();
    let mut j: usize = 0;
    while j < found.len()
        invariant
            j <= found@.len(),
            w == picture.width,
            h == picture.height,
            pad == margin(h as int),
            10 <= pad <= 0xffff_ffff,
            threshold.wf(),
            forall|k: int|
                0 <= k < found@.len() ==> within_grid(w as int, h as int, #[trigger] found@[k]),
            out@ == weighty(w as int, h as int, found@, threshold, j as int),
            all_in_range(out@, w as int, h as int),
        decreases found@.len() - j,
    {
        let c: Component = found[j];
        if !score(w, h, &c).less(threshold) {
            out.push(
                pad_box(
                    c.x1 as i64,
                    c.y1 as i64,
                    c.x2 as i64,
                    c.y2 as i64,
                    pad,
                    w as i64,
                    h as i64,
                ),
            );
        }
        j = j + 1;
    }
    proof {
        assert forall|k: int| 0 <= k < out@.len() implies holds_white(picture, #[trigger] out@[k]) by {
            lemma_white_boxes_hold_white(picture, k);
        }
    }
    out
}

proof fn lemma_top_score_prefix(w: int, h: int, a: Seq<Component>, b: Seq<Component>, n: int)
    requires
        0 <= n <= a.len(),
        n <= b.len(),
        forall|k: int| 0 <= k < n ==> a[k] == b[k],
    ensures
        top_score(w, h, a, n) == top_score(w, h, b, n),
    decreases n,
{
    if n > 0 {
        lemma_top_score_prefix(w, h, a, b, n - 1);
    }
}

/// A part of a picture that starts at column `x0` and row `y0`.
#[derive(Clone, Copy)]
pub struct Corner {
    pub x0: usize,
    pub y0: usize,
    pub rw: usize,
    pub rh: usize,
    pub w: i64,
    pub h: i64,
    pub pad: i64,
}

impl Corner {
    pub open spec fn wf(&self) -> bool {
        &&& 0 <= self.w <= 0xffff_ffff
        &&& 0 <= self.h <= 0xffff_ffff
        &&& self.x0 + self.rw <= self.w
        &&& self.y0 + self.rh <= self.h
        &&& 0 <= self.pad <= 0xffff_ffff
        &&& measurable(self.w as int, self.h as int)
    }

    /// A box inside the part, padded and moved to the picture.
    pub open spec fn lifted(&self, x1: int, y1: int, x2: int, y2: int) -> Frame {
        padded(
            self.x0 + x1,
            self.y0 + y1,
            self.x0 + x2,
            self.y0 + y2,
            self.pad as int,
            self.w as int,
            self.h as int,
        )
    }

    /// A box of the part comes within 40 pixels of the bottom right corner.
    pub open spec fn hugs(&self, x2: int, y2: int) -> bool {
        self.x0 + x2 >= self.w - 40 && self.y0 + y2 >= self.h - 40
    }
}

/// A component of the part that has the shape of a whole line of writing in
/// the corner of the picture.
pub open spec fn is_line(grid: Seq<bool>, part: &Corner, c: Component) -> bool {
    let (cw, ch) = (c.x2 - c.x1, c.y2 - c.y1);
    let fill = whole(c.area as int).spec_over(box_cells(c));
    &&& c.area >= 400
    &&& cw >= ch
    &&& cw / ch <= 20
    &&& !fill.spec_lt(ratio(15, 100))
    &&& !ratio(95, 100).spec_lt(fill)
    &&& !whole(part.h as int).spec_times(ratio(6, 100)).spec_lt(whole(ch))
    &&& part.hugs(c.x2 as int, c.y2 as int)
    &&& textlike(grid, part.rw as int, c)
}

/// The boxes of the lines among the first `n` components.
pub open spec fn lines_among(
    grid: Seq<bool>,
    part: &Corner,
    parts: Seq<Component>,
    n: int,
) -> Seq<Frame>
    decreases n,
{
    if n <= 0 {
        seq![]
    } else {
        let before = lines_among(grid, part, parts, n - 1);
        let c = parts[n - 1];
        if is_line(grid, part, c) {
            before.push(part.lifted(c.x1 as int, c.y1 as int, c.x2 as int, c.y2 as int))
        } else {
            before
        }
    }
}

/// The boxes of whole lines of writing in the corner.
pub open spec fn row_boxes(grid: Seq<bool>, part: &Corner) -> Seq<Frame> {
    let (rw, rh) = (part.rw as int, part.rh as int);
    let parts = components(dilated(grid, rw, rh, 8, 2), rw);
    lines_among(grid, part, parts, parts.len() as int)
}

fn line(grid: &[bool], part: &Corner, c: &Component) -> (r: bool)
    requires
        part.wf(),
        grid@.len() == part.rw * part.rh,
        within_grid(part.rw as int, part.rh as int, *c),
    ensures
        r == is_line(grid@, part, *c),
{
    let cw: usize = c.x2 - c.x1;
    let ch: usize = c.y2 - c.y1;
    if c.area < 400 || cw < ch || cw / ch > 20 {
        return false;
    }
    let wide = Double::from_count(cw);
    let tall = Double::from_count(ch);
    let fill = Double::from_count(c.area).over(wide.times(tall));
    if fill.less(Double::decimal(15, 100)) || Double::decimal(95, 100).less(fill) {
        return false;
    }
    if Double::from_int(part.h).times(Double::decimal(6, 100)).less(tall) {
        return false;
    }
    let gx2: i64 = (part.x0 + c.x2) as i64;
    let gy2: i64 = (part.y0 + c.y2) as i64;
    if gx2 < part.w - 40 || gy2 < part.h - 40 {
        return false;
    }
    looks_like_text(grid, part.rw, part.rh, c)
}

/// Finds whole lines of writing in the corner of a picture, characters joined.
pub fn corner_row_boxes(grid: &[bool], part: &Corner) -> (r: Vec<Frame>)
    requires
        part.wf(),
        grid@.len() == part.rw * part.rh,
    ensures
        r@ == row_boxes(grid@, part),
        all_in_range(r@, part.w as int, part.h as int),
{
    let grown = dilate_rect_9x3_twice(grid, part.rw, part.rh);
    let parts = parts_of(grown.as_slice(), part.rw, part.rh);
    let mut out: Vec<Frame> = Vec::new();
    let mut i: usize = 0;
    while i < parts.len()
        invariant
            i <= parts@.len(),
            part.wf(),
            grid@.len() == part.rw * part.rh,
            forall|k: int|
                0 <= k < parts@.len() ==> within_grid(
                    part.rw as int,
                    part.rh as int,
                    #[trigger] parts@[k],
                ),
            out@ == lines_among(grid@, part, parts@, i as int),
            all_in_range(out@, part.w as int, part.h as int),
        decreases parts@.len() - i,
    {
        let c: Component = parts[i];
        if line(grid, part, &c) {
            out.push(
                pad_box(
                    (part.x0 + c.x1) as i64,
                    (part.y0 + c.y1) as i64,
                    (part.x0 + c.x2) as i64,
                    (part.y0 + c.y2) as i64,
                    part.pad,
                    part.w,
                    part.h,
                ),
            );
        }
        i = i + 1;
    }
    out
}

/// A component with the size of a character in a picture of height `h`.
pub open spec fn is_glyph(h: int, c: Component) -> bool {
    let wide = whole(c.x2 - c.x1);
    let tall = whole(c.y2 - c.y1);
    &&& !tall.spec_lt(whole(h).spec_times(ratio(12, 1000)))
    &&& !whole(h).spec_times(ratio(45, 1000)).spec_lt(tall)
    &&& !wide.spec_lt(tall.spec_times(ratio(25, 100)))
    &&& !tall.spec_times(whole(7)).spec_lt(wide)
    &&& c.area >= 120
}

/// The characters among the first `n` components.
pub open spec fn glyphs(h: int, parts: Seq<Component>, n: int) -> Seq<Component>
    decreases n,
{
    if n <= 0 {
        seq![]
    } else {
        let before = glyphs(h, parts, n - 1);
        if is_glyph(h, parts[n - 1]) {
            before.push(parts[n - 1])
        } else {
            before
        }
    }
}

/// Twice the vertical middle of a component.
pub open spec fn twice_middle(c: Component) -> int {
    c.y1 + c.y2
}

/// `c` put into a list ordered by middles, behind those with the same middle.
pub open spec fn slotted(list: Seq<Component>, c: Component) -> Seq<Component>
    decreases list.len(),
{
    if list.len() == 0 || twice_middle(list.last()) <= twice_middle(c) {
        list.push(c)
    } else {
        slotted(list.drop_last(), c).push(list.last())
    }
}

/// The first `n` components ordered from top to bottom.
pub open spec fn ordered(list: Seq<Component>, n: int) -> Seq<Component>
    decreases n,
{
    if n <= 0 {
        seq![]
    } else {
        slotted(ordered(list, n - 1), list[n - 1])
    }
}

/// Twice the sum of the middles of the first `n` members of a row.
pub open spec fn middle_sum(members: Seq<Component>, n: int) -> int
    decreases n,
{
    if n <= 0 {
        0
    } else {
        middle_sum(members, n - 1) + twice_middle(members[n - 1])
    }
}

/// The mean middle of a row, without its fraction.
pub open spec fn mean_middle(members: Seq<Component>) -> int {
    whole(middle_sum(members, members.len() as int)).spec_over(whole(2)).spec_over(
        whole(members.len() as int),
    ).spec_trunc()
}

/// A row of characters: its members, its middle and its tallest member.
pub type RowView = (Seq<Component>, int, int);

/// A character belongs to a row if their middles differ by less than 70 % of
/// the taller of the two.
pub open spec fn belongs(row: RowView, c: Component) -> bool {
    let reach = whole(larger(c.y2 - c.y1, row.2)).spec_times(ratio(7, 10)).spec_trunc();
    let gap = twice_middle(c) / 2 - row.1;
    -reach < gap < reach
}

/// A row with one more character.
pub open spec fn extended(row: RowView, c: Component) -> RowView {
    let members = row.0.push(c);
    (members, mean_middle(members), larger(row.2, c.y2 - c.y1))
}

/// A character put into the first row from `i` on that it belongs to, else
/// into a row of its own.
pub open spec fn seated(rows: Seq<RowView>, c: Component, i: int) -> Seq<RowView>
    decreases rows.len() - i,
{
    if i < 0 || i >= rows.len() {
        rows.push((seq![c], twice_middle(c) / 2, c.y2 - c.y1))
    } else if belongs(rows[i], c) {
        rows.update(i, extended(rows[i], c))
    } else {
        seated(rows, c, i + 1)
    }
}

/// The rows that the first `n` characters make.
pub open spec fn rows_of(chars: Seq<Component>, n: int) -> Seq<RowView>
    decreases n,
{
    if n <= 0 {
        seq![]
    } else {
        seated(rows_of(chars, n - 1), chars[n - 1], 0)
    }
}

/// What spans the first `n` members of a row.
#[derive(Clone, Copy)]
pub struct Span {
    pub x1: usize,
    pub y1: usize,
    pub x2: usize,
    pub y2: usize,
    pub least: usize,
    pub most: usize,
}

pub open spec fn least_of(a: usize, b: usize) -> usize {
    if b < a {
        b
    } else {
        a
    }
}

pub open spec fn most_of(a: usize, b: usize) -> usize {
    if a < b {
        b
    } else {
        a
    }
}

/// The box around the first `n` members and their least and greatest heights.
pub open spec fn span(members: Seq<Component>, n: int) -> Span
    decreases n,
{
    let c = members[n - 1];
    let tall = (c.y2 - c.y1) as usize;
    if n <= 1 {
        Span { x1: c.x1, y1: c.y1, x2: c.x2, y2: c.y2, least: tall, most: tall }
    } else {
        let s = span(members, n - 1);
        Span {
            x1: least_of(s.x1, c.x1),
            y1: least_of(s.y1, c.y1),
            x2: most_of(s.x2, c.x2),
            y2: most_of(s.y2, c.y2),
            least: least_of(s.least, tall),
            most: most_of(s.most, tall),
        }
    }
}

/// A row of four or more characters of like height in the corner of the
/// picture.
pub open spec fn is_row(part: &Corner, row: RowView) -> bool {
    let s = span(row.0, row.0.len() as int);
    &&& row.0.len() >= 4
    &&& s.most * 10 <= larger(s.least as int, 1) * 18
    &&& part.hugs(s.x2 as int, s.y2 as int)
}

/// The boxes of the proper rows among the first `n`.
pub open spec fn rows_kept(part: &Corner, rows: Seq<RowView>, n: int) -> Seq<Frame>
    decreases n,
{
    if n <= 0 {
        seq![]
    } else {
        let before = rows_kept(part, rows, n - 1);
        let row = rows[n - 1];
        let s = span(row.0, row.0.len() as int);
        if is_row(part, row) {
            before.push(part.lifted(s.x1 as int, s.y1 as int, s.x2 as int, s.y2 as int))
        } else {
            before
        }
    }
}

/// The boxes of rows of separate characters in the corner.
pub open spec fn text_boxes(grid: Seq<bool>, part: &Corner) -> Seq<Frame> {
    let (rw, rh) = (part.rw as int, part.rh as int);
    let parts = components(dilated(grid, rw, rh, 2, 2), rw);
    let found = glyphs(part.h as int, parts, parts.len() as int);
    if found.len() < 4 {
        seq![]
    } else {
        let chars = ordered(found, found.len() as int);
        let rows = rows_of(chars, chars.len() as int);
        rows_kept(part, rows, rows.len() as int)
    }
}

struct Row {
    members: Vec<Component>,
    middle: i64,
    tall: i64,
}

impl Row {
    spec fn view(&self) -> RowView {
        (self.members@, self.middle as int, self.tall as int)
    }

    /// Every member lies in the part, and there are at most `n` of them.
    spec fn wf(&self, part: &Corner, n: int) -> bool {
        &&& 1 <= self.members@.len() <= n
        &&& forall|k: int|
            0 <= k < self.members@.len() ==> within_grid(
                part.rw as int,
                part.rh as int,
                #[trigger] self.members@[k],
            )
        &&& 0 <= self.middle
        &&& 0 <= self.tall <= part.rh
    }
}

spec fn row_views(rows: Seq<Row>) -> Seq<RowView> {
    Seq::new(rows.len(), |i: int| rows[i].view())
}

fn glyph(h: i64, c: &Component) -> (r: bool)
    requires
        c.x1 < c.x2,
        c.y1 < c.y2,
    ensures
        r == is_glyph(h as int, *c),
{
    let wide = Double::from_count(c.x2 - c.x1);
    let tall = Double::from_count(c.y2 - c.y1);
    let height = Double::from_int(h);
    if tall.less(height.times(Double::decimal(12, 1000))) || height.times(
        Double::decimal(45, 1000),
    ).less(tall) {
        return false;
    }
    if wide.less(tall.times(Double::decimal(25, 100))) || tall.times(Double::from_int(7)).less(
        wide,
    ) || c.area < 120 {
        return false;
    }
    true
}

proof fn lemma_slotted(list: Seq<Component>, c: Component, at: int)
    requires
        0 <= at <= list.len(),
        forall|k: int|
            at <= k < list.len() ==> twice_middle(#[trigger] list[k]) > twice_middle(c),
        at > 0 ==> twice_middle(list[at - 1]) <= twice_middle(c),
    ensures
        slotted(list, c) == list.insert(at, c),
    decreases list.len(),
{
    if at == list.len() {
        assert(list.insert(at, c) =~= list.push(c));
    } else {
        lemma_slotted(list.drop_last(), c, at);
        assert(list.insert(at, c) =~= list.drop_last().insert(at, c).push(list.last()));
    }
}

/// Orders components from top to bottom.
fn order(list: &[Component], h: usize) -> (r: Vec<Component>)
    requires
        h <= 0xffff_ffff,
        forall|k: int|
            0 <= k < list@.len() ==> (#[trigger] list@[k]).y1 <= h && list@[k].y2 <= h,
    ensures
        r@ == ordered(list@, list@.len() as int),
        r@.len() == list@.len(),
        forall|k: int| 0 <= k < r@.len() ==> list@.contains(#[trigger] r@[k]),
{
    let n: usize = list.len();
    let mut out: Vec<Component> = Vec::new();
    let mut i: usize = 0;
    while i < n
        invariant
            n == list@.len(),
            i <= n,
            h <= 0xffff_ffff,
            forall|k: int|
                0 <= k < list@.len() ==> (#[trigger] list@[k]).y1 <= h && list@[k].y2 <= h,
            out@ == ordered(list@, i as int),
            out@.len() == i,
            forall|k: int| 0 <= k < out@.len() ==> list@.contains(#[trigger] out@[k]),
        decreases n - i,
    {
        let c: Component = list[i];
        let mut at: usize = out.len();
        proof {
            assert forall|k: int| 0 <= k < out@.len() implies (#[trigger] out@[k]).y1 <= h
                && out@[k].y2 <= h by {
                assert(list@.contains(out@[k]));
            }
        }
        while at > 0 && out[at - 1].y1 as u64 + out[at - 1].y2 as u64 > c.y1 as u64 + c.y2 as u64
            invariant
                at <= out@.len(),
                h <= 0xffff_ffff,
                c.y1 <= h,
                c.y2 <= h,
                forall|k: int|
                    0 <= k < out@.len() ==> (#[trigger] out@[k]).y1 <= h && out@[k].y2 <= h,
                forall|k: int|
                    at <= k < out@.len() ==> twice_middle(#[trigger] out@[k]) > twice_middle(c),
            decreases at,
        {
            at = at - 1;
        }
        let ghost before = out@;
        proof {
            lemma_slotted(out@, c, at as int);
        }
        out.insert(at, c);
        proof {
            assert forall|k: int| 0 <= k < out@.len() implies list@.contains(#[trigger] out@[k]) by {
                if k < at {
                    assert(out@[k] == before[k]);
                } else if k == at {
                    assert(list@[i as int] == c);
                } else {
                    assert(out@[k] == before[k - 1]);
                }
            }
        }
        i = i + 1;
    }
    out
}

/// The bounds that keep the sums over a row in 64 bits.
spec fn summable(part: &Corner, n: int) -> bool {
    0 <= n && 2 * (part.rh * n) <= 0x4000_0000_0000_0000
}

proof fn lemma_middle_sum_bound(part: &Corner, members: Seq<Component>, n: int)
    requires
        0 <= n <= members.len(),
        forall|k: int|
            0 <= k < members.len() ==> within_grid(
                part.rw as int,
                part.rh as int,
                #[trigger] members[k],
            ),
    ensures
        0 <= middle_sum(members, n) <= 2 * (part.rh * n),
    decreases n,
{
    if n > 0 {
        lemma_middle_sum_bound(part, members, n - 1);
        assert(part.rh * n == part.rh * (n - 1) + part.rh) by (nonlinear_arith);
        assert(within_grid(part.rw as int, part.rh as int, members[n - 1]));
    }
}

/// The mean middle of a row.
fn mean_of(part: &Corner, members: &[Component]) -> (r: i64)
    requires
        part.wf(),
        members@.len() > 0,
        summable(part, members@.len() as int),
        forall|k: int|
            0 <= k < members@.len() ==> within_grid(
                part.rw as int,
                part.rh as int,
                #[trigger] members@[k],
            ),
    ensures
        r == mean_middle(members@),
        r >= 0,
{
    let n: usize = members.len();
    let mut i: usize = 0;
    let mut sum: i64 = 0;
    while i < n
        invariant
            n == members@.len(),
            i <= n,
            part.wf(),
            summable(part, n as int),
            sum == middle_sum(members@, i as int),
            forall|k: int|
                0 <= k < members@.len() ==> within_grid(
                    part.rw as int,
                    part.rh as int,
                    #[trigger] members@[k],
                ),
        decreases n - i,
    {
        let c: Component = members[i];
        proof {
            lemma_middle_sum_bound(part, members@, i + 1);
            assert(part.rh * (i + 1) <= part.rh * n) by (nonlinear_arith)
                requires
                    i + 1 <= n,
            ;
            lemma_middle_sum_bound(part, members@, i as int);
        }
        sum = sum + (c.y1 as i64 + c.y2 as i64);
        i = i + 1;
    }
    proof {
        lemma_middle_sum_bound(part, members@, n as int);
    }
    Double::from_int(sum).over(Double::from_int(2)).over(Double::from_count(n)).trunc()
}

fn member(row: &Row, c: &Component, Ghost(part): Ghost<&Corner>, Ghost(n): Ghost<int>) -> (r: bool)
    requires
        part.wf(),
        row.wf(part, n),
        within_grid(part.rw as int, part.rh as int, *c),
    ensures
        r == belongs(row.view(), *c),
{
    let tall: i64 = (c.y2 - c.y1) as i64;
    let taller: i64 = if tall < row.tall {
        row.tall
    } else {
        tall
    };
    let reach: i64 = Double::from_int(taller).times(Double::decimal(7, 10)).trunc();
    let gap: i64 = (c.y1 as i64 + c.y2 as i64) / 2 - row.middle;
    -reach < gap && gap < reach
}

/// Puts a character into its row.
fn seat(rows: &mut Vec<Row>, c: Component, part: &Corner, Ghost(n): Ghost<int>)
    requires
        part.wf(),
        summable(part, n + 1),
        0 <= n,
        within_grid(part.rw as int, part.rh as int, c),
        forall|k: int| 0 <= k < old(rows)@.len() ==> (#[trigger] old(rows)@[k]).wf(part, n),
    ensures
        row_views(final(rows)@) == seated(row_views(old(rows)@), c, 0),
        forall|k: int| 0 <= k < final(rows)@.len() ==> (#[trigger] final(rows)@[k]).wf(part, n + 1),
{
    let ghost before = rows@;
    let tall: i64 = (c.y2 - c.y1) as i64;
    let mut i: usize = 0;
    while i < rows.len()
        invariant
            i <= rows@.len(),
            rows@ == before,
            before == old(rows)@,
            part.wf(),
            summable(part, n + 1),
            0 <= n,
            tall == c.y2 - c.y1,
            within_grid(part.rw as int, part.rh as int, c),
            forall|k: int| 0 <= k < rows@.len() ==> (#[trigger] rows@[k]).wf(part, n),
            seated(row_views(before), c, i as int) == seated(row_views(before), c, 0),
        decreases rows@.len() - i,
    {
        proof {
            assert(rows@[i as int].wf(part, n));
        }
        if member(&rows[i], &c, Ghost(part), Ghost(n)) {
            let mut row = rows.remove(i);
            let ghost held = row.view();
            row.members.push(c);
            proof {
                assert(part.rh * row.members@.len() <= part.rh * (n + 1)) by (nonlinear_arith)
                    requires
                        row.members@.len() <= n + 1,
                ;
            }
            row.middle = mean_of(part, row.members.as_slice());
            if row.tall < tall {
                row.tall = tall;
            }
            let ghost next = row.view();
            rows.insert(i, row);
            proof {
                assert(next == extended(held, c));
                assert(row_views(rows@) =~= row_views(before).update(i as int, next));
                assert forall|k: int| 0 <= k < rows@.len() implies (#[trigger] rows@[k]).wf(
                    part,
                    n + 1,
                ) by {
                    if k != i {
                        assert(rows@[k] == before[k]);
                        assert(before[k].wf(part, n));
                    }
                }
            }
            return ;
        }
        i = i + 1;
    }
    let members: Vec<Component> = vec![c];
    rows.push(Row { members, middle: (c.y1 as i64 + c.y2 as i64) / 2, tall });
    proof {
        let last = rows@[before.len() as int];
        assert(last.members@ =~= seq![c]);
        assert(row_views(rows@) =~= row_views(before).push(last.view()));
        assert forall|k: int| 0 <= k < rows@.len() implies (#[trigger] rows@[k]).wf(part, n + 1) by {
            if k < before.len() {
                assert(rows@[k] == before[k]);
                assert(before[k].wf(part, n));
            }
        }
    }
}

fn span_of(members: &[Component], Ghost(part): Ghost<&Corner>) -> (r: Span)
    requires
        members@.len() > 0,
        forall|k: int|
            0 <= k < members@.len() ==> within_grid(
                part.rw as int,
                part.rh as int,
                #[trigger] members@[k],
            ),
    ensures
        r == span(members@, members@.len() as int),
        r.x1 < r.x2 <= part.rw,
        r.y1 < r.y2 <= part.rh,
        r.least <= part.rh,
        r.most <= part.rh,
{
    let n: usize = members.len();
    let c: Component = members[0];
    let mut s = Span { x1: c.x1, y1: c.y1, x2: c.x2, y2: c.y2, least: c.y2 - c.y1, most: c.y2 - c.y1 };
    let mut i: usize = 1;
    while i < n
        invariant
            n == members@.len(),
            1 <= i <= n,
            forall|k: int|
                0 <= k < members@.len() ==> within_grid(
                    part.rw as int,
                    part.rh as int,
                    #[trigger] members@[k],
                ),
            s == span(members@, i as int),
            s.x1 < s.x2 <= part.rw,
            s.y1 < s.y2 <= part.rh,
            s.least <= part.rh,
            s.most <= part.rh,
        decreases n - i,
    {
        let c: Component = members[i];
        let tall: usize = c.y2 - c.y1;
        s = Span {
            x1: if c.x1 < s.x1 {
                c.x1
            } else {
                s.x1
            },
            y1: if c.y1 < s.y1 {
                c.y1
            } else {
                s.y1
            },
            x2: if s.x2 < c.x2 {
                c.x2
            } else {
                s.x2
            },
            y2: if s.y2 < c.y2 {
                c.y2
            } else {
                s.y2
            },
            least: if tall < s.least {
                tall
            } else {
                s.least
            },
            most: if s.most < tall {
                tall
            } else {
                s.most
            },
        };
        i = i + 1;
    }
    s
}

/// Finds rows of separate characters of like height in the corner of a
/// picture.
pub fn corner_text_boxes(grid: &[bool], part: &Corner) -> (r: Vec<Frame>)
    requires
        part.wf(),
        grid@.len() == part.rw * part.rh,
    ensures
        r@ == text_boxes(grid@, part),
        all_in_range(r@, part.w as int, part.h as int),
{
    let grown = dilate_square5(grid, part.rw, part.rh);
    let parts = parts_of(grown.as_slice(), part.rw, part.rh);
    let mut found: Vec<Component> = Vec::new();
    let mut i: usize = 0;
    while i < parts.len()
        invariant
            i <= parts@.len(),
            part.wf(),
            forall|k: int|
                0 <= k < parts@.len() ==> within_grid(
                    part.rw as int,
                    part.rh as int,
                    #[trigger] parts@[k],
                ),
            found@ == glyphs(part.h as int, parts@, i as int),
            found@.len() <= i,
            forall|k: int|
                0 <= k < found@.len() ==> within_grid(
                    part.rw as int,
                    part.rh as int,
                    #[trigger] found@[k],
                ),
        decreases parts@.len() - i,
    {
        let c: Component = parts[i];
        if glyph(part.h, &c) {
            found.push(c);
        }
        i = i + 1;
    }
    if found.len() < 4 {
        let none: Vec<Frame> = Vec::new();
        proof {
            assert(none@ =~= seq![]);
        }
        return none;
    }
    proof {
        lemma_measurable_part(part.w as int, part.h as int, part.rw as int, part.rh as int);
        lemma_measurable_area(part.rw as int, part.rh as int);
        assert(part.rh * found@.len() <= part.rh * (part.rw * part.rh)) by (nonlinear_arith)
            requires
                found@.len() <= part.rw * part.rh,
        ;
    }
    let chars = order(found.as_slice(), part.rh);
    let mut rows: Vec<Row> = Vec::new();
    let mut j: usize = 0;
    proof {
        assert(row_views(rows@) =~= seq![]);
        assert forall|k: int| 0 <= k < chars@.len() implies within_grid(
            part.rw as int,
            part.rh as int,
            #[trigger] chars@[k],
        ) by {
            assert(found@.contains(chars@[k]));
        }
    }
    while j < chars.len()
        invariant
            j <= chars@.len(),
            part.wf(),
            summable(part, chars@.len() as int),
            forall|k: int|
                0 <= k < chars@.len() ==> within_grid(
                    part.rw as int,
                    part.rh as int,
                    #[trigger] chars@[k],
                ),
            row_views(rows@) == rows_of(chars@, j as int),
            forall|k: int| 0 <= k < rows@.len() ==> (#[trigger] rows@[k]).wf(part, j as int),
        decreases chars@.len() - j,
    {
        proof {
            assert(part.rh * (j + 1) <= part.rh * chars@.len()) by (nonlinear_arith)
                requires
                    j + 1 <= chars@.len(),
            ;
        }
        seat(&mut rows, chars[j], part, Ghost(j as int));
        j = j + 1;
    }
    let mut out: Vec<Frame> = Vec::new();
    let mut k: usize = 0;
    while k < rows.len()
        invariant
            k <= rows@.len(),
            part.wf(),
            forall|m: int| 0 <= m < rows@.len() ==> (#[trigger] rows@[m]).wf(part, j as int),
            out@ == rows_kept(part, row_views(rows@), k as int),
            all_in_range(out@, part.w as int, part.h as int),
        decreases rows@.len() - k,
    {
        proof {
            assert(rows@[k as int].wf(part, j as int));
            assert(row_views(rows@)[k as int] == rows@[k as int].view());
        }
        let count: usize = rows[k].members.len();
        let s = span_of(rows[k].members.as_slice(), Ghost(part));
        let floor: u64 = if s.least < 1 {
            1
        } else {
            s.least as u64
        };
        if count >= 4 && s.most as u64 * 10 <= floor * 18 && (part.x0 + s.x2) as i64 >= part.w - 40
            && (part.y0 + s.y2) as i64 >= part.h - 40 {
            out.push(
                pad_box(
                    (part.x0 + s.x1) as i64,
                    (part.y0 + s.y1) as i64,
                    (part.x0 + s.x2) as i64,
                    (part.y0 + s.y2) as i64,
                    part.pad,
                    part.w,
                    part.h,
                ),
            );
        }
        k = k + 1;
    }
    out
}

/// The corner of a picture in which the watermark is looked for: the right
/// 30 % of the columns, the bottom 12 % of the rows.
pub open spec fn corner_start(size: int, percent: int) -> int {
    whole(size).spec_times(ratio(percent, 100)).spec_trunc()
}

/// The tones of at least `threshold`.
pub open spec fn bright(tones: Seq<u8>, threshold: u8) -> Seq<bool> {
    Seq::new(tones.len(), |i: int| tones[i] >= threshold)
}

/// The greyish positions that stand out by at least `threshold`.
pub open spec fn raised(hat: Seq<u8>, colour: Seq<u8>, threshold: u8) -> Seq<bool> {
    Seq::new(hat.len(), |i: int| hat[i] >= threshold && colour[i] <= 60)
}

/// The brightness levels that are tried together.
pub open spec fn levels() -> Seq<u8> {
    seq![248, 240, 230, 220, 210, 200, 190, 180, 170, 160, 150]
}

/// The contrast levels that are tried in turn.
pub open spec fn contrasts() -> Seq<u8> {
    seq![60, 50, 40, 30]
}

/// What the first `n` brightness levels find.
pub open spec fn swept(tones: Seq<u8>, part: &Corner, n: int) -> Seq<Frame>
    decreases n,
{
    if n <= 0 {
        seq![]
    } else {
        let grid = bright(tones, levels()[n - 1]);
        swept(tones, part, n - 1) + text_boxes(grid, part) + row_boxes(grid, part)
    }
}

/// What the first fruitful contrast level from `i` on finds.
pub open spec fn sifted(hat: Seq<u8>, colour: Seq<u8>, part: &Corner, i: int) -> Seq<Frame>
    decreases 4 - i,
{
    if i < 0 || i >= 4 {
        seq![]
    } else {
        let found = text_boxes(raised(hat, colour, contrasts()[i]), part);
        if found.len() > 0 {
            fused(found)
        } else {
            sifted(hat, colour, part, i + 1)
        }
    }
}

/// The boxes of pale writing in the corner of a picture.
pub open spec fn faded_boxes(picture: &Picture) -> Seq<Frame> {
    let (w, h) = (picture.width as int, picture.height as int);
    let (x0, y0) = (corner_start(w, 70), corner_start(h, 88));
    if x0 >= w || y0 >= h {
        seq![]
    } else {
        let part = Corner {
            x0: x0 as usize,
            y0: y0 as usize,
            rw: (w - x0) as usize,
            rh: (h - y0) as usize,
            w: w as i64,
            h: h as i64,
            pad: margin(h) as i64,
        };
        let region = Region { x0: part.x0, y0: part.y0, rw: part.rw, rh: part.rh };
        let tones = region_tones(picture, &region);
        let found = swept(tones, &part, 11);
        if found.len() > 0 {
            fused(found)
        } else {
            let hat = stand_out(
                tones,
                opened(tones, part.rw as int, part.rh as int, by_table(disc_table(), 15)),
            );
            sifted(hat, region_colour(picture, &region), &part, 0)
        }
    }
}

fn bright_grid(tones: &[u8], threshold: u8) -> (r: Vec<bool>)
    ensures
        r@ == bright(tones@, threshold),
{
    let n: usize = tones.len();
    let mut out: Vec<bool> = Vec::new();
    let mut i: usize = 0;
    while i < n
        invariant
            n == tones@.len(),
            i <= n,
            out@ == bright(tones@, threshold).take(i as int),
        decreases n - i,
    {
        out.push(tones[i] >= threshold);
        i = i + 1;
        proof {
            assert(out@ =~= bright(tones@, threshold).take(i as int));
        }
    }
    proof {
        assert(out@ =~= bright(tones@, threshold));
    }
    out
}

fn raised_grid(hat: &[u8], colour: &[u8], threshold: u8) -> (r: Vec<bool>)
    requires
        hat@.len() == colour@.len(),
    ensures
        r@ == raised(hat@, colour@, threshold),
{
    let n: usize = hat.len();
    let mut out: Vec<bool> = Vec::new();
    let mut i: usize = 0;
    while i < n
        invariant
            n == hat@.len(),
            n == colour@.len(),
            i <= n,
            out@ == raised(hat@, colour@, threshold).take(i as int),
        decreases n - i,
    {
        out.push(hat[i] >= threshold && colour[i] <= 60);
        i = i + 1;
        proof {
            assert(out@ =~= raised(hat@, colour@, threshold).take(i as int));
        }
    }
    proof {
        assert(out@ =~= raised(hat@, colour@, threshold));
    }
    out
}

/// Finds pale writing in the corner of a picture: first by brightness at many
/// levels, fused; failing that, by local contrast among greyish pixels.
pub fn detect_corner_faded(picture: &Picture) -> (r: Vec<Frame>)
    requires
        picture.wf(),
    ensures
        r@ == faded_boxes(picture),
        all_in_range(r@, picture.width as int, picture.height as int),
        apart(r@),
{
    let w: i64 = picture.width as i64;
    let h: i64 = picture.height as i64;
    let x0: i64 = Double::from_int(w).times(Double::decimal(70, 100)).trunc();
    let y0: i64 = Double::from_int(h).times(Double::decimal(88, 100)).trunc();
    if x0 >= w || y0 >= h {
        let none: Vec<Frame> = Vec::new();
        proof {
            assert(none@ =~= seq![]);
        }
        return none;
    }
    let part = Corner {
        x0: x0 as usize,
        y0: y0 as usize,
        rw: (w - x0) as usize,
        rh: (h - y0) as usize,
        w,
        h,
        pad: margin_of(h),
    };
    let region = Region { x0: part.x0, y0: part.y0, rw: part.rw, rh: part.rh };
    let (tones, colour) = region_pixels(picture, &region);
    let marks: [u8; 11] = [248, 240, 230, 220, 210, 200, 190, 180, 170, 160, 150];
    let mut found: Vec<Frame> = Vec::new();
    let mut i: usize = 0;
    proof {
        assert(marks@ =~= levels());
        assert(found@ =~= seq![]);
    }
    while i < 11
        invariant
            i <= 11,
            marks@ == levels(),
            part.wf(),
            tones@.len() == part.rw * part.rh,
            found@ == swept(tones@, &part, i as int),
            all_in_range(found@, w as int, h as int),
            part.w == w,
            part.h == h,
        decreases 11 - i,
    {
        let grid = bright_grid(tones.as_slice(), marks[i]);
        let mut by_text = corner_text_boxes(grid.as_slice(), &part);
        let mut by_row = corner_row_boxes(grid.as_slice(), &part);
        found.append(&mut by_text);
        found.append(&mut by_row);
        i = i + 1;
    }
    if found.len() > 0 {
        proof {
            lemma_fused_in_range(found@, w as int, h as int);
            lemma_fused_apart(found@);
        }
        return fuse_boxes(found);
    }
    let hat = top_hat(tones.as_slice(), part.rw, part.rh);
    let steps: [u8; 4] = [60, 50, 40, 30];
    let mut j: usize = 0;
    proof {
        assert(steps@ =~= contrasts());
    }
    while j < 4
        invariant
            j <= 4,
            steps@ == contrasts(),
            part.wf(),
            hat@.len() == part.rw * part.rh,
            colour@.len() == part.rw * part.rh,
            sifted(hat@, colour@, &part, j as int) == faded_boxes(picture),
            part.w == w,
            part.h == h,
            w == picture.width,
            h == picture.height,
        decreases 4 - j,
    {
        let grid = raised_grid(hat.as_slice(), colour.as_slice(), steps[j]);
        let boxes = corner_text_boxes(grid.as_slice(), &part);
        if boxes.len() > 0 {
            proof {
                lemma_fused_in_range(boxes@, w as int, h as int);
                lemma_fused_apart(boxes@);
            }
            return fuse_boxes(boxes);
        }
        j = j + 1;
    }
    let none: Vec<Frame> = Vec::new();
    proof {
        assert(none@ =~= seq![]);
    }
    none
}

/// A box overlaps none of a list.
pub open spec fn free_of(b: Frame, boxes: Seq<Frame>) -> bool {
    forall|i: int| 0 <= i < boxes.len() ==> !overlaps(b, #[trigger] boxes[i])
}

/// The first `n` boxes of `more` added to `boxes`, but for those that overlap
/// what is there already.
pub open spec fn joined_with(boxes: Seq<Frame>, more: Seq<Frame>, n: int) -> Seq<Frame>
    decreases n,
{
    if n <= 0 {
        boxes
    } else {
        let before = joined_with(boxes, more, n - 1);
        if free_of(more[n - 1], before) {
            before.push(more[n - 1])
        } else {
            before
        }
    }
}

/// The watermark boxes of a picture.
pub open spec fn watermark_boxes(picture: &Picture) -> Seq<Frame> {
    let corner = faded_boxes(picture);
    joined_with(white_boxes(picture), corner, corner.len() as int)
}

/// Finds the watermark boxes of a picture: white writing anywhere, and pale
/// writing in the corner where it is not found yet.
pub fn detect_watermark_boxes(picture: &Picture) -> (r: Vec<Frame>)
    requires
        picture.wf(),
    ensures
        r@ == watermark_boxes(picture),
        all_in_range(r@, picture.width as int, picture.height as int),
        forall|i: int, j: int|
            #![trigger r@[i], r@[j]]
            white_boxes(picture).len() <= i < r@.len() && 0 <= j < i ==> !overlaps(r@[i], r@[j]),
{
    let mut full = detect_full_white(picture);
    let corner = detect_corner_faded(picture);
    let ghost found = full@;
    let mut i: usize = 0;
    while i < corner.len()
        invariant
            i <= corner@.len(),
            full@ == joined_with(found, corner@, i as int),
            all_in_range(full@, picture.width as int, picture.height as int),
            all_in_range(corner@, picture.width as int, picture.height as int),
            forall|a: int, c: int|
                #![trigger full@[a], full@[c]]
                found.len() <= a < full@.len() && 0 <= c < a ==> !overlaps(full@[a], full@[c]),
        decreases corner@.len() - i,
    {
        let b: Frame = corner[i];
        let mut clear: bool = true;
        let mut j: usize = 0;
        while j < full.len()
            invariant
                j <= full@.len(),
                clear <==> forall|k: int| 0 <= k < j ==> !overlaps(b, #[trigger] full@[k]),
            decreases full@.len() - j,
        {
            if boxes_overlap(&b, &full[j]) {
                clear = false;
            }
            j = j + 1;
        }
        if clear {
            full.push(b);
        }
        i = i + 1;
    }
    full
}

/// The part of a picture in which found boxes lie.
pub open spec fn box_range(w: int, h: int) -> Frame {
    (0, 0, (w - 6) as i64, (h - 6) as i64)
}

/// Every box of a list lies in the range of a picture.
pub open spec fn all_in_range(boxes: Seq<Frame>, w: int, h: int) -> bool {
    forall|i: int| 0 <= i < boxes.len() ==> inside(#[trigger] boxes[i], box_range(w, h))
}

proof fn lemma_fused_in_range(boxes: Seq<Frame>, w: int, h: int)
    requires
        all_in_range(boxes, w, h),
    ensures
        all_in_range(fused(boxes), w, h),
{
    let family = seq![box_range(w, h)];
    assert(apart(family));
    assert forall|i: int| 0 <= i < boxes.len() implies held_by(#[trigger] boxes[i], family) by {
        assert(inside(boxes[i], family[0]));
    }
    lemma_fused_least(boxes, family);
    assert forall|i: int| 0 <= i < fused(boxes).len() implies inside(
        #[trigger] fused(boxes)[i],
        box_range(w, h),
    ) by {
        assert(held_by(fused(boxes)[i], family));
    }
}

/// A pixel is taken for white exactly if all three channels are at least 248: so
/// one of (255, 255, 255) is, and one with any channel below is not.
pub proof fn lemma_white_is_bright_in_all_channels(picture: &Picture, i: int)
    requires
        0 <= i < picture.area(),
    ensures
        white(picture).len() == picture.area(),
        white(picture)[i] <==> picture.data@[3 * i] >= 248 && picture.data@[3 * i + 1] >= 248
            && picture.data@[3 * i + 2] >= 248,
{
}

/// An inked column holds a set cell.
proof fn lemma_inked_holds_ink(grid: Seq<bool>, w: int, c: Component, x: int)
    requires
        0 < c.y2 - c.y1 <= 0x1_0000_0000,
        inked(grid, w, c, x),
    ensures
        exists|y: int| c.y1 <= y < c.y2 && #[trigger] lit(grid, w, x, y),
{
    let (n, tall) = (ink(grid, w, x, c.y1 as int, c.y2 as int), c.y2 - c.y1);
    lemma_ink_bound(grid, w, x, c.y1 as int, c.y2 as int);
    let part = whole(tall).spec_times(ratio(8, 100));
    let least = part.spec_max(whole(1));
    reveal(Double::spec_max);
    lemma_whole_value(n);
    lemma_whole_value(1);
    lemma_less_by_value(part, whole(1));
    lemma_less_by_value(whole(n), least);
    assert(value(least) >= (1 as real));
    assert(n >= 1);
    lemma_ink_somewhere(grid, w, x, c.y1 as int, c.y2 as int);
}

proof fn lemma_ink_somewhere(grid: Seq<bool>, w: int, x: int, y1: int, y2: int)
    requires
        ink(grid, w, x, y1, y2) >= 1,
    ensures
        exists|y: int| y1 <= y < y2 && #[trigger] lit(grid, w, x, y),
    decreases y2 - y1,
{
    if lit(grid, w, x, y2 - 1) {
    } else {
        lemma_ink_somewhere(grid, w, x, y1, y2 - 1);
        let y = choose|y: int| y1 <= y < y2 - 1 && #[trigger] lit(grid, w, x, y);
        assert(lit(grid, w, x, y));
    }
}

proof fn lemma_runs_somewhere(grid: Seq<bool>, w: int, c: Component, x: int)
    requires
        runs(grid, w, c, x) >= 1,
    ensures
        exists|k: int| c.x1 <= k < x && #[trigger] inked(grid, w, c, k),
    decreases x,
{
    if x > c.x1 {
        if inked(grid, w, c, x - 1) {
        } else {
            lemma_runs_somewhere(grid, w, c, x - 1);
            let k = choose|k: int| c.x1 <= k < x - 1 && #[trigger] inked(grid, w, c, k);
            assert(inked(grid, w, c, k));
        }
    }
}

/// A box holds a pixel whose three channels are all at least 248. The box may
/// end six pixels before the picture does.
pub open spec fn holds_white(picture: &Picture, b: Frame) -> bool {
    exists|x: int, y: int|
        {
            &&& 0 <= x < picture.width
            &&& 0 <= y < picture.height
            &&& b.0 <= x
            &&& b.1 <= y
            &&& x < b.2 || x >= picture.width - 6
            &&& y < b.3 || y >= picture.height - 6
            &&& #[trigger] is_white_at(picture, x, y)
        }
}

/// All three channels in column `x` of row `y` are at least 248.
pub open spec fn is_white_at(picture: &Picture, x: int, y: int) -> bool {
    let i = y * picture.width + x;
    picture.data@[3 * i] >= 248 && picture.data@[3 * i + 1] >= 248 && picture.data@[3 * i + 2] >= 248
}

proof fn lemma_caption_holds_white(picture: &Picture, c: Component)
    requires
        picture.wf(),
        within_grid(picture.width as int, picture.height as int, c),
        is_caption(white(picture), picture.width as int, picture.height as int, c),
    ensures
        ({
            let (w, h) = (picture.width as int, picture.height as int);
            holds_white(
                picture,
                padded(c.x1 as int, c.y1 as int, c.x2 as int, c.y2 as int, margin(h), w, h),
            )
        }),
{
    let (w, h) = (picture.width as int, picture.height as int);
    let grid = white(picture);
    lemma_runs_somewhere(grid, w, c, c.x2 as int);
    let x = choose|k: int| c.x1 <= k < c.x2 && #[trigger] inked(grid, w, c, k);
    lemma_inked_holds_ink(grid, w, c, x);
    let y = choose|y: int| c.y1 <= y < c.y2 && #[trigger] lit(grid, w, x, y);
    lemma_cell(w, h, x, y);
    lemma_white_is_bright_in_all_channels(picture, y * w + x);
    assert(is_white_at(picture, x, y));
}

proof fn lemma_captions_within(
    grid: Seq<bool>,
    w: int,
    h: int,
    parts: Seq<Component>,
    n: int,
    k: int,
)
    requires
        0 <= n <= parts.len(),
        0 <= k < captions(grid, w, h, parts, n).len(),
    ensures
        is_caption(grid, w, h, captions(grid, w, h, parts, n)[k]),
        exists|j: int| 0 <= j < n && #[trigger] parts[j] == captions(grid, w, h, parts, n)[k],
    decreases n,
{
    if n > 0 {
        let before = captions(grid, w, h, parts, n - 1);
        if k < before.len() {
            lemma_captions_within(grid, w, h, parts, n - 1, k);
            let j = choose|j: int| 0 <= j < n - 1 && #[trigger] parts[j] == before[k];
            assert(parts[j] == captions(grid, w, h, parts, n)[k]);
        } else {
            assert(parts[n - 1] == captions(grid, w, h, parts, n)[k]);
        }
    }
}

proof fn lemma_weighty_hold_white(
    picture: &Picture,
    found: Seq<Component>,
    threshold: Double,
    n: int,
    k: int,
)
    requires
        picture.wf(),
        0 <= n <= found.len(),
        forall|j: int|
            0 <= j < n ==> within_grid(
                picture.width as int,
                picture.height as int,
                #[trigger] found[j],
            ) && is_caption(
                white(picture),
                picture.width as int,
                picture.height as int,
                found[j],
            ),
        0 <= k < weighty(
            picture.width as int,
            picture.height as int,
            found,
            threshold,
            n,
        ).len(),
    ensures
        holds_white(
            picture,
            weighty(picture.width as int, picture.height as int, found, threshold, n)[k],
        ),
    decreases n,
{
    let (w, h) = (picture.width as int, picture.height as int);
    if n > 0 {
        let before = weighty(w, h, found, threshold, n - 1);
        if k < before.len() {
            lemma_weighty_hold_white(picture, found, threshold, n - 1, k);
        } else {
            lemma_caption_holds_white(picture, found[n - 1]);
        }
    }
}

/// What is found as white writing holds white: in every box there is a pixel
/// whose three channels are all at least 248. So a picture without such a pixel
/// has no white writing.
pub proof fn lemma_white_boxes_hold_white(picture: &Picture, k: int)
    requires
        picture.wf(),
        forall|j: int|
            0 <= j < components(
                dilated(
                    white(picture),
                    picture.width as int,
                    picture.height as int,
                    8,
                    2,
                ),
                picture.width as int,
            ).len() ==> within_grid(
                picture.width as int,
                picture.height as int,
                #[trigger] components(
                    dilated(
                        white(picture),
                        picture.width as int,
                        picture.height as int,
                        8,
                        2,
                    ),
                    picture.width as int,
                )[j],
            ),
        0 <= k < white_boxes(picture).len(),
    ensures
        holds_white(picture, white_boxes(picture)[k]),
{
    let (w, h) = (picture.width as int, picture.height as int);
    let grid = white(picture);
    let parts = components(dilated(grid, w, h, 8, 2), w);
    let found = captions(grid, w, h, parts, parts.len() as int);
    let threshold = top_score(w, h, found, found.len() as int).spec_times(ratio(4, 100));
    assert forall|j: int| 0 <= j < found.len() implies within_grid(w, h, #[trigger] found[j])
        && is_caption(grid, w, h, found[j]) by {
        lemma_captions_within(grid, w, h, parts, parts.len() as int, j);
        let m = choose|m: int| 0 <= m < parts.len() && #[trigger] parts[m] == found[j];
        assert(within_grid(w, h, parts[m]));
    }
    lemma_weighty_hold_white(picture, found, threshold, found.len() as int, k);
}

/// White writing is found by its shape: at least 1200 cells, between 1.2 and 9
/// percent of the picture's height, between twice and fifteen times as wide as
/// high, and between 20 and 95 percent of its box filled. What is off by more
/// than the roundings is not taken, what is inside is.
pub proof fn lemma_caption_shape(grid: Seq<bool>, w: int, h: int, c: Component)
    requires
        0 <= h <= 0xffff_ffff,
        0 < c.x2 - c.x1 <= 0xffff_ffff,
        0 < c.y2 - c.y1 <= 0xffff_ffff,
        (c.x2 - c.x1) * (c.y2 - c.y1) <= 0x2000_0000,
        c.area <= 0x2000_0000,
    ensures
        ({
            let (cw, ch) = (c.x2 - c.x1, c.y2 - c.y1);
            let cells = cw * ch;
            &&& is_caption(grid, w, h, c) ==> {
                &&& c.area >= 1200
                &&& textlike(grid, w, c)
                &&& 1000 * 1000 * ch >= 11_999 * h
                &&& 1000 * 1000 * ch <= 90_001 * h
                &&& 1000 * cw >= 1999 * ch
                &&& 1000 * cw <= 15_001 * ch
                &&& 10_000 * c.area >= 1999 * cells
                &&& 10_000 * c.area <= 9501 * cells
            }
            &&& {
                &&& c.area >= 1200
                &&& textlike(grid, w, c)
                &&& 1000 * 1000 * ch >= 12_001 * h
                &&& 1000 * 1000 * ch <= 89_999 * h
                &&& 1000 * cw >= 2001 * ch
                &&& 1000 * cw <= 14_999 * ch
                &&& 10_000 * c.area >= 2001 * cells
                &&& 10_000 * c.area <= 9499 * cells
            } ==> is_caption(grid, w, h, c)
        }),
{
    let (cw, ch, area) = (c.x2 - c.x1, c.y2 - c.y1, c.area as int);
    let cells = cw * ch;
    assert(cells >= 1) by (nonlinear_arith)
        requires
            cells == cw * ch,
            cw >= 1,
            ch >= 1,
    ;
    lemma_whole_value(cw);
    lemma_whole_value(ch);
    lemma_whole_value(2);
    lemma_whole_value(15);
    lemma_share_value(h, 12, 1000);
    lemma_share_value(h, 9, 100);
    lemma_ratio_value(2, 10);
    lemma_ratio_value(95, 100);
    lemma_quotient_value(cw, ch);
    lemma_fill_value(area, cw, ch);
    let (low, high) = (
        whole(h).spec_times(ratio(12, 1000)),
        whole(h).spec_times(ratio(9, 100)),
    );
    let shape = whole(cw).spec_over(whole(ch));
    let fill = whole(area).spec_over(box_cells(c));
    lemma_less_by_value(whole(ch), low);
    lemma_less_by_value(high, whole(ch));
    lemma_less_by_value(shape, whole(2));
    lemma_less_by_value(whole(15), shape);
    lemma_less_by_value(fill, ratio(2, 10));
    lemma_less_by_value(ratio(95, 100), fill);
    let (wr, hr, ar, nr, tall) = (cw as real, ch as real, area as real, cells as real, h as real);
    let (a, b, p, q) = (value(low), value(high), value(shape), value(fill));
    let tiny = 0x4_0000_0000_0000 as real;
    assert((hr >= a ==> 1000 * 1000 * ch >= 11_999 * h) && (1000 * 1000 * ch >= 12_001 * h ==> hr
        >= a)) by (nonlinear_arith)
        requires
            hr == ch as real,
            tall == h as real,
            h >= 0,
            tiny == (0x4_0000_0000_0000 as real),
            within(
                a,
                tall * ((12 as real) / (1000 as real)),
                tall * ((12 as real) / (1000 as real)) / tiny,
            ),
    ;
    assert((hr <= b ==> 1000 * 1000 * ch <= 90_001 * h) && (1000 * 1000 * ch <= 89_999 * h ==> hr
        <= b)) by (nonlinear_arith)
        requires
            hr == ch as real,
            tall == h as real,
            h >= 0,
            tiny == (0x4_0000_0000_0000 as real),
            within(
                b,
                tall * ((9 as real) / (100 as real)),
                tall * ((9 as real) / (100 as real)) / tiny,
            ),
    ;
    let (s, f) = (wr / hr, ar / nr);
    assert(wr == s * hr && ar == f * nr && s >= (0 as real) && f >= (0 as real)) by (nonlinear_arith)
        requires
            s == wr / hr,
            f == ar / nr,
            hr > (0 as real),
            nr > (0 as real),
            wr >= (0 as real),
            ar >= (0 as real),
    ;
    assert((p >= (2 as real) ==> 1000 * cw >= 1999 * ch) && (1000 * cw >= 2001 * ch ==> p >= (2
        as real))) by (nonlinear_arith)
        requires
            wr == cw as real,
            hr == ch as real,
            ch >= 1,
            wr == s * hr,
            s >= (0 as real),
            tiny == (0x4_0000_0000_0000 as real),
            within(p, s, s / tiny),
    ;
    assert((p <= (15 as real) ==> 1000 * cw <= 15_001 * ch) && (1000 * cw <= 14_999 * ch ==> p
        <= (15 as real))) by (nonlinear_arith)
        requires
            wr == cw as real,
            hr == ch as real,
            ch >= 1,
            wr == s * hr,
            s >= (0 as real),
            tiny == (0x4_0000_0000_0000 as real),
            within(p, s, s / tiny),
    ;
    let (fifth, most) = (value(ratio(2, 10)), value(ratio(95, 100)));
    assert((q >= fifth ==> 10_000 * area >= 1999 * cells) && (10_000 * area >= 2001 * cells ==> q
        >= fifth)) by (nonlinear_arith)
        requires
            ar == area as real,
            nr == cells as real,
            cells >= 1,
            ar == f * nr,
            f >= (0 as real),
            tiny == (0x4_0000_0000_0000 as real),
            within(q, f, f / tiny),
            within(
                fifth,
                (2 as real) / (10 as real),
                (2 as real) / (10 as real) / (0x20_0000_0000_0000 as real),
            ),
    ;
    assert((q <= most ==> 10_000 * area <= 9501 * cells) && (10_000 * area <= 9499 * cells ==> q
        <= most)) by (nonlinear_arith)
        requires
            ar == area as real,
            nr == cells as real,
            cells >= 1,
            ar == f * nr,
            f >= (0 as real),
            tiny == (0x4_0000_0000_0000 as real),
            within(q, f, f / tiny),
            within(
                most,
                (95 as real) / (100 as real),
                (95 as real) / (100 as real) / (0x20_0000_0000_0000 as real),
            ),
    ;
}

/// A tone is bright from its threshold on, and a position is raised if it stands
/// out by its threshold and is at most 60 colourful.
pub proof fn lemma_bright_and_raised(tones: Seq<u8>, hat: Seq<u8>, colour: Seq<u8>, v: u8, i: int)
    requires
        0 <= i < tones.len(),
        tones.len() == hat.len(),
    ensures
        tones[i] >= v ==> bright(tones, v)[i],
        tones[i] < v ==> !bright(tones, v)[i],
        hat[i] >= v && colour[i] <= 60 ==> raised(hat, colour, v)[i],
        hat[i] < v || colour[i] > 60 ==> !raised(hat, colour, v)[i],
{
}

/// A padded box holds the box with ten pixels or more around it, as far as the
/// picture goes, and stops six pixels before the picture's far edges.
pub proof fn lemma_padded_holds_the_box(x1: int, y1: int, x2: int, y2: int, w: int, h: int)
    requires
        0 <= x1 <= x2 <= w <= 0xffff_ffff,
        0 <= y1 <= y2 <= h <= 0xffff_ffff,
    ensures
        ({
            let b = padded(x1, y1, x2, y2, margin(h), w, h);
            &&& 0 <= b.0 <= x1
            &&& 0 <= b.1 <= y1
            &&& b.0 == 0 || b.0 <= x1 - 10
            &&& b.1 == 0 || b.1 <= y1 - 10
            &&& b.2 == w - 6 || (b.2 >= x2 + 10 && b.2 <= w - 6)
            &&& b.3 == h - 6 || (b.3 >= y2 + 10 && b.3 <= h - 6)
            &&& h < 1500 ==> (b.0 == 0 || b.0 == x1 - 10) && (b.2 == w - 6 || b.2 == x2 + 10)
        }),
{
}

} // verus!
