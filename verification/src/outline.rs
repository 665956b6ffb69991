//! The outline of set cells: bounding boxes, specks, and the box of a mark.

use crate::boxes::{larger, smaller};
use crate::grid::{lemma_cell, lemma_position};
use crate::number::Number;
use crate::planes::{bright_strokes, keep_large, large_parts, stroke_mask};
use crate::scaling::lemma_channel;
use crate::raster::Picture;
use crate::watermark_profiles::{edges, lowered, Corners, Edges};
use vstd::prelude::*;

verus! {

/// How many of the first `n` cells are set.
pub open spec fn set_count(cells: Seq<bool>, n: int) -> int
    decreases n,
{
    if n <= 0 {
        0
    } else {
        set_count(cells, n - 1) + if cells[n - 1] {
            1int
        } else {
            0
        }
    }
}

/// The smallest box around the set cells, right and bottom exclusive.
pub open spec fn is_hull(cells: Seq<bool>, w: int, b: Edges) -> bool {
    &&& forall|i: int|
        0 <= i < cells.len() && #[trigger] cells[i] ==> b.0 <= i % w < b.2 && b.1 <= i / w < b.3
    &&& exists|i: int| 0 <= i < cells.len() && #[trigger] cells[i] && i % w == b.0
    &&& exists|i: int| 0 <= i < cells.len() && #[trigger] cells[i] && i / w == b.1
    &&& exists|i: int| 0 <= i < cells.len() && #[trigger] cells[i] && i % w + 1 == b.2
    &&& exists|i: int| 0 <= i < cells.len() && #[trigger] cells[i] && i / w + 1 == b.3
}

/// The smallest box around the set cells.
pub open spec fn hull_of(cells: Seq<bool>, w: int) -> Edges {
    choose|b: Edges| is_hull(cells, w, b)
}

/// There is one smallest box.
pub proof fn lemma_hull_unique(cells: Seq<bool>, w: int, b: Edges)
    requires
        is_hull(cells, w, b),
    ensures
        hull_of(cells, w) == b,
{
    let h = hull_of(cells, w);
    assert(is_hull(cells, w, h));
    let i = choose|i: int| 0 <= i < cells.len() && #[trigger] cells[i] && i % w == b.0;
    let j = choose|i: int| 0 <= i < cells.len() && #[trigger] cells[i] && i % w == h.0;
    let i = choose|i: int| 0 <= i < cells.len() && #[trigger] cells[i] && i / w == b.1;
    let j = choose|i: int| 0 <= i < cells.len() && #[trigger] cells[i] && i / w == h.1;
    let i = choose|i: int| 0 <= i < cells.len() && #[trigger] cells[i] && i % w + 1 == b.2;
    let j = choose|i: int| 0 <= i < cells.len() && #[trigger] cells[i] && i % w + 1 == h.2;
    let i = choose|i: int| 0 <= i < cells.len() && #[trigger] cells[i] && i / w + 1 == b.3;
    let j = choose|i: int| 0 <= i < cells.len() && #[trigger] cells[i] && i / w + 1 == h.3;
}

/// How many cells are set, and the smallest box around them.
pub fn bounds(cells: &[bool], w: usize, h: usize) -> (r: (usize, Corners))
    requires
        cells@.len() == w * h,
    ensures
        r.0 == set_count(cells@, cells@.len() as int),
        r.0 > 0 ==> {
            &&& is_hull(cells@, w as int, edges(r.1))
            &&& edges(r.1) == hull_of(cells@, w as int)
            &&& r.1.0 < r.1.2 <= w
            &&& r.1.1 < r.1.3 <= h
        },
{
    let n: usize = cells.len();
    let mut count: usize = 0;
    let (mut x1, mut y1, mut x2, mut y2): (usize, usize, usize, usize) = (w, h, 0, 0);
    let mut i: usize = 0;
    while i < n
        invariant
            n == cells@.len(),
            n == w * h,
            i <= n,
            count <= i,
            count == set_count(cells@, i as int),
            count > 0 ==> {
                &&& is_hull(cells@.take(i as int), w as int, (x1 as int, y1 as int, x2 as int, y2 as int))
                &&& x1 < x2 <= w
                &&& y1 < y2 <= h
            },
            count == 0 ==> x1 == w && y1 == h && x2 == 0 && y2 == 0 && forall|k: int|
                0 <= k < i ==> !#[trigger] cells@[k],
        decreases n - i,
    {
        let ghost had = (x1 as int, y1 as int, x2 as int, y2 as int);
        let ghost seen = cells@.take(i as int);
        if cells[i] {
            proof {
                lemma_position(w as int, h as int, i as int);
            }
            let x: usize = i % w;
            let y: usize = i / w;
            if x < x1 {
                x1 = x;
            }
            if y < y1 {
                y1 = y;
            }
            if x + 1 > x2 {
                x2 = x + 1;
            }
            if y + 1 > y2 {
                y2 = y + 1;
            }
        }
        proof {
            let now = cells@.take(i + 1);
            assert forall|k: int| 0 <= k < i implies seen[k] == #[trigger] now[k] by {}
            if cells@[i as int] {
                assert(now[i as int]);
                if count > 0 {
                    lemma_hull_grows(seen, now, w as int, i as int, had);
                }
            } else if count > 0 {
                lemma_hull_stays(seen, now, w as int, had);
            }
        }
        if cells[i] {
            count = count + 1;
        }
        i = i + 1;
    }
    proof {
        assert(cells@.take(n as int) =~= cells@);
        if count > 0 {
            lemma_hull_unique(cells@, w as int, (x1 as int, y1 as int, x2 as int, y2 as int));
        }
    }
    (count, (x1, y1, x2, y2))
}

proof fn lemma_hull_stays(a: Seq<bool>, b: Seq<bool>, w: int, e: Edges)
    requires
        is_hull(a, w, e),
        b.len() == a.len() + 1,
        forall|k: int| 0 <= k < a.len() ==> a[k] == #[trigger] b[k],
        !b[a.len() as int],
    ensures
        is_hull(b, w, e),
{
    let i = choose|i: int| 0 <= i < a.len() && #[trigger] a[i] && i % w == e.0;
    assert(b[i]);
    let i = choose|i: int| 0 <= i < a.len() && #[trigger] a[i] && i / w == e.1;
    assert(b[i]);
    let i = choose|i: int| 0 <= i < a.len() && #[trigger] a[i] && i % w + 1 == e.2;
    assert(b[i]);
    let i = choose|i: int| 0 <= i < a.len() && #[trigger] a[i] && i / w + 1 == e.3;
    assert(b[i]);
    assert forall|i: int| 0 <= i < b.len() && #[trigger] b[i] implies e.0 <= i % w < e.2 && e.1 <= i
        / w < e.3 by {
        assert(a[i]);
    }
}

proof fn lemma_hull_grows(a: Seq<bool>, b: Seq<bool>, w: int, n: int, e: Edges)
    requires
        is_hull(a, w, e),
        n == a.len(),
        b.len() == n + 1,
        forall|k: int| 0 <= k < a.len() ==> a[k] == #[trigger] b[k],
        b[n],
    ensures
        is_hull(
            b,
            w,
            (smaller(e.0, n % w), smaller(e.1, n / w), larger(e.2, n % w + 1), larger(e.3, n / w + 1)),
        ),
{
    let f = (smaller(e.0, n % w), smaller(e.1, n / w), larger(e.2, n % w + 1), larger(e.3, n / w + 1));
    let i = choose|i: int| 0 <= i < a.len() && #[trigger] a[i] && i % w == e.0;
    assert(b[i]);
    let i = choose|i: int| 0 <= i < a.len() && #[trigger] a[i] && i / w == e.1;
    assert(b[i]);
    let i = choose|i: int| 0 <= i < a.len() && #[trigger] a[i] && i % w + 1 == e.2;
    assert(b[i]);
    let i = choose|i: int| 0 <= i < a.len() && #[trigger] a[i] && i / w + 1 == e.3;
    assert(b[i]);
    assert forall|i: int| 0 <= i < b.len() && #[trigger] b[i] implies f.0 <= i % w < f.2 && f.1 <= i
        / w < f.3 by {
        if i < n {
            assert(a[i]);
        }
    }
}

/// The cells above a level.
pub open spec fn above(values: Seq<Number>, level: Number) -> Seq<bool> {
    Seq::new(values.len(), |i: int| level.spec_lt(values[i]))
}

pub fn cells_above(values: &[Number], level: Number) -> (r: Vec<bool>)
    ensures
        r@ == above(values@, level),
{
    let n: usize = values.len();
    let mut out: Vec<bool> = Vec::new();
    let mut i: usize = 0;
    while i < n
        invariant
            n == values@.len(),
            i <= n,
            out@ == above(values@, level).take(i as int),
        decreases n - i,
    {
        out.push(level.less(values[i]));
        i = i + 1;
        proof {
            assert(out@ =~= above(values@, level).take(i as int));
        }
    }
    proof {
        assert(out@ =~= above(values@, level));
    }
    out
}

/// How many cells are set.
pub fn count_set(cells: &[bool]) -> (r: usize)
    ensures
        r == set_count(cells@, cells@.len() as int),
        r <= cells@.len(),
{
    let n: usize = cells.len();
    let mut count: usize = 0;
    let mut i: usize = 0;
    while i < n
        invariant
            n == cells@.len(),
            i <= n,
            count <= i,
            count == set_count(cells@, i as int),
        decreases n - i,
    {
        if cells[i] {
            count = count + 1;
        }
        i = i + 1;
    }
    count
}

/// A coverage without what lies outside the large parts above a level.
pub open spec fn cleaned(alpha: Seq<Number>, w: int, level: Number, least: int) -> Seq<Number> {
    let keep = large_parts(above(alpha, level), w, least);
    Seq::new(
        alpha.len(),
        |i: int|
            if keep[i] {
                alpha[i]
            } else {
                Number::spec_int(0)
            },
    )
}

/// Drops the specks of a coverage: what is not part of at least `least` joined
/// cells above the level becomes zero.
pub fn clean_alpha(alpha: &mut Vec<Number>, w: usize, h: usize, level: Number, least: usize)
    requires
        old(alpha)@.len() == w * h,
    ensures
        final(alpha)@ == cleaned(old(alpha)@, w as int, level, least as int),
        final(alpha)@.len() == old(alpha)@.len(),
{
    let cells = cells_above(alpha.as_slice(), level);
    let keep = keep_large(cells.as_slice(), w, h, least);
    let n: usize = alpha.len();
    let ghost before = alpha@;
    let ghost goal = cleaned(before, w as int, level, least as int);
    let mut i: usize = 0;
    while i < n
        invariant
            n == before.len(),
            alpha@.len() == n,
            keep@ == large_parts(above(before, level), w as int, least as int),
            keep@.len() == n,
            goal == cleaned(before, w as int, level, least as int),
            i <= n,
            forall|k: int| 0 <= k < i ==> alpha@[k] == #[trigger] goal[k],
            forall|k: int| i <= k < n ==> alpha@[k] == #[trigger] before[k],
        decreases n - i,
    {
        if !keep[i] {
            alpha.set(i, Number::from_int(0));
        }
        i = i + 1;
    }
    proof {
        assert(alpha@ =~= goal);
    }
}

/// A mark cut to its covered cells.
pub struct CutMark {
    pub alpha: Vec<Number>,
    pub color: Vec<Number>,
    pub w: usize,
    pub h: usize,
    pub x0: usize,
    pub y0: usize,
}

/// The box around the covered cells with two more on each side, inside the
/// plane.
pub open spec fn covered_box(alpha: Seq<Number>, w: int, h: int) -> Option<Edges> {
    let cells = above(alpha, Number::spec_int(0));
    if set_count(cells, cells.len() as int) == 0 {
        None
    } else {
        let b = hull_of(cells, w);
        Some((lowered(b.0, 2), lowered(b.1, 2), smaller(b.2 + 2, w), smaller(b.3 + 2, h)))
    }
}

/// A part of a plane of `nc` channels.
pub open spec fn cut_plane(s: Seq<Number>, w: int, nc: int, b: Edges) -> Seq<Number> {
    let cw = b.2 - b.0;
    Seq::new(
        (cw * (b.3 - b.1) * nc) as nat,
        |j: int| {
            let i = j / nc;
            s[((b.1 + i / cw) * w + (b.0 + i % cw)) * nc + j % nc]
        },
    )
}

fn cut(s: &[Number], w: usize, h: usize, nc: usize, b: Corners) -> (r: Vec<Number>)
    requires
        s@.len() == w * h * nc,
        0 < nc <= 4,
        b.0 < b.2 <= w,
        b.1 < b.3 <= h,
    ensures
        r@ == cut_plane(s@, w as int, nc as int, edges(b)),
{
    let total: usize = s.len();
    let cw: usize = b.2 - b.0;
    let ch: usize = b.3 - b.1;
    proof {
        assert(0 <= cw * ch && cw * ch <= w * h) by (nonlinear_arith)
            requires
                0 <= cw <= w,
                0 <= ch <= h,
        ;
        assert(0 <= cw * ch * nc && cw * ch * nc <= w * h * nc && cw * ch <= cw * ch * nc && w * h
            <= w * h * nc) by (nonlinear_arith)
            requires
                0 <= cw * ch <= w * h,
                nc >= 1,
        ;
    }
    let n: usize = cw * ch;
    let len: usize = n * nc;
    let ghost goal = cut_plane(s@, w as int, nc as int, edges(b));
    let mut out: Vec<Number> = Vec::new();
    let mut j: usize = 0;
    while j < len
        invariant
            total == s@.len(),
            total == w * h * nc,
            w * h <= total,
            0 < nc <= 4,
            b.0 < b.2 <= w,
            b.1 < b.3 <= h,
            cw == b.2 - b.0,
            ch == b.3 - b.1,
            n == cw * ch,
            len == n * nc,
            len == goal.len(),
            goal == cut_plane(s@, w as int, nc as int, edges(b)),
            j <= len,
            out@ == goal.take(j as int),
        decreases len - j,
    {
        let i: usize = j / nc;
        let c: usize = j % nc;
        proof {
            assert(n * nc == nc * n) by (nonlinear_arith);
            lemma_position(nc as int, n as int, j as int);
            lemma_position(cw as int, ch as int, i as int);
            let (x, y) = (b.0 + i as int % cw as int, b.1 + i as int / cw as int);
            lemma_cell(w as int, h as int, x, y);
            lemma_channel(w * h, nc as int, y * w + x, c as int);
        }
        out.push(s[((b.1 + i / cw) * w + (b.0 + i % cw)) * nc + c]);
        j = j + 1;
        proof {
            assert(out@ =~= goal.take(j as int));
        }
    }
    proof {
        assert(out@ =~= goal);
    }
    out
}

/// Cuts a coverage and its colours to the covered cells, with two more on each
/// side; nothing is left of a coverage of zeros.
pub fn crop_to_alpha(alpha: &[Number], color: &[Number], w: usize, h: usize) -> (r: Option<CutMark>)
    requires
        alpha@.len() == w * h,
        color@.len() == w * h * 3,
        w <= 0xffff_ffff,
        h <= 0xffff_ffff,
    ensures
        match covered_box(alpha@, w as int, h as int) {
            None => r is None,
            Some(b) => r matches Some(m) && {
                &&& m.alpha@ == cut_plane(alpha@, w as int, 1, b)
                &&& m.color@ == cut_plane(color@, w as int, 3, b)
                &&& m.w == b.2 - b.0
                &&& m.h == b.3 - b.1
                &&& m.x0 == b.0
                &&& m.y0 == b.1
            },
        },
        r matches Some(m) ==> {
            &&& m.x0 + m.w <= w
            &&& m.y0 + m.h <= h
            &&& m.w > 0
            &&& m.h > 0
            &&& m.alpha@.len() == m.w * m.h
            &&& m.color@.len() == 3 * (m.w * m.h)
        },
{
    let cells = cells_above(alpha, Number::from_int(0));
    let (count, b) = bounds(cells.as_slice(), w, h);
    if count == 0 {
        return None;
    }
    let x0: usize = if b.0 < 2 {
        0
    } else {
        b.0 - 2
    };
    let y0: usize = if b.1 < 2 {
        0
    } else {
        b.1 - 2
    };
    let x1: usize = if w - b.2 < 2 {
        w
    } else {
        b.2 + 2
    };
    let y1: usize = if h - b.3 < 2 {
        h
    } else {
        b.3 + 2
    };
    let frame = (x0, y0, x1, y1);
    proof {
        assert(w * h * 1 == w * h);
        let (cw, ch) = (x1 - x0, y1 - y0);
        assert(cw * ch >= 0) by (nonlinear_arith)
            requires
                cw >= 0,
                ch >= 0,
        ;
        assert(cw * ch * 1 == cw * ch);
    }
    Some(
        CutMark {
            alpha: cut(alpha, w, h, 1, frame),
            color: cut(color, w, h, 3, frame),
            w: x1 - x0,
            h: y1 - y0,
            x0,
            y0,
        },
    )
}

/// The part of a plane where a mark is looked for: from 60 percent of the width
/// and 82 percent of the height on.
pub open spec fn corner_start(w: int, h: int) -> (int, int) {
    (
        Number::spec_int(w).spec_times(Number::spec_ratio(60, 100)).spec_trunc(),
        Number::spec_int(h).spec_times(Number::spec_ratio(82, 100)).spec_trunc(),
    )
}

/// The set cells from column `x0` and row `y0` on.
pub open spec fn cells_from(cells: Seq<bool>, w: int, x0: int, y0: int) -> Seq<bool> {
    Seq::new(cells.len(), |i: int| cells[i] && i % w >= x0 && i / w >= y0)
}

/// The box of the strokes in the bottom right part, with ten pixels around;
/// nothing for fewer than 30.
pub open spec fn strokes_box(cells: Seq<bool>, w: int, h: int) -> Option<Edges> {
    let (x0, y0) = corner_start(w, h);
    let part = cells_from(cells, w, x0, y0);
    if set_count(part, part.len() as int) < 30 {
        None
    } else {
        let b = hull_of(part, w);
        Some((lowered(b.0, 10), lowered(b.1, 10), smaller(b.2 + 10, w), smaller(b.3 + 10, h)))
    }
}

/// The factor of the local deviation that strokes exceed the local mean by.
pub open spec fn stroke_factor() -> Number {
    Number::spec_ratio(18, 10).spec_short()
}

/// The strokes that a mark is made of.
pub open spec fn mark_strokes(picture: &Picture) -> Seq<bool> {
    bright_strokes(picture, 60, stroke_factor(), 6)
}

/// Marks the strokes that a mark is made of.
pub fn mark_strokes_of(picture: &Picture) -> (r: Vec<bool>)
    requires
        picture.wf(),
    ensures
        r@ == mark_strokes(picture),
        r@.len() == picture.area(),
{
    stroke_mask(picture, 60, Number::decimal(18, 10).short(), 6)
}

pub open spec fn corners_view(r: Option<Corners>) -> Option<Edges> {
    match r {
        Some(c) => Some(edges(c)),
        None => None,
    }
}

/// The box of a mark in the bottom right part of a picture, as its strokes
/// show it.
pub fn detect_watermark_box(picture: &Picture) -> (r: Option<Corners>)
    requires
        picture.wf(),
    ensures
        corners_view(r) == strokes_box(
            mark_strokes(picture),
            picture.width as int,
            picture.height as int,
        ),
        r matches Some(b) ==> b.0 < b.2 <= picture.width && b.1 < b.3 <= picture.height,
{
    let cells = mark_strokes_of(picture);
    let w: usize = picture.width as usize;
    let h: usize = picture.height as usize;
    let x0: i64 = Number::from_count(w).times(Number::decimal(60, 100)).trunc();
    let y0: i64 = Number::from_count(h).times(Number::decimal(82, 100)).trunc();
    let n: usize = cells.len();
    let ghost goal = cells_from(cells@, w as int, x0 as int, y0 as int);
    let mut part: Vec<bool> = Vec::new();
    let mut i: usize = 0;
    while i < n
        invariant
            n == cells@.len(),
            n == w * h,
            w <= 0xffff_ffff,
            h <= 0xffff_ffff,
            goal == cells_from(cells@, w as int, x0 as int, y0 as int),
            i <= n,
            part@ == goal.take(i as int),
        decreases n - i,
    {
        proof {
            lemma_position(w as int, h as int, i as int);
        }
        part.push(cells[i] && (i % w) as i64 >= x0 && (i / w) as i64 >= y0);
        i = i + 1;
        proof {
            assert(part@ =~= goal.take(i as int));
        }
    }
    proof {
        assert(part@ =~= goal);
    }
    let (count, b) = bounds(part.as_slice(), w, h);
    if count < 30 {
        return None;
    }
    let x1: usize = if b.0 < 10 {
        0
    } else {
        b.0 - 10
    };
    let y1: usize = if b.1 < 10 {
        0
    } else {
        b.1 - 10
    };
    let x2: usize = if w - b.2 < 10 {
        w
    } else {
        b.2 + 10
    };
    let y2: usize = if h - b.3 < 10 {
        h
    } else {
        b.3 + 10
    };
    Some((x1, y1, x2, y2))
}

} // verus!
