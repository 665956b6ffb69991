//! Boxes in pixel coordinates: left, top, right, bottom, the last two
//! exclusive.

use crate::double::{lemma_not_below_itself, lemma_trunc_at_least, whole, Double};
use crate::text::{decimal, push_decimal};
use vstd::prelude::*;

verus! {

/// Left, top, right and bottom.
pub type Frame = (i64, i64, i64, i64);

/// A box as the user gives it: a negative edge counts from the far side.
#[derive(Clone, Copy, Debug, PartialEq, Eq, Structural)]
pub struct MaskBox {
    pub x1: i64,
    pub y1: i64,
    pub x2: i64,
    pub y2: i64,
}

pub open spec fn larger(a: int, b: int) -> int {
    if a < b {
        b
    } else {
        a
    }
}

pub open spec fn smaller(a: int, b: int) -> int {
    if b < a {
        b
    } else {
        a
    }
}

/// The scale of a picture against 2848 x 1600.
pub open spec fn picture_scale(width: int, height: int) -> Double {
    whole(width).spec_over(whole(2848)).spec_min(whole(height).spec_over(whole(1600)))
}

/// A length of `base` pixels at the scale of a picture, at least `least`.
pub open spec fn scaled_length(width: int, height: int, base: int, least: int) -> int {
    whole(base).spec_times(picture_scale(width, height)).spec_max(whole(least)).spec_trunc()
}

/// Where the watermark is expected when nothing else is known.
pub open spec fn default_frame(width: int, height: int) -> (int, int, int, int) {
    if width == 2848 && height == 1600 {
        (width - 330, height - 118, width - 8, height - 8)
    } else if width == 2278 && height == 1280 {
        (width - 275, height - 92, width - 7, height - 8)
    } else if width == 2048 && height == 2048 {
        (width - 380, height - 125, width - 8, height - 40)
    } else {
        (
            larger(width - scaled_length(width, height, 330, 220), 0),
            larger(height - scaled_length(width, height, 118, 78), 0),
            width - 8,
            height - 8,
        )
    }
}

/// A scaled length is at least the least.
pub proof fn lemma_scaled_least(width: int, height: int, base: int, least: int)
    requires
        0 < least < 1000,
    ensures
        scaled_length(width, height, base, least) >= least,
{
    reveal(Double::spec_max);
    let long = whole(base).spec_times(picture_scale(width, height));
    lemma_not_below_itself(whole(least));
    lemma_trunc_at_least(long.spec_max(whole(least)), least);
}

fn scaled(width: u32, height: u32, base: i64, least: i64) -> (r: i64)
    requires
        0 < base < 1000,
        0 < least < 1000,
    ensures
        r == scaled_length(width as int, height as int, base as int, least as int),
        r >= least,
{
    proof {
        lemma_scaled_least(width as int, height as int, base as int, least as int);
    }
    let across = Double::from_int(width as i64).over(Double::from_int(2848));
    let down = Double::from_int(height as i64).over(Double::from_int(1600));
    let scale = across.min(down);
    Double::from_int(base).times(scale).max(Double::from_int(least)).trunc()
}

/// Where the watermark is expected when nothing else is known: the corner box
/// of the known picture sizes, else the box of 2848 x 1600 to scale. In a picture
/// with more than eight columns and rows it has a pixel, and lies inside.
pub fn default_mask_box(width: u32, height: u32) -> (r: Frame)
    ensures
        width > 8 && height > 8 ==> {
            &&& 0 <= r.0 < r.2 < width
            &&& 0 <= r.1 < r.3 < height
        },
        (r.0 as int, r.1 as int, r.2 as int, r.3 as int) == default_frame(
            width as int,
            height as int,
        ),
{
    let w: i64 = width as i64;
    let h: i64 = height as i64;
    if width == 2848 && height == 1600 {
        return (w - 330, h - 118, w - 8, h - 8);
    }
    if width == 2278 && height == 1280 {
        return (w - 275, h - 92, w - 7, h - 8);
    }
    if width == 2048 && height == 2048 {
        return (w - 380, h - 125, w - 8, h - 40);
    }
    let box_width: i64 = scaled(width, height, 330, 220);
    let box_height: i64 = scaled(width, height, 118, 78);
    let x1: i64 = if w - box_width < 0 {
        0
    } else {
        w - box_width
    };
    let y1: i64 = if h - box_height < 0 {
        0
    } else {
        h - box_height
    };
    (x1, y1, w - 8, h - 8)
}

/// An edge within `0..=size`.
pub open spec fn clipped(v: int, size: int) -> int {
    smaller(larger(v, 0), size)
}

/// A near edge: negative values count from the far side.
pub open spec fn near_edge(v: int, size: int) -> int {
    clipped(
        if v < 0 {
            v + size
        } else {
            v
        },
        size,
    )
}

/// A far edge: values up to zero count from the far side.
pub open spec fn far_edge(v: int, size: int) -> int {
    clipped(
        if v <= 0 {
            v + size
        } else {
            v
        },
        size,
    )
}

/// The box that the user means, in a picture of the given size.
pub open spec fn meant_frame(width: int, height: int, raw: MaskBox) -> (int, int, int, int) {
    (
        near_edge(raw.x1 as int, width),
        near_edge(raw.y1 as int, height),
        far_edge(raw.x2 as int, width),
        far_edge(raw.y2 as int, height),
    )
}

pub open spec fn invalid_box_message(b: (int, int, int, int)) -> Seq<char> {
    "invalid mask box after resolving: ("@ + decimal(b.0) + ", "@ + decimal(b.1) + ", "@ + decimal(
        b.2,
    ) + ", "@ + decimal(b.3) + ")"@
}

fn clip(v: i64, size: i64) -> (r: i64)
    requires
        size >= 0,
    ensures
        r == clipped(v as int, size as int),
{
    if v < 0 {
        0
    } else if v > size {
        size
    } else {
        v
    }
}

/// Turns the user's box into pixels of a picture; without one, the default
/// box. A box that is empty after clipping to the picture is an error.
pub fn resolve_box(width: u32, height: u32, raw: Option<MaskBox>) -> (r: Result<Frame, String>)
    ensures
        raw is None ==> r is Ok && ({
            let b = r->Ok_0;
            (b.0 as int, b.1 as int, b.2 as int, b.3 as int)
        }) == default_frame(width as int, height as int),
        raw matches Some(given) ==> ({
            let m = meant_frame(width as int, height as int, given);
            if m.0 < m.2 && m.1 < m.3 {
                r matches Ok(b) && (b.0 as int, b.1 as int, b.2 as int, b.3 as int) == m
            } else {
                r matches Err(e) && e@ == invalid_box_message(m)
            }
        }),
{
    let w: i64 = width as i64;
    let h: i64 = height as i64;
    let given = match raw {
        None => {
            return Ok(default_mask_box(width, height));
        },
        Some(given) => given,
    };
    let x1: i64 = clip(
        if given.x1 < 0 {
            given.x1 + w
        } else {
            given.x1
        },
        w,
    );
    let y1: i64 = clip(
        if given.y1 < 0 {
            given.y1 + h
        } else {
            given.y1
        },
        h,
    );
    let x2: i64 = clip(
        if given.x2 <= 0 {
            given.x2 + w
        } else {
            given.x2
        },
        w,
    );
    let y2: i64 = clip(
        if given.y2 <= 0 {
            given.y2 + h
        } else {
            given.y2
        },
        h,
    );
    if x1 >= x2 || y1 >= y2 {
        let mut message = String::from_str("invalid mask box after resolving: (");
        push_decimal(&mut message, x1);
        message.append(", ");
        push_decimal(&mut message, y1);
        message.append(", ");
        push_decimal(&mut message, x2);
        message.append(", ");
        push_decimal(&mut message, y2);
        message.append(")");
        return Err(message);
    }
    Ok((x1, y1, x2, y2))
}

/// A box that the user gave and that was accepted is not empty and lies in
/// the picture.
pub proof fn lemma_meant_frame_inside(width: int, height: int, raw: MaskBox)
    requires
        width >= 0,
        height >= 0,
    ensures
        ({
            let m = meant_frame(width, height, raw);
            &&& 0 <= m.0 <= width
            &&& 0 <= m.2 <= width
            &&& 0 <= m.1 <= height
            &&& 0 <= m.3 <= height
        }),
{
}

/// Two boxes share a pixel.
pub open spec fn overlaps(a: Frame, b: Frame) -> bool {
    !(a.2 <= b.0 || b.2 <= a.0 || a.3 <= b.1 || b.3 <= a.1)
}

/// Tells whether two boxes share a pixel.
pub fn boxes_overlap(a: &Frame, b: &Frame) -> (r: bool)
    ensures
        r == overlaps(*a, *b),
{
    !(a.2 <= b.0 || b.2 <= a.0 || a.3 <= b.1 || b.3 <= a.1)
}

/// The smallest box around two boxes.
pub open spec fn hull(a: Frame, b: Frame) -> Frame {
    (
        smaller(a.0 as int, b.0 as int) as i64,
        smaller(a.1 as int, b.1 as int) as i64,
        larger(a.2 as int, b.2 as int) as i64,
        larger(a.3 as int, b.3 as int) as i64,
    )
}

/// `a` lies inside `b`.
pub open spec fn inside(a: Frame, b: Frame) -> bool {
    b.0 <= a.0 && b.1 <= a.1 && a.2 <= b.2 && a.3 <= b.3
}

/// Grows `cur` by every box of `rest` from position `i` on that it overlaps at
/// its turn; also gives the boxes that are left.
pub open spec fn absorbed(cur: Frame, rest: Seq<Frame>, i: int) -> (Frame, Seq<Frame>)
    decreases rest.len() - i,
{
    if i < 0 || i >= rest.len() {
        (cur, rest)
    } else if overlaps(cur, rest[i]) {
        absorbed(hull(cur, rest[i]), rest.remove(i), i)
    } else {
        absorbed(cur, rest, i + 1)
    }
}

/// One round: the last box absorbs what it overlaps, then the last of what is
/// left, and so on.
pub open spec fn one_round(boxes: Seq<Frame>) -> Seq<Frame>
    decreases boxes.len(),
{
    if boxes.len() == 0 {
        seq![]
    } else {
        let (grown, left) = absorbed(boxes.last(), boxes.drop_last(), 0);
        if left.len() < boxes.len() {
            seq![grown] + one_round(left)
        } else {
            seq![]
        }
    }
}

/// Rounds until one of them merges nothing.
pub open spec fn fused(boxes: Seq<Frame>) -> Seq<Frame>
    decreases boxes.len(),
{
    let next = one_round(boxes);
    if next.len() < boxes.len() {
        fused(next)
    } else {
        next
    }
}

proof fn lemma_absorbed_len(cur: Frame, rest: Seq<Frame>, i: int)
    requires
        0 <= i <= rest.len(),
    ensures
        absorbed(cur, rest, i).1.len() <= rest.len(),
    decreases rest.len() - i,
{
    if i < rest.len() {
        if overlaps(cur, rest[i]) {
            lemma_absorbed_len(hull(cur, rest[i]), rest.remove(i), i);
        } else {
            lemma_absorbed_len(cur, rest, i + 1);
        }
    }
}

proof fn lemma_one_round_len(boxes: Seq<Frame>)
    ensures
        one_round(boxes).len() <= boxes.len(),
    decreases boxes.len(),
{
    if boxes.len() > 0 {
        lemma_absorbed_len(boxes.last(), boxes.drop_last(), 0);
        lemma_one_round_len(absorbed(boxes.last(), boxes.drop_last(), 0).1);
    }
}

/// Merges overlapping boxes until no two overlap.
pub fn fuse_boxes(boxes: Vec<Frame>) -> (r: Vec<Frame>)
    ensures
        r@ == fused(boxes@),
{
    let mut boxes = boxes;
    let ghost given = boxes@;
    let mut settled: Vec<Frame> = Vec::new();
    loop
        invariant_except_break
            fused(boxes@) == fused(given),
        ensures
            settled@ == fused(given),
        decreases boxes@.len(),
    {
        let ghost before = boxes@;
        let start: usize = boxes.len();
        let mut result: Vec<Frame> = Vec::new();
        while boxes.len() > 0
            invariant
                result@ + one_round(boxes@) == one_round(before),
                result@.len() + boxes@.len() <= before.len(),
            decreases boxes@.len(),
        {
            let ghost held = boxes@;
            let mut cur: Frame = boxes.pop().unwrap();
            proof {
                assert(boxes@ =~= held.drop_last());
                lemma_absorbed_len(held.last(), held.drop_last(), 0);
            }
            let mut i: usize = 0;
            while i < boxes.len()
                invariant
                    i <= boxes@.len(),
                    boxes@.len() < held.len(),
                    absorbed(cur, boxes@, i as int) == absorbed(held.last(), held.drop_last(), 0),
                decreases boxes@.len() - i,
            {
                let o: Frame = boxes[i];
                if boxes_overlap(&cur, &o) {
                    boxes.remove(i);
                    cur = (
                        if o.0 < cur.0 {
                            o.0
                        } else {
                            cur.0
                        },
                        if o.1 < cur.1 {
                            o.1
                        } else {
                            cur.1
                        },
                        if cur.2 < o.2 {
                            o.2
                        } else {
                            cur.2
                        },
                        if cur.3 < o.3 {
                            o.3
                        } else {
                            cur.3
                        },
                    );
                } else {
                    i = i + 1;
                }
            }
            let ghost had = result@;
            result.push(cur);
            proof {
                assert(result@ + one_round(boxes@) =~= had + one_round(held));
            }
        }
        proof {
            assert(one_round(seq![]) =~= seq![]);
            assert(boxes@ =~= seq![]);
            assert(result@ =~= one_round(before));
            lemma_one_round_len(before);
        }
        if result.len() == start {
            settled = result;
            break ;
        }
        boxes = result;
    }
    settled
}

/// No two boxes of a list overlap.
pub open spec fn apart(boxes: Seq<Frame>) -> bool {
    forall|i: int, j: int|
        #![trigger boxes[i], boxes[j]]
        0 <= i < j < boxes.len() ==> !overlaps(boxes[i], boxes[j])
}

/// Some box of a list holds `b`.
pub open spec fn held_by(b: Frame, boxes: Seq<Frame>) -> bool {
    exists|j: int| 0 <= j < boxes.len() && inside(b, #[trigger] boxes[j])
}

/// Every box of the first list lies inside some box of the second.
pub open spec fn covered_by(a: Seq<Frame>, b: Seq<Frame>) -> bool {
    forall|i: int| 0 <= i < a.len() ==> held_by(#[trigger] a[i], b)
}

proof fn lemma_absorbed_covers(cur: Frame, rest: Seq<Frame>, i: int)
    requires
        0 <= i <= rest.len(),
    ensures
        ({
            let (grown, left) = absorbed(cur, rest, i);
            &&& inside(cur, grown)
            &&& covered_by(rest, left.push(grown))
        }),
    decreases rest.len() - i,
{
    let (grown, left) = absorbed(cur, rest, i);
    if i < rest.len() {
        if overlaps(cur, rest[i]) {
            let wide = hull(cur, rest[i]);
            let fewer = rest.remove(i);
            lemma_absorbed_covers(wide, fewer, i);
            assert(left.push(grown)[left.len() as int] == grown);
            assert forall|k: int| 0 <= k < rest.len() implies held_by(
                #[trigger] rest[k],
                left.push(grown),
            ) by {
                if k == i {
                    assert(inside(rest[k], left.push(grown)[left.len() as int]));
                } else if k < i {
                    assert(fewer[k] == rest[k]);
                } else {
                    assert(fewer[k - 1] == rest[k]);
                }
            }
        } else {
            lemma_absorbed_covers(cur, rest, i + 1);
        }
    } else {
        assert forall|k: int| 0 <= k < rest.len() implies held_by(
            #[trigger] rest[k],
            left.push(grown),
        ) by {
            assert(left.push(grown)[k] == rest[k]);
        }
    }
}

proof fn lemma_covered_chain(a: Seq<Frame>, b: Seq<Frame>, c: Seq<Frame>)
    requires
        covered_by(a, b),
        covered_by(b, c),
    ensures
        covered_by(a, c),
{
    assert forall|i: int| 0 <= i < a.len() implies held_by(#[trigger] a[i], c) by {
        let j = choose|j: int| 0 <= j < b.len() && inside(a[i], #[trigger] b[j]);
        assert(held_by(b[j], c));
        let k = choose|k: int| 0 <= k < c.len() && inside(b[j], #[trigger] c[k]);
        assert(inside(a[i], c[k]));
    }
}

proof fn lemma_one_round_covers(boxes: Seq<Frame>)
    ensures
        covered_by(boxes, one_round(boxes)),
    decreases boxes.len(),
{
    if boxes.len() > 0 {
        let cur = boxes.last();
        let rest = boxes.drop_last();
        let (grown, left) = absorbed(cur, rest, 0);
        lemma_absorbed_len(cur, rest, 0);
        lemma_absorbed_covers(cur, rest, 0);
        lemma_one_round_covers(left);
        let out = one_round(boxes);
        let tail = one_round(left);
        assert(out[0] == grown);
        assert forall|i: int| 0 <= i < boxes.len() implies held_by(#[trigger] boxes[i], out) by {
            if i == rest.len() {
                assert(inside(boxes[i], out[0]));
            } else {
                assert(boxes[i] == rest[i]);
                assert(held_by(rest[i], left.push(grown)));
                let j = choose|j: int|
                    0 <= j < left.push(grown).len() && inside(rest[i], #[trigger] left.push(grown)[j]);
                if j == left.len() {
                    assert(inside(boxes[i], out[0]));
                } else {
                    assert(held_by(left[j], tail));
                    let k = choose|k: int| 0 <= k < tail.len() && inside(left[j], #[trigger] tail[k]);
                    assert(out[k + 1] == tail[k]);
                    assert(inside(boxes[i], out[k + 1]));
                }
            }
        }
    }
}

/// Every box given lies inside some fused box.
pub proof fn lemma_fused_covers(boxes: Seq<Frame>)
    ensures
        covered_by(boxes, fused(boxes)),
    decreases boxes.len(),
{
    let next = one_round(boxes);
    lemma_one_round_covers(boxes);
    if next.len() < boxes.len() {
        lemma_fused_covers(next);
        lemma_covered_chain(boxes, next, fused(next));
    }
}

/// A box that absorbs nothing overlaps nothing.
proof fn lemma_absorbed_none(cur: Frame, rest: Seq<Frame>, i: int)
    requires
        0 <= i <= rest.len(),
        absorbed(cur, rest, i).1.len() == rest.len(),
    ensures
        absorbed(cur, rest, i) == (cur, rest),
        forall|k: int| i <= k < rest.len() ==> !overlaps(cur, #[trigger] rest[k]),
    decreases rest.len() - i,
{
    if i < rest.len() {
        if overlaps(cur, rest[i]) {
            lemma_absorbed_len(hull(cur, rest[i]), rest.remove(i), i);
        } else {
            lemma_absorbed_none(cur, rest, i + 1);
        }
    }
}

proof fn lemma_one_round_none(boxes: Seq<Frame>)
    requires
        one_round(boxes).len() == boxes.len(),
    ensures
        one_round(boxes) == boxes.reverse(),
        apart(boxes),
    decreases boxes.len(),
{
    if boxes.len() == 0 {
        assert(one_round(boxes) =~= boxes.reverse());
    } else {
        let cur = boxes.last();
        let rest = boxes.drop_last();
        let (grown, left) = absorbed(cur, rest, 0);
        lemma_absorbed_len(cur, rest, 0);
        lemma_one_round_len(left);
        lemma_absorbed_none(cur, rest, 0);
        lemma_one_round_none(left);
        assert(one_round(boxes) =~= boxes.reverse());
        assert forall|i: int, j: int|
            #![trigger boxes[i], boxes[j]]
            0 <= i < j < boxes.len() implies !overlaps(boxes[i], boxes[j]) by {
            assert(boxes[i] == rest[i]);
            if j < rest.len() {
                assert(boxes[j] == rest[j]);
            } else {
                assert(!overlaps(cur, rest[i]));
            }
        }
    }
}

/// No two fused boxes overlap.
pub proof fn lemma_fused_apart(boxes: Seq<Frame>)
    ensures
        apart(fused(boxes)),
    decreases boxes.len(),
{
    let next = one_round(boxes);
    lemma_one_round_len(boxes);
    if next.len() < boxes.len() {
        lemma_fused_apart(next);
    } else {
        lemma_one_round_none(boxes);
        assert forall|i: int, j: int|
            #![trigger next[i], next[j]]
            0 <= i < j < next.len() implies !overlaps(next[i], next[j]) by {
            let n = boxes.len();
            assert(next[i] == boxes[n - 1 - i]);
            assert(next[j] == boxes[n - 1 - j]);
            assert(!overlaps(boxes[n - 1 - j], boxes[n - 1 - i]));
        }
    }
}

proof fn lemma_apart_round(boxes: Seq<Frame>)
    requires
        apart(boxes),
    ensures
        one_round(boxes).len() == boxes.len(),
    decreases boxes.len(),
{
    if boxes.len() > 0 {
        let cur = boxes.last();
        let rest = boxes.drop_last();
        assert forall|k: int| 0 <= k < rest.len() implies !overlaps(cur, #[trigger] rest[k]) by {
            assert(rest[k] == boxes[k]);
            assert(cur == boxes[boxes.len() - 1]);
            assert(!overlaps(boxes[k], boxes[boxes.len() - 1]));
        }
        lemma_absorbed_apart(cur, rest, 0);
        assert forall|i: int, j: int|
            #![trigger rest[i], rest[j]]
            0 <= i < j < rest.len() implies !overlaps(rest[i], rest[j]) by {
            assert(rest[i] == boxes[i] && rest[j] == boxes[j]);
        }
        lemma_apart_round(rest);
    }
}

proof fn lemma_absorbed_apart(cur: Frame, rest: Seq<Frame>, i: int)
    requires
        0 <= i <= rest.len(),
        forall|k: int| 0 <= k < rest.len() ==> !overlaps(cur, #[trigger] rest[k]),
    ensures
        absorbed(cur, rest, i) == (cur, rest),
    decreases rest.len() - i,
{
    if i < rest.len() {
        lemma_absorbed_apart(cur, rest, i + 1);
    }
}

/// Boxes that do not overlap come back as they are, last one first.
pub proof fn lemma_fused_of_apart(boxes: Seq<Frame>)
    requires
        apart(boxes),
    ensures
        fused(boxes) == boxes.reverse(),
{
    lemma_apart_round(boxes);
    lemma_one_round_none(boxes);
}

proof fn lemma_held_hull(a: Frame, b: Frame, family: Seq<Frame>)
    requires
        apart(family),
        held_by(a, family),
        held_by(b, family),
        overlaps(a, b),
    ensures
        held_by(hull(a, b), family),
{
    let i = choose|i: int| 0 <= i < family.len() && inside(a, #[trigger] family[i]);
    let j = choose|j: int| 0 <= j < family.len() && inside(b, #[trigger] family[j]);
    assert(overlaps(family[i], family[j]) && overlaps(family[j], family[i]));
    assert(i == j);
    assert(inside(hull(a, b), family[i]));
}

proof fn lemma_absorbed_least(cur: Frame, rest: Seq<Frame>, i: int, family: Seq<Frame>)
    requires
        0 <= i <= rest.len(),
        apart(family),
        held_by(cur, family),
        covered_by(rest, family),
    ensures
        held_by(absorbed(cur, rest, i).0, family),
        covered_by(absorbed(cur, rest, i).1, family),
    decreases rest.len() - i,
{
    if i < rest.len() {
        if overlaps(cur, rest[i]) {
            lemma_held_hull(cur, rest[i], family);
            let fewer = rest.remove(i);
            assert forall|k: int| 0 <= k < fewer.len() implies held_by(#[trigger] fewer[k], family) by {
                if k < i {
                    assert(fewer[k] == rest[k]);
                } else {
                    assert(fewer[k] == rest[k + 1]);
                }
            }
            lemma_absorbed_least(hull(cur, rest[i]), fewer, i, family);
        } else {
            lemma_absorbed_least(cur, rest, i + 1, family);
        }
    }
}

proof fn lemma_one_round_least(boxes: Seq<Frame>, family: Seq<Frame>)
    requires
        apart(family),
        covered_by(boxes, family),
    ensures
        covered_by(one_round(boxes), family),
    decreases boxes.len(),
{
    if boxes.len() > 0 {
        let cur = boxes.last();
        let rest = boxes.drop_last();
        let (grown, left) = absorbed(cur, rest, 0);
        assert(cur == boxes[boxes.len() - 1]);
        assert forall|k: int| 0 <= k < rest.len() implies held_by(#[trigger] rest[k], family) by {
            assert(rest[k] == boxes[k]);
        }
        lemma_absorbed_len(cur, rest, 0);
        lemma_absorbed_least(cur, rest, 0, family);
        lemma_one_round_least(left, family);
        let out = one_round(boxes);
        let tail = one_round(left);
        assert forall|k: int| 0 <= k < out.len() implies held_by(#[trigger] out[k], family) by {
            if k > 0 {
                assert(out[k] == tail[k - 1]);
            }
        }
    }
}

/// Fusing covers no more than it must: whenever boxes that do not overlap hold
/// every box given, they also hold every fused box.
pub proof fn lemma_fused_least(boxes: Seq<Frame>, family: Seq<Frame>)
    requires
        apart(family),
        covered_by(boxes, family),
    ensures
        covered_by(fused(boxes), family),
    decreases boxes.len(),
{
    lemma_one_round_least(boxes, family);
    let next = one_round(boxes);
    if next.len() < boxes.len() {
        lemma_fused_least(next, family);
    }
}

} // verus!
