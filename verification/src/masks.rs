//! Painting, joining and growing masks.

use crate::boxes::Frame;
use crate::grid::lemma_position;
use crate::morph::{morphed, rect_morph, rectangle};
use crate::raster::{measurable, Mask};
use vstd::prelude::*;

verus! {

/// A box holds the pixel in column `x` of row `y`.
pub open spec fn holds(b: Frame, x: int, y: int) -> bool {
    b.0 <= x < b.2 && b.1 <= y < b.3
}

/// One of the first `n` boxes holds the pixel.
pub open spec fn held(boxes: Seq<Frame>, n: int, x: int, y: int) -> bool {
    exists|k: int| 0 <= k < n && holds(#[trigger] boxes[k], x, y)
}

/// The mask of some boxes: 255 inside, 0 outside.
pub open spec fn painted(boxes: Seq<Frame>, w: int, h: int) -> Seq<u8> {
    Seq::new(
        (w * h) as nat,
        |i: int|
            if held(boxes, boxes.len() as int, i % w, i / w) {
                255u8
            } else {
                0u8
            },
    )
}

/// The first mask with the marks of the second added at 255.
pub open spec fn joined(a: Seq<u8>, b: Seq<u8>) -> Seq<u8> {
    Seq::new(
        a.len(),
        |i: int|
            if b[i] > 0 {
                255u8
            } else {
                a[i]
            },
    )
}

/// Nothing is marked.
pub open spec fn unmarked(data: Seq<u8>) -> bool {
    forall|i: int| 0 <= i < data.len() ==> #[trigger] data[i] == 0
}

/// A marked pixel lies in a box.
pub open spec fn meets(mask: &Mask, b: Frame) -> bool {
    exists|i: int|
        0 <= i < mask.data@.len() && #[trigger] mask.data@[i] > 0 && holds(
            b,
            i % mask.width as int,
            i / mask.width as int,
        )
}

/// How many of the first `n` values of `a` are above those of `b`.
pub open spec fn risen(a: Seq<u8>, b: Seq<u8>, n: int) -> int
    decreases n,
{
    if n <= 0 {
        0
    } else {
        risen(a, b, n - 1) + if a[n - 1] > b[n - 1] {
            1int
        } else {
            0
        }
    }
}

/// Paints boxes into an empty mask.
pub fn paint_boxes(boxes: &[Frame], width: u32, height: u32, pixels: usize) -> (r: Mask)
    requires
        measurable(width as int, height as int),
        pixels == width * height,
    ensures
        r.wf(),
        r.width == width,
        r.height == height,
        r.data@ == painted(boxes@, width as int, height as int),
{
    let w: usize = width as usize;
    let mut data: Vec<u8> = Vec::new();
    let mut i: usize = 0;
    let ghost goal = painted(boxes@, width as int, height as int);
    while i < pixels
        invariant
            w == width,
            pixels == width * height,
            i <= pixels,
            goal == painted(boxes@, width as int, height as int),
            data@ == goal.take(i as int),
        decreases pixels - i,
    {
        proof {
            lemma_position(width as int, height as int, i as int);
        }
        let x: i64 = (i % w) as i64;
        let y: i64 = (i / w) as i64;
        let mut on: bool = false;
        let mut k: usize = 0;
        while k < boxes.len()
            invariant
                k <= boxes@.len(),
                on <==> held(boxes@, k as int, x as int, y as int),
            decreases boxes@.len() - k,
        {
            let b: Frame = boxes[k];
            if b.0 <= x && x < b.2 && b.1 <= y && y < b.3 {
                on = true;
            }
            k = k + 1;
            proof {
                assert(held(boxes@, k as int, x as int, y as int) <==> held(
                    boxes@,
                    k - 1,
                    x as int,
                    y as int,
                ) || holds(boxes@[k - 1], x as int, y as int)) by {
                    if held(boxes@, k as int, x as int, y as int) {
                        let m = choose|m: int|
                            0 <= m < k && holds(#[trigger] boxes@[m], x as int, y as int);
                        if m < k - 1 {
                            assert(held(boxes@, k - 1, x as int, y as int));
                        }
                    }
                    if held(boxes@, k - 1, x as int, y as int) {
                        let m = choose|m: int|
                            0 <= m < k - 1 && holds(#[trigger] boxes@[m], x as int, y as int);
                        assert(holds(boxes@[m], x as int, y as int));
                    }
                }
            }
        }
        let v: u8 = if on {
            255
        } else {
            0
        };
        data.push(v);
        i = i + 1;
        proof {
            assert(data@ =~= goal.take(i as int));
        }
    }
    proof {
        assert(data@ =~= goal);
    }
    Mask { width, height, data }
}

/// Adds the marks of one mask to another.
pub fn join_masks(a: &Mask, b: &Mask) -> (r: Mask)
    requires
        a.wf(),
        b.wf(),
        a.width == b.width,
        a.height == b.height,
    ensures
        r.wf(),
        r.width == a.width,
        r.height == a.height,
        r.data@ == joined(a.data@, b.data@),
{
    let n: usize = a.data.len();
    let mut data: Vec<u8> = Vec::new();
    let mut i: usize = 0;
    while i < n
        invariant
            n == a.data@.len(),
            n == b.data@.len(),
            i <= n,
            data@ == joined(a.data@, b.data@).take(i as int),
        decreases n - i,
    {
        let v: u8 = if b.data[i] > 0 {
            255
        } else {
            a.data[i]
        };
        data.push(v);
        i = i + 1;
        proof {
            assert(data@ =~= joined(a.data@, b.data@).take(i as int));
        }
    }
    proof {
        assert(data@ =~= joined(a.data@, b.data@));
    }
    Mask { width: a.width, height: a.height, data }
}

/// Tells whether nothing is marked.
pub fn is_unmarked(mask: &Mask) -> (r: bool)
    ensures
        r == unmarked(mask.data@),
{
    let n: usize = mask.data.len();
    let mut i: usize = 0;
    while i < n
        invariant
            n == mask.data@.len(),
            i <= n,
            forall|k: int| 0 <= k < i ==> #[trigger] mask.data@[k] == 0,
        decreases n - i,
    {
        if mask.data[i] != 0 {
            return false;
        }
        i = i + 1;
    }
    true
}

/// Tells whether a marked pixel lies in a box.
pub fn mask_meets(mask: &Mask, b: Frame) -> (r: bool)
    requires
        mask.wf(),
    ensures
        r == meets(mask, b),
{
    let n: usize = mask.data.len();
    let w: usize = mask.width as usize;
    let mut i: usize = 0;
    while i < n
        invariant
            mask.wf(),
            n == mask.data@.len(),
            w == mask.width,
            i <= n,
            forall|k: int|
                0 <= k < i && #[trigger] mask.data@[k] > 0 ==> !holds(
                    b,
                    k % mask.width as int,
                    k / mask.width as int,
                ),
        decreases n - i,
    {
        proof {
            lemma_position(mask.width as int, mask.height as int, i as int);
        }
        if mask.data[i] > 0 {
            let x: i64 = (i % w) as i64;
            let y: i64 = (i / w) as i64;
            if b.0 <= x && x < b.2 && b.1 <= y && y < b.3 {
                return true;
            }
        }
        i = i + 1;
    }
    false
}

/// Counts the values of one mask that are above those of another.
pub fn count_risen(a: &Mask, b: &Mask) -> (r: usize)
    requires
        a.data@.len() == b.data@.len(),
    ensures
        r == risen(a.data@, b.data@, a.data@.len() as int),
{
    let n: usize = a.data.len();
    let mut i: usize = 0;
    let mut count: usize = 0;
    while i < n
        invariant
            n == a.data@.len(),
            n == b.data@.len(),
            i <= n,
            count <= i,
            count == risen(a.data@, b.data@, i as int),
        decreases n - i,
    {
        if a.data[i] > b.data[i] {
            count = count + 1;
        }
        i = i + 1;
    }
    count
}

/// The highest value in the rectangle of `kw` x `kh` around each pixel.
pub fn dilate_gray_rect(src: &Mask, kw: usize, kh: usize) -> (r: Mask)
    requires
        src.wf(),
    ensures
        r.wf(),
        r.width == src.width,
        r.height == src.height,
        r.data@ == morphed(
            src.data@,
            src.width as int,
            src.height as int,
            rectangle(kw as int / 2, kh as int / 2),
            true,
        ),
{
    let data = rect_morph(
        src.data.as_slice(),
        src.width as usize,
        src.height as usize,
        kw / 2,
        kh / 2,
        true,
    );
    Mask { width: src.width, height: src.height, data }
}

/// The mask of some boxes marks a pixel exactly if one of the boxes holds it, the
/// right and bottom edges not counting.
pub proof fn lemma_painted_by_place(boxes: Seq<Frame>, w: int, h: int, x: int, y: int, k: int)
    requires
        0 <= x < w,
        0 <= y < h,
    ensures
        ({
            let mark = painted(boxes, w, h)[y * w + x];
            &&& mark == 0 || mark == 255
            &&& 0 <= k < boxes.len() && boxes[k].0 <= x < boxes[k].2 && boxes[k].1 <= y < boxes[k].3
                ==> mark == 255
            &&& mark == 255 ==> exists|j: int|
                0 <= j < boxes.len() && (#[trigger] boxes[j]).0 <= x < boxes[j].2 && boxes[j].1
                    <= y < boxes[j].3
        }),
{
    vstd::arithmetic::div_mod::lemma_fundamental_div_mod_converse(y * w + x, w, y, x);
    assert(0 <= y * w + x && y * w + x < w * h) by (nonlinear_arith)
        requires
            0 <= x < w,
            0 <= y < h,
    ;
    if 0 <= k < boxes.len() && holds(boxes[k], x, y) {
        assert(held(boxes, boxes.len() as int, x, y));
    }
    if held(boxes, boxes.len() as int, x, y) {
        let j = choose|j: int| 0 <= j < boxes.len() && holds(#[trigger] boxes[j], x, y);
        assert(holds(boxes[j], x, y));
    }
}

/// Two masks joined mark what either marks, and nothing else.
pub proof fn lemma_joined_marks_either(a: Seq<u8>, b: Seq<u8>, i: int)
    requires
        0 <= i < a.len(),
        a.len() == b.len(),
    ensures
        joined(a, b).len() == a.len(),
        joined(a, b)[i] > 0 <==> a[i] > 0 || b[i] > 0,
        b[i] == 0 ==> joined(a, b)[i] == a[i],
{
}

} // verus!
