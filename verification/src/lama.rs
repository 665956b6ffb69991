//! Preparing the window that the repair model sees, and writing its answer
//! back under the mask.

use crate::accuracy::{
    amount, lemma_int_amount, lemma_quotient_close, modest, sound, within,
};
use crate::boxes::{larger, smaller};
use crate::codec::{all_zero, may_smooth_gray, may_smooth_rgb, smooth_gray, smooth_rgb};
use crate::components::{components, parts_of, within_grid, Component};
use crate::double::{whole, Double};
use crate::grid::{lemma_cell, lemma_position};
use crate::raster::{lemma_measurable_part, Mask, Picture};
use crate::number::Number;
use crate::text::{decimal, digits_of, push_chars};
use crate::verify::change;
use crate::watermark_profiles::{byte_of, lemma_byte_by_amount, to_byte};
use vstd::prelude::*;

verus! {

/// The side of the model's window.
pub const WINDOW: u32 = 512;

/// The box around one marked area, right and bottom edges exclusive.
#[derive(Clone, Copy, Debug, PartialEq, Eq, Structural)]
pub struct BBox {
    pub x1: u32,
    pub y1: u32,
    pub x2: u32,
    pub y2: u32,
}

/// The boxes of some components.
pub open spec fn boxes_of(parts: Seq<Component>) -> Seq<BBox> {
    Seq::new(
        parts.len(),
        |k: int|
            BBox {
                x1: parts[k].x1 as u32,
                y1: parts[k].y1 as u32,
                x2: parts[k].x2 as u32,
                y2: parts[k].y2 as u32,
            },
    )
}

/// A box that holds a pixel of a picture of the given size.
pub open spec fn box_inside(b: BBox, w: int, h: int) -> bool {
    b.x1 < b.x2 <= w && b.y1 < b.y2 <= h
}

/// The boxes of the separate marked areas of a mask.
pub fn mask_components(mask: &Mask) -> (r: Vec<BBox>)
    requires
        mask.wf(),
    ensures
        r@ == boxes_of(components(mask.marks(), mask.width as int)),
        forall|k: int|
            0 <= k < r@.len() ==> box_inside(
                #[trigger] r@[k],
                mask.width as int,
                mask.height as int,
            ),
{
    let grid = mask.grid();
    let parts = parts_of(grid.as_slice(), mask.width as usize, mask.height as usize);
    let mut out: Vec<BBox> = Vec::new();
    let mut i: usize = 0;
    while i < parts.len()
        invariant
            i <= parts@.len(),
            forall|k: int|
                0 <= k < parts@.len() ==> within_grid(
                    mask.width as int,
                    mask.height as int,
                    #[trigger] parts@[k],
                ),
            out@ == boxes_of(parts@).take(i as int),
            forall|k: int|
                0 <= k < out@.len() ==> box_inside(
                    #[trigger] out@[k],
                    mask.width as int,
                    mask.height as int,
                ),
        decreases parts@.len() - i,
    {
        let c: Component = parts[i];
        out.push(BBox { x1: c.x1 as u32, y1: c.y1 as u32, x2: c.x2 as u32, y2: c.y2 as u32 });
        i = i + 1;
        proof {
            assert(out@ =~= boxes_of(parts@).take(i as int));
        }
    }
    proof {
        assert(out@ =~= boxes_of(parts@));
    }
    out
}

/// Along one axis: the stretch around `lo..hi` with `margin` more on both
/// sides, moved into `0..size` and cut there.
pub open spec fn stretch(lo: int, hi: int, size: int, margin: int) -> (int, int) {
    let mid = (lo + hi) / 2;
    let half = (hi - lo + 2 * margin) / 2;
    let (a, b) = (mid - half, mid + half);
    let (a, b) = if a < 0 {
        (0, b - a)
    } else {
        (a, b)
    };
    let (a, b) = if b > size {
        (a - (b - size), size)
    } else {
        (a, b)
    };
    (smaller(larger(a, 0), size), smaller(larger(b, 0), size))
}

/// The crop around a box: left, top, width and height; all zero where it is
/// empty.
pub open spec fn crop_frame(bbox: BBox, iw: int, ih: int, margin: int) -> (int, int, int, int) {
    let (l, r) = stretch(bbox.x1 as int, bbox.x2 as int, iw, margin);
    let (t, b) = stretch(bbox.y1 as int, bbox.y2 as int, ih, margin);
    if r <= l || b <= t {
        (0, 0, 0, 0)
    } else {
        (l, t, r - l, b - t)
    }
}

fn stretch_of(lo: u32, hi: u32, size: i64, margin: i64) -> (r: (i64, i64))
    requires
        lo <= hi,
        0 <= size <= 0xffff_ffff,
        0 <= margin <= 0x1_0000_0000,
    ensures
        (r.0 as int, r.1 as int) == stretch(lo as int, hi as int, size as int, margin as int),
        0 <= r.0 <= size,
        0 <= r.1 <= size,
{
    let mid: i64 = (lo as i64 + hi as i64) / 2;
    let half: i64 = ((hi - lo) as i64 + margin * 2) / 2;
    let mut a: i64 = mid - half;
    let mut b: i64 = mid + half;
    if a < 0 {
        b = b - a;
        a = 0;
    }
    if b > size {
        a = a - (b - size);
        b = size;
    }
    if a < 0 {
        a = 0;
    }
    if a > size {
        a = size;
    }
    if b < 0 {
        b = 0;
    }
    (a, b)
}

/// The crop of a picture around a marked area, with a margin of context; at a
/// border the other side takes what is missing. All zero where it is empty.
pub fn crop_box(bbox: &BBox, iw: i64, ih: i64, margin: i64) -> (r: (i64, i64, u32, u32))
    requires
        bbox.x1 <= bbox.x2,
        bbox.y1 <= bbox.y2,
        0 <= iw <= 0xffff_ffff,
        0 <= ih <= 0xffff_ffff,
        0 <= margin <= 0x1_0000_0000,
    ensures
        (r.0 as int, r.1 as int, r.2 as int, r.3 as int) == crop_frame(
            *bbox,
            iw as int,
            ih as int,
            margin as int,
        ),
        0 <= r.0,
        0 <= r.1,
        r.0 + r.2 <= iw,
        r.1 + r.3 <= ih,
{
    let (l, r) = stretch_of(bbox.x1, bbox.x2, iw, margin);
    let (t, b) = stretch_of(bbox.y1, bbox.y2, ih, margin);
    if r <= l || b <= t {
        return (0, 0, 0, 0);
    }
    (l, t, (r - l) as u32, (b - t) as u32)
}

/// A crop holds the box it was made for, and where the picture is large enough
/// the whole margin on top.
pub proof fn lemma_stretch_holds(lo: int, hi: int, size: int, margin: int)
    requires
        0 <= lo < hi <= size,
        margin >= 1,
    ensures
        ({
            let (a, b) = stretch(lo, hi, size, margin);
            &&& 0 <= a <= lo
            &&& hi <= b <= size
            &&& b - a == smaller(size, 2 * ((hi - lo + 2 * margin) / 2))
        }),
{
}

/// Position `i` of a part of `rw` columns that starts at `(x0, y0)`, in a
/// picture of width `w`.
pub open spec fn part_position(x0: int, y0: int, rw: int, w: int, i: int) -> int {
    (y0 + i / rw) * w + (x0 + i % rw)
}

/// The bytes of a part of a picture.
pub open spec fn cut_rgb(
    picture: &Picture,
    x0: int,
    y0: int,
    rw: int,
    rh: int,
) -> Seq<u8> {
    Seq::new(
        (3 * (rw * rh)) as nat,
        |k: int|
            picture.channel(part_position(x0, y0, rw, picture.width as int, k / 3), k % 3),
    )
}

/// The bytes of a part of a mask.
pub open spec fn cut_gray(mask: &Mask, x0: int, y0: int, rw: int, rh: int) -> Seq<u8> {
    Seq::new(
        (rw * rh) as nat,
        |i: int| mask.data@[part_position(x0, y0, rw, mask.width as int, i)],
    )
}

proof fn lemma_part_position(x0: int, y0: int, rw: int, rh: int, w: int, h: int, i: int)
    requires
        0 <= x0,
        0 <= y0,
        x0 + rw <= w,
        y0 + rh <= h,
        0 <= rw,
        0 <= rh,
        0 <= i < rw * rh,
    ensures
        0 <= part_position(x0, y0, rw, w, i) < w * h,
        0 < rw,
        0 <= i % rw < rw,
        0 <= i / rw < rh,
        part_position(x0, y0, rw, w, i) % w == x0 + i % rw,
        part_position(x0, y0, rw, w, i) / w == y0 + i / rw,
        0 <= (y0 + i / rw) * w <= w * h,
{
    lemma_position(rw, rh, i);
    lemma_cell(w, h, x0 + i % rw, y0 + i / rw);
}

pub fn crop_rgb(picture: &Picture, x0: usize, y0: usize, rw: usize, rh: usize) -> (r: Vec<u8>)
    requires
        picture.wf(),
        x0 + rw <= picture.width,
        y0 + rh <= picture.height,
    ensures
        r@ == cut_rgb(picture, x0 as int, y0 as int, rw as int, rh as int),
{
    proof {
        lemma_measurable_part(
            picture.width as int,
            picture.height as int,
            rw as int,
            rh as int,
        );
        assert(rw * rh >= 0) by (nonlinear_arith);
    }
    let total: usize = picture.data.len();
    let n: usize = rw * rh;
    let w: usize = picture.width as usize;
    let mut out: Vec<u8> = Vec::new();
    let ghost goal = cut_rgb(picture, x0 as int, y0 as int, rw as int, rh as int);
    let mut i: usize = 0;
    while i < n
        invariant
            picture.wf(),
            total == picture.data@.len(),
            w == picture.width,
            x0 + rw <= picture.width,
            y0 + rh <= picture.height,
            n == rw * rh,
            i <= n,
            goal == cut_rgb(picture, x0 as int, y0 as int, rw as int, rh as int),
            out@ == goal.take(3 * i),
        decreases n - i,
    {
        proof {
            lemma_part_position(
                x0 as int,
                y0 as int,
                rw as int,
                rh as int,
                picture.width as int,
                picture.height as int,
                i as int,
            );
        }
        let at: usize = (y0 + i / rw) * w + (x0 + i % rw);
        let ghost before = out@;
        out.push(picture.get(at, 0));
        out.push(picture.get(at, 1));
        out.push(picture.get(at, 2));
        proof {
            assert((3 * i) / 3 == i && (3 * i + 1) / 3 == i && (3 * i + 2) / 3 == i);
            assert((3 * i) % 3 == 0 && (3 * i + 1) % 3 == 1 && (3 * i + 2) % 3 == 2);
            assert(goal[3 * i] == out@[3 * i] && goal[3 * i + 1] == out@[3 * i + 1] && goal[3 * i
                + 2] == out@[3 * i + 2]);
            assert forall|k: int| 0 <= k < 3 * (i + 1) implies out@[k] == goal[k] by {
                if k < 3 * i {
                    assert(out@[k] == before[k]);
                }
            }
        }
        i = i + 1;
        proof {
            assert(out@ =~= goal.take(3 * i));
        }
    }
    proof {
        assert(out@ =~= goal);
    }
    out
}

fn crop_gray(mask: &Mask, x0: usize, y0: usize, rw: usize, rh: usize) -> (r: Vec<u8>)
    requires
        mask.wf(),
        x0 + rw <= mask.width,
        y0 + rh <= mask.height,
    ensures
        r@ == cut_gray(mask, x0 as int, y0 as int, rw as int, rh as int),
{
    proof {
        lemma_measurable_part(mask.width as int, mask.height as int, rw as int, rh as int);
        assert(rw * rh >= 0) by (nonlinear_arith);
    }
    let total: usize = mask.data.len();
    let n: usize = rw * rh;
    let w: usize = mask.width as usize;
    let mut out: Vec<u8> = Vec::new();
    let ghost goal = cut_gray(mask, x0 as int, y0 as int, rw as int, rh as int);
    let mut i: usize = 0;
    while i < n
        invariant
            mask.wf(),
            total == mask.data@.len(),
            w == mask.width,
            x0 + rw <= mask.width,
            y0 + rh <= mask.height,
            n == rw * rh,
            i <= n,
            goal == cut_gray(mask, x0 as int, y0 as int, rw as int, rh as int),
            out@ == goal.take(i as int),
        decreases n - i,
    {
        proof {
            lemma_part_position(
                x0 as int,
                y0 as int,
                rw as int,
                rh as int,
                mask.width as int,
                mask.height as int,
                i as int,
            );
        }
        let at: usize = (y0 + i / rw) * w + (x0 + i % rw);
        out.push(mask.data[at]);
        i = i + 1;
        proof {
            assert(out@ =~= goal.take(i as int));
        }
    }
    proof {
        assert(out@ =~= goal);
    }
    out
}

/// The length of a side when the longer side is brought down to the window.
pub open spec fn fitted_side(side: int, long: int) -> int {
    if long > 512 {
        smaller(
            larger(whole(side).spec_times(whole(512).spec_over(whole(long))).spec_round(), 1),
            512,
        )
    } else {
        side
    }
}

/// The sum of channel `c` over the first `n` pixels.
pub open spec fn channel_sum(content: Seq<u8>, c: int, n: int) -> int
    decreases n,
{
    if n <= 0 {
        0
    } else {
        channel_sum(content, c, n - 1) + content[3 * (n - 1) + c]
    }
}

/// The mean of channel `c` over `n` pixels.
pub open spec fn channel_mean(content: Seq<u8>, c: int, n: int) -> u8 {
    smaller(
        whole(channel_sum(content, c, n)).spec_over(whole(larger(n, 1))).spec_round(),
        255,
    ) as u8
}

/// Half of what a side leaves free in the window.
pub open spec fn offset_of(side: int) -> int {
    (512 - side) / 2
}

/// Position `p` of the window shows the content.
pub open spec fn shows(p: int, rw: int, rh: int) -> bool {
    let (x, y) = (p % 512 - offset_of(rw), p / 512 - offset_of(rh));
    0 <= x < rw && 0 <= y < rh
}

/// The position in the content that position `p` of the window shows.
pub open spec fn shown(p: int, rw: int, rh: int) -> int {
    (p / 512 - offset_of(rh)) * rw + (p % 512 - offset_of(rw))
}

/// The window: the content in the middle, its mean colour around it.
pub open spec fn window_image(content: Seq<u8>, rw: int, rh: int) -> Seq<u8> {
    Seq::new(
        3 * 512 * 512,
        |k: int|
            if shows(k / 3, rw, rh) {
                content[3 * shown(k / 3, rw, rh) + k % 3]
            } else {
                channel_mean(content, k % 3, rw * rh)
            },
    )
}

/// The mask of the window: 255 where the shown mask is set, 0 elsewhere.
pub open spec fn window_mask(marks: Seq<u8>, rw: int, rh: int) -> Seq<u8> {
    Seq::new(
        512 * 512,
        |p: int|
            if shows(p, rw, rh) && marks[shown(p, rw, rh)] > 0 {
                255u8
            } else {
                0u8
            },
    )
}

proof fn lemma_channel_sum_bound(content: Seq<u8>, c: int, n: int)
    requires
        0 <= n,
    ensures
        0 <= channel_sum(content, c, n) <= 255 * n,
    decreases n,
{
    if n > 0 {
        lemma_channel_sum_bound(content, c, n - 1);
    }
}

fn mean_of(content: &[u8], c: usize, n: usize) -> (r: u8)
    requires
        c < 3,
        n <= 0x4_0000,
        content@.len() == 3 * n,
    ensures
        r == channel_mean(content@, c as int, n as int),
{
    let mut sum: i64 = 0;
    let mut i: usize = 0;
    while i < n
        invariant
            c < 3,
            n <= 0x4_0000,
            content@.len() == 3 * n,
            i <= n,
            sum == channel_sum(content@, c as int, i as int),
            0 <= sum <= 255 * i,
        decreases n - i,
    {
        sum = sum + content[3 * i + c] as i64;
        i = i + 1;
    }
    let count: i64 = if n < 1 {
        1
    } else {
        n as i64
    };
    let m: i64 = Double::from_int(sum).over(Double::from_int(count)).round();
    if m > 255 {
        255
    } else {
        m as u8
    }
}

proof fn lemma_shown(p: int, rw: int, rh: int)
    requires
        0 <= p < 512 * 512,
        0 <= rw <= 512,
        0 <= rh <= 512,
        shows(p, rw, rh),
    ensures
        0 <= shown(p, rw, rh) < rw * rh,
{
    lemma_cell(rw, rh, p % 512 - offset_of(rw), p / 512 - offset_of(rh));
}

/// Puts content and its mask into the middle of the model's window.
pub fn frame_window(content: &[u8], marks: &[u8], rw: usize, rh: usize) -> (r: (Vec<u8>, Vec<u8>))
    requires
        rw <= 512,
        rh <= 512,
        content@.len() == 3 * (rw * rh),
        marks@.len() == rw * rh,
    ensures
        r.0@ == window_image(content@, rw as int, rh as int),
        r.1@ == window_mask(marks@, rw as int, rh as int),
{
    proof {
        assert(0 <= rw * rh <= 512 * 512) by (nonlinear_arith)
            requires
                0 <= rw <= 512,
                0 <= rh <= 512,
        ;
    }
    let n: usize = rw * rh;
    let m0: u8 = mean_of(content, 0, n);
    let m1: u8 = mean_of(content, 1, n);
    let m2: u8 = mean_of(content, 2, n);
    let dx: usize = (512 - rw) / 2;
    let dy: usize = (512 - rh) / 2;
    let mut image: Vec<u8> = Vec::new();
    let mut mask: Vec<u8> = Vec::new();
    let ghost goal = window_image(content@, rw as int, rh as int);
    let ghost goal_mask = window_mask(marks@, rw as int, rh as int);
    let mut p: usize = 0;
    while p < 512 * 512
        invariant
            rw <= 512,
            rh <= 512,
            n == rw * rh,
            n <= 512 * 512,
            content@.len() == 3 * n,
            marks@.len() == n,
            dx == offset_of(rw as int),
            dy == offset_of(rh as int),
            m0 == channel_mean(content@, 0, n as int),
            m1 == channel_mean(content@, 1, n as int),
            m2 == channel_mean(content@, 2, n as int),
            goal == window_image(content@, rw as int, rh as int),
            goal_mask == window_mask(marks@, rw as int, rh as int),
            p <= 512 * 512,
            image@ == goal.take(3 * p),
            mask@ == goal_mask.take(p as int),
        decreases 512 * 512 - p,
    {
        let x: usize = p % 512;
        let y: usize = p / 512;
        let ghost before = image@;
        proof {
            assert((3 * p) / 3 == p && (3 * p + 1) / 3 == p && (3 * p + 2) / 3 == p);
            assert((3 * p) % 3 == 0 && (3 * p + 1) % 3 == 1 && (3 * p + 2) % 3 == 2);
        }
        if x >= dx && x < dx + rw && y >= dy && y < dy + rh {
            proof {
                assert(shows(p as int, rw as int, rh as int));
                lemma_shown(p as int, rw as int, rh as int);
                lemma_cell(rw as int, rh as int, x - dx, y - dy);
            }
            let at: usize = (y - dy) * rw + (x - dx);
            image.push(content[3 * at]);
            image.push(content[3 * at + 1]);
            image.push(content[3 * at + 2]);
            let v: u8 = if marks[at] > 0 {
                255
            } else {
                0
            };
            mask.push(v);
        } else {
            image.push(m0);
            image.push(m1);
            image.push(m2);
            mask.push(0);
        }
        proof {
            assert(goal[3 * p] == image@[3 * p] && goal[3 * p + 1] == image@[3 * p + 1] && goal[3
                * p + 2] == image@[3 * p + 2]);
            assert forall|k: int| 0 <= k < 3 * (p + 1) implies image@[k] == goal[k] by {
                if k < 3 * p {
                    assert(image@[k] == before[k]);
                }
            }
        }
        p = p + 1;
        proof {
            assert(image@ =~= goal.take(3 * p));
            assert(mask@ =~= goal_mask.take(p as int));
        }
    }
    proof {
        assert(image@ =~= goal);
        assert(mask@ =~= goal_mask);
    }
    (image, mask)
}

/// What the model is asked about one marked area.
pub struct CropWindow {
    pub l: u32,
    pub t: u32,
    pub sw: u32,
    pub sh: u32,
    pub rw: u32,
    pub rh: u32,
    pub image: Vec<u8>,
    pub mask: Vec<u8>,
}

impl CropWindow {
    /// The crop lies in a picture of the given size, and its content in the
    /// window.
    pub open spec fn wf(&self, w: int, h: int) -> bool {
        &&& self.l + self.sw <= w
        &&& self.t + self.sh <= h
        &&& 0 < self.sw
        &&& 0 < self.sh
        &&& 0 < self.rw <= 512
        &&& 0 < self.rh <= 512
        &&& !self.reduced() ==> self.rw == self.sw && self.rh == self.sh
    }

    /// The crop is larger than the window.
    pub open spec fn reduced(&self) -> bool {
        self.sw > 512 || self.sh > 512
    }
}

/// A resampled mask made black and white.
pub open spec fn hardened(soft: Seq<u8>) -> Seq<u8> {
    Seq::new(
        soft.len(),
        |i: int|
            if soft[i] > 64 {
                255u8
            } else {
                0u8
            },
    )
}

/// Makes a resampled mask black and white.
pub fn harden(soft: &[u8]) -> (r: Vec<u8>)
    ensures
        r@ == hardened(soft@),
{
    let n: usize = soft.len();
    let mut out: Vec<u8> = Vec::new();
    let mut i: usize = 0;
    while i < n
        invariant
            n == soft@.len(),
            i <= n,
            out@ == hardened(soft@).take(i as int),
        decreases n - i,
    {
        let v: u8 = if soft[i] > 64 {
            255
        } else {
            0
        };
        out.push(v);
        i = i + 1;
        proof {
            assert(out@ =~= hardened(soft@).take(i as int));
        }
    }
    proof {
        assert(out@ =~= hardened(soft@));
    }
    out
}

/// The window shows a crop: as it is where it fits; where it does not, what the
/// resampling may make of its picture and its mask at the reduced size, the mask
/// made black and white. The values are not told, but black stays black.
pub open spec fn shows_crop(picture: &Picture, mask: &Mask, win: &CropWindow) -> bool {
    let (l, t, sw, sh) = (win.l as int, win.t as int, win.sw as int, win.sh as int);
    let (rw, rh) = (win.rw as int, win.rh as int);
    let (cut, marks) = (cut_rgb(picture, l, t, sw, sh), cut_gray(mask, l, t, sw, sh));
    if win.reduced() {
        &&& exists|content: Seq<u8>|
            {
                &&& may_smooth_rgb(win.sw, win.sh, cut, win.rw, win.rh, content)
                &&& content.len() == 3 * (rw * rh)
                &&& all_zero(cut) ==> all_zero(content)
                &&& win.image@ == #[trigger] window_image(content, rw, rh)
            }
        &&& exists|soft: Seq<u8>|
            {
                &&& may_smooth_gray(win.sw, win.sh, marks, win.rw, win.rh, soft)
                &&& soft.len() == rw * rh
                &&& all_zero(marks) ==> all_zero(soft)
                &&& win.mask@ == window_mask(#[trigger] hardened(soft), rw, rh)
            }
    } else {
        &&& win.image@ == window_image(cut, rw, rh)
        &&& win.mask@ == window_mask(marks, rw, rh)
    }
}

/// What is shown of a picture around one marked area: the place and the size of
/// the crop, its size in the window, its pixels and its mask.
pub struct Crop {
    pub l: u32,
    pub t: u32,
    pub sw: u32,
    pub sh: u32,
    pub rw: u32,
    pub rh: u32,
    pub image: Vec<u8>,
    pub mask: Vec<u8>,
}

impl Crop {
    /// The crop does not fit into the window as it is.
    pub open spec fn reduced(&self) -> bool {
        self.sw > 512 || self.sh > 512
    }
}

/// The crop is the one around a marked area, and holds its pixels.
pub open spec fn is_crop(crop: &Crop, picture: &Picture, mask: &Mask, bbox: BBox) -> bool {
    let (l, t, sw, sh) = crop_frame(bbox, picture.width as int, picture.height as int, 128);
    let long = larger(sw, sh);
    &&& crop.l == l
    &&& crop.t == t
    &&& crop.sw == sw
    &&& crop.sh == sh
    &&& crop.rw == fitted_side(sw, long)
    &&& crop.rh == fitted_side(sh, long)
    &&& crop.image@ == cut_rgb(picture, l, t, sw, sh)
    &&& crop.mask@ == cut_gray(mask, l, t, sw, sh)
}

fn fit_side(side: u32, long: u32) -> (r: u32)
    requires
        0 < side <= long,
    ensures
        r == fitted_side(side as int, long as int),
        0 < r <= 512,
{
    if long > 512 {
        let scale = Double::from_int(512).over(Double::from_int(long as i64));
        let v: i64 = Double::from_int(side as i64).times(scale).round();
        if v < 1 {
            1
        } else if v > 512 {
            512
        } else {
            v as u32
        }
    } else {
        side
    }
}

/// The margin of context around a marked area.
pub const MARGIN: i64 = 128;

/// Cuts out what is shown of a picture around one marked area.
pub fn crop_around(picture: &Picture, mask: &Mask, bbox: &BBox) -> (r: Result<Crop, String>)
    requires
        picture.wf(),
        mask.wf(),
        mask.width == picture.width,
        mask.height == picture.height,
        bbox.x1 <= bbox.x2,
        bbox.y1 <= bbox.y2,
    ensures
        ({
            let (w, h) = (picture.width as int, picture.height as int);
            let (l, t, sw, sh) = crop_frame(*bbox, w, h, 128);
            if sw == 0 || sh == 0 {
                r matches Err(e) && e@ == "empty crop region"@
            } else {
                r matches Ok(crop) && {
                    &&& is_crop(&crop, picture, mask, *bbox)
                    &&& crop.l + crop.sw <= w
                    &&& crop.t + crop.sh <= h
                    &&& 0 < crop.rw <= 512
                    &&& 0 < crop.rh <= 512
                    &&& !crop.reduced() ==> crop.rw == crop.sw && crop.rh == crop.sh
                    &&& crop.image@.len() == 3 * (crop.sw * crop.sh)
                    &&& crop.mask@.len() == crop.sw * crop.sh
                }
            }
        }),
{
    let (l, t, sw, sh) = crop_box(bbox, picture.width as i64, picture.height as i64, MARGIN);
    if sw == 0 || sh == 0 {
        return Err(String::from_str("empty crop region"));
    }
    let long: u32 = if sw < sh {
        sh
    } else {
        sw
    };
    let (rw, rh): (u32, u32) = (fit_side(sw, long), fit_side(sh, long));
    let image = crop_rgb(picture, l as usize, t as usize, sw as usize, sh as usize);
    let cut = crop_gray(mask, l as usize, t as usize, sw as usize, sh as usize);
    Ok(Crop { l: l as u32, t: t as u32, sw, sh, rw, rh, image, mask: cut })
}

/// The window that shows some pixels and some marks of a crop's reduced size.
pub fn window_of(crop: &Crop, content: &[u8], marks: &[u8]) -> (r: CropWindow)
    requires
        0 < crop.rw <= 512,
        0 < crop.rh <= 512,
        content@.len() == 3 * (crop.rw * crop.rh),
        marks@.len() == crop.rw * crop.rh,
    ensures
        r.l == crop.l,
        r.t == crop.t,
        r.sw == crop.sw,
        r.sh == crop.sh,
        r.rw == crop.rw,
        r.rh == crop.rh,
        r.image@ == window_image(content@, crop.rw as int, crop.rh as int),
        r.mask@ == window_mask(marks@, crop.rw as int, crop.rh as int),
{
    let (image, mask) = frame_window(content, marks, crop.rw as usize, crop.rh as usize);
    CropWindow {
        l: crop.l,
        t: crop.t,
        sw: crop.sw,
        sh: crop.sh,
        rw: crop.rw,
        rh: crop.rh,
        image,
        mask,
    }
}

proof fn lemma_short_product(a: int, b: int)
    requires
        0 <= a <= 0xffff_ffff,
        0 <= b <= 512,
    ensures
        a * b <= 0x400_0000_0000_0000,
{
    assert(a * b <= 0xffff_ffff * 512) by (nonlinear_arith)
        requires
            0 <= a <= 0xffff_ffff,
            0 <= b <= 512,
    ;
}

/// Prepares the window for one marked area. A crop larger than the window is
/// brought down to it; a smaller one is shown as it is.
pub fn plan_window(picture: &Picture, mask: &Mask, bbox: &BBox) -> (r: Result<CropWindow, String>)
    requires
        picture.wf(),
        mask.wf(),
        mask.width == picture.width,
        mask.height == picture.height,
        bbox.x1 <= bbox.x2,
        bbox.y1 <= bbox.y2,
    ensures
        ({
            let (w, h) = (picture.width as int, picture.height as int);
            let (l, t, sw, sh) = crop_frame(*bbox, w, h, 128);
            if sw == 0 || sh == 0 {
                r matches Err(e) && e@ == "empty crop region"@
            } else {
                let long = larger(sw, sh);
                let (rw, rh) = (fitted_side(sw, long), fitted_side(sh, long));
                r matches Ok(win) && {
                    &&& win.wf(w, h)
                    &&& win.l == l
                    &&& win.t == t
                    &&& win.sw == sw
                    &&& win.sh == sh
                    &&& win.rw == rw
                    &&& win.rh == rh
                    &&& shows_crop(picture, mask, &win)
                }
            }
        }),
{
    let crop = match crop_around(picture, mask, bbox) {
        Ok(crop) => crop,
        Err(e) => return Err(e),
    };
    if crop.sw > 512 || crop.sh > 512 {
        proof {
            lemma_short_product(crop.sw as int, crop.rh as int);
            lemma_short_product(crop.rw as int, crop.rh as int);
        }
        let content = smooth_rgb(crop.sw, crop.sh, crop.image.as_slice(), crop.rw, crop.rh);
        let soft = smooth_gray(crop.sw, crop.sh, crop.mask.as_slice(), crop.rw, crop.rh);
        let marks = harden(soft.as_slice());
        let win = window_of(&crop, content.as_slice(), marks.as_slice());
        proof {
            assert(win.reduced());
            assert(win.image@ == window_image(content@, crop.rw as int, crop.rh as int));
            assert(marks@ == hardened(soft@));
            assert(win.mask@ == window_mask(hardened(soft@), win.rw as int, win.rh as int));
            let (l, t, sw, sh) = (win.l as int, win.t as int, win.sw as int, win.sh as int);
            assert(crop.image@ == cut_rgb(picture, l, t, sw, sh));
            assert(crop.mask@ == cut_gray(mask, l, t, sw, sh));
            assert(content@.len() == 3 * (win.rw * win.rh) && soft@.len() == win.rw * win.rh);
            assert(shows_crop(picture, mask, &win));
            assert(win.wf(picture.width as int, picture.height as int));
        }
        Ok(win)
    } else {
        let win = window_of(&crop, crop.image.as_slice(), crop.mask.as_slice());
        proof {
            assert(!win.reduced());
            assert(shows_crop(picture, mask, &win));
            assert(win.wf(picture.width as int, picture.height as int));
        }
        Ok(win)
    }
}

/// What the model sees of `n` pixels: a plane of shares of 255 for each channel.
pub open spec fn window_values(image: Seq<u8>, n: int) -> Seq<Number> {
    Seq::new(
        (3 * n) as nat,
        |k: int|
            Number::spec_int(image[3 * (k % n) + k / n] as int).spec_over(
                Number::spec_int(255),
            ).spec_short(),
    )
}

/// What the model sees of a mask: one where it is marked, else zero.
pub open spec fn mask_values(mask: Seq<u8>) -> Seq<Number> {
    Seq::new(
        mask.len(),
        |i: int|
            if mask[i] > 0 {
                Number::spec_int(1)
            } else {
                Number::spec_int(0)
            },
    )
}

/// The planes that the model is shown of a window.
pub fn window_planes(image: &[u8]) -> (r: Vec<Number>)
    requires
        image@.len() % 3 == 0,
    ensures
        r@ == window_values(image@, image@.len() as int / 3),
{
    let total: usize = image.len();
    let n: usize = total / 3;
    let ghost goal = window_values(image@, n as int);
    let mut out: Vec<Number> = Vec::new();
    let mut c: usize = 0;
    while c < 3
        invariant
            total == image@.len(),
            total == 3 * n,
            goal == window_values(image@, n as int),
            c <= 3,
            out@.len() == c * n,
            forall|k: int| 0 <= k < out@.len() ==> #[trigger] out@[k] == goal[k],
        decreases 3 - c,
    {
        let mut i: usize = 0;
        while i < n
            invariant
                total == image@.len(),
                total == 3 * n,
                goal == window_values(image@, n as int),
                c < 3,
                i <= n,
                out@.len() == c * n + i,
                forall|k: int| 0 <= k < out@.len() ==> #[trigger] out@[k] == goal[k],
            decreases n - i,
        {
            proof {
                lemma_plane(n as int, c as int, i as int);
            }
            let v: u8 = image[3 * i + c];
            out.push(Number::from_int(v as i64).over(Number::from_int(255)).short());
            i = i + 1;
        }
        proof {
            assert((c + 1) * n == c * n + n) by (nonlinear_arith);
        }
        c = c + 1;
    }
    proof {
        assert(out@ =~= goal);
    }
    out
}

/// Where pixel `i` of plane `c` stands.
proof fn lemma_plane(n: int, c: int, i: int)
    requires
        0 <= c < 3,
        0 <= i < n,
    ensures
        0 <= c * n + i < 3 * n,
        (c * n + i) / n == c,
        (c * n + i) % n == i,
{
    assert(0 <= c * n + i && c * n + i < 3 * n) by (nonlinear_arith)
        requires
            0 <= c <= 2,
            0 <= i < n,
    ;
    vstd::arithmetic::div_mod::lemma_fundamental_div_mod_converse(c * n + i, n, c, i);
}

/// The plane that the model is shown of a mask.
pub fn mask_plane(mask: &[u8]) -> (r: Vec<Number>)
    ensures
        r@ == mask_values(mask@),
{
    let n: usize = mask.len();
    let mut out: Vec<Number> = Vec::new();
    let mut i: usize = 0;
    while i < n
        invariant
            n == mask@.len(),
            i <= n,
            out@.len() == i,
            forall|k: int| 0 <= k < i ==> #[trigger] out@[k] == mask_values(mask@)[k],
        decreases n - i,
    {
        out.push(
            Number::from_int(
                if mask[i] > 0 {
                    1
                } else {
                    0
                },
            ),
        );
        i = i + 1;
    }
    proof {
        assert(out@ =~= mask_values(mask@));
    }
    out
}

/// The pixels of the model's answer: its first three planes, cut to bytes.
pub open spec fn answer_pixels(data: Seq<Number>) -> Seq<u8> {
    Seq::new(
        (3 * 512 * 512) as nat,
        |k: int| byte_of(data[(k % 3) * (512 * 512) + k / 3]),
    )
}

/// Reads the model's answer, of which only the first three planes count; an
/// error if there are fewer.
pub fn answer_bytes(data: &[Number]) -> (r: Result<Vec<u8>, String>)
    ensures
        if data@.len() < 3 * 512 * 512 {
            r matches Err(e) && e@ == "unexpected model output size "@ + decimal(
                data@.len() as int,
            )
        } else {
            r matches Ok(v) && v@ == answer_pixels(data@) && v@.len() == 3 * 512 * 512
        },
{
    let n: usize = data.len();
    if n < 3 * 512 * 512 {
        let mut e = String::from_str("unexpected model output size ");
        push_chars(&mut e, digits_of(n as u64).as_slice());
        return Err(e);
    }
    let plane: usize = 512 * 512;
    let mut out: Vec<u8> = Vec::new();
    let mut k: usize = 0;
    while k < 3 * plane
        invariant
            plane == 512 * 512,
            data@.len() >= 3 * plane,
            k <= 3 * plane,
            out@.len() == k,
            forall|j: int| 0 <= j < k ==> #[trigger] out@[j] == answer_pixels(data@)[j],
        decreases 3 * plane - k,
    {
        out.push(to_byte(data[(k % 3) * plane + k / 3]));
        k = k + 1;
    }
    proof {
        assert(out@ =~= answer_pixels(data@));
    }
    Ok(out)
}

/// The content of an answer: the middle of the window.
pub open spec fn answer_content(answer: Seq<u8>, rw: int, rh: int) -> Seq<u8> {
    Seq::new(
        (3 * (rw * rh)) as nat,
        |k: int|
            answer[3 * part_position(offset_of(rw), offset_of(rh), rw, 512, k / 3) + k % 3],
    )
}

/// Position `i` of a picture of width `w` lies in a crop.
pub open spec fn in_crop(l: int, t: int, sw: int, sh: int, w: int, i: int) -> bool {
    l <= i % w < l + sw && t <= i / w < t + sh
}

/// The bytes of a picture with the marked pixels of a crop replaced.
pub open spec fn pasted(
    old: Seq<u8>,
    marks: Seq<u8>,
    fixed: Seq<u8>,
    l: int,
    t: int,
    sw: int,
    sh: int,
    w: int,
) -> Seq<u8> {
    Seq::new(
        old.len(),
        |k: int|
            if in_crop(l, t, sw, sh, w, k / 3) && marks[k / 3] > 0 {
                fixed[3 * (((k / 3) / w - t) * sw + ((k / 3) % w - l)) + k % 3]
            } else {
                old[k]
            },
    )
}

/// Cuts the content out of the model's answer.
pub fn take_answer(answer: &[u8], rw: usize, rh: usize) -> (r: Vec<u8>)
    requires
        rw <= 512,
        rh <= 512,
        answer@.len() == 3 * 512 * 512,
    ensures
        r@ == answer_content(answer@, rw as int, rh as int),
        r@.len() == 3 * (rw * rh),
{
    proof {
        assert(0 <= rw * rh <= 512 * 512) by (nonlinear_arith)
            requires
                0 <= rw <= 512,
                0 <= rh <= 512,
        ;
    }
    let n: usize = rw * rh;
    let dx: usize = (512 - rw) / 2;
    let dy: usize = (512 - rh) / 2;
    let mut out: Vec<u8> = Vec::new();
    let ghost goal = answer_content(answer@, rw as int, rh as int);
    let mut i: usize = 0;
    while i < n
        invariant
            rw <= 512,
            rh <= 512,
            n == rw * rh,
            n <= 512 * 512,
            answer@.len() == 3 * 512 * 512,
            dx == offset_of(rw as int),
            dy == offset_of(rh as int),
            goal == answer_content(answer@, rw as int, rh as int),
            i <= n,
            out@ == goal.take(3 * i),
        decreases n - i,
    {
        proof {
            lemma_part_position(
                dx as int,
                dy as int,
                rw as int,
                rh as int,
                512,
                512,
                i as int,
            );
            assert((3 * i) / 3 == i && (3 * i + 1) / 3 == i && (3 * i + 2) / 3 == i);
            assert((3 * i) % 3 == 0 && (3 * i + 1) % 3 == 1 && (3 * i + 2) % 3 == 2);
        }
        let at: usize = (dy + i / rw) * 512 + (dx + i % rw);
        let ghost before = out@;
        out.push(answer[3 * at]);
        out.push(answer[3 * at + 1]);
        out.push(answer[3 * at + 2]);
        proof {
            assert(goal[3 * i] == out@[3 * i] && goal[3 * i + 1] == out@[3 * i + 1] && goal[3 * i
                + 2] == out@[3 * i + 2]);
            assert forall|k: int| 0 <= k < 3 * (i + 1) implies out@[k] == goal[k] by {
                if k < 3 * i {
                    assert(out@[k] == before[k]);
                }
            }
        }
        i = i + 1;
        proof {
            assert(out@ =~= goal.take(3 * i));
        }
    }
    proof {
        assert(out@ =~= goal);
    }
    out
}

/// Replaces the marked pixels of a crop; every other pixel stays as it is.
pub fn paste_marked(
    out: &mut Picture,
    mask: &Mask,
    l: usize,
    t: usize,
    sw: usize,
    sh: usize,
    fixed: &[u8],
)
    requires
        old(out).wf(),
        mask.wf(),
        mask.width == old(out).width,
        mask.height == old(out).height,
        l + sw <= old(out).width,
        t + sh <= old(out).height,
        fixed@.len() == 3 * (sw * sh),
    ensures
        final(out).wf(),
        final(out).width == old(out).width,
        final(out).height == old(out).height,
        final(out).data@ == pasted(
            old(out).data@,
            mask.data@,
            fixed@,
            l as int,
            t as int,
            sw as int,
            sh as int,
            old(out).width as int,
        ),
{
    let count: usize = fixed.len();
    let total: usize = out.data.len();
    let n: usize = mask.data.len();
    let w: usize = out.width as usize;
    let h: usize = out.height as usize;
    let ghost given = out.data@;
    let ghost goal = pasted(
        given,
        mask.data@,
        fixed@,
        l as int,
        t as int,
        sw as int,
        sh as int,
        w as int,
    );
    let mut i: usize = 0;
    while i < n
        invariant
            mask.wf(),
            w == out.width,
            h == out.height,
            out.width == old(out).width,
            out.height == old(out).height,
            mask.width == w,
            mask.height == h,
            n == w * h,
            total == 3 * n,
            mask.data@.len() == n,
            out.data@.len() == total,
            given == old(out).data@,
            given.len() == total,
            l + sw <= w,
            t + sh <= h,
            count == 3 * (sw * sh),
            fixed@.len() == count,
            goal == pasted(
                given,
                mask.data@,
                fixed@,
                l as int,
                t as int,
                sw as int,
                sh as int,
                w as int,
            ),
            i <= n,
            forall|k: int| 0 <= k < 3 * i ==> #[trigger] out.data@[k] == goal[k],
            forall|k: int| 3 * i <= k < total ==> #[trigger] out.data@[k] == given[k],
        decreases n - i,
    {
        proof {
            lemma_position(w as int, h as int, i as int);
            assert((3 * i) / 3 == i && (3 * i + 1) / 3 == i && (3 * i + 2) / 3 == i);
            assert((3 * i) % 3 == 0 && (3 * i + 1) % 3 == 1 && (3 * i + 2) % 3 == 2);
        }
        let x: usize = i % w;
        let y: usize = i / w;
        let ghost before = out.data@;
        if mask.data[i] > 0 && x >= l && x < l + sw && y >= t && y < t + sh {
            proof {
                lemma_cell(sw as int, sh as int, x - l, y - t);
            }
            let at: usize = (y - t) * sw + (x - l);
            out.data.set(3 * i, fixed[3 * at]);
            out.data.set(3 * i + 1, fixed[3 * at + 1]);
            out.data.set(3 * i + 2, fixed[3 * at + 2]);
        }
        proof {
            assert(goal[3 * i] == out.data@[3 * i] && goal[3 * i + 1] == out.data@[3 * i + 1]
                && goal[3 * i + 2] == out.data@[3 * i + 2]);
            assert forall|k: int| 0 <= k < 3 * (i + 1) implies #[trigger] out.data@[k] == goal[k] by {
                if k < 3 * i {
                    assert(out.data@[k] == before[k]);
                }
            }
            assert forall|k: int| 3 * (i + 1) <= k < total implies #[trigger] out.data@[k]
                == given[k] by {
                assert(out.data@[k] == before[k]);
            }
        }
        i = i + 1;
    }
    proof {
        assert(out.data@ =~= goal);
    }
}

/// Writes the model's answer for one window back under the mask. An answer of
/// another size than the window is refused and changes nothing.
pub fn apply_answer(
    out: &mut Picture,
    mask: &Mask,
    win: &CropWindow,
    answer: &[u8],
) -> (r: bool)
    requires
        old(out).wf(),
        mask.wf(),
        mask.width == old(out).width,
        mask.height == old(out).height,
        win.wf(old(out).width as int, old(out).height as int),
    ensures
        final(out).wf(),
        final(out).width == old(out).width,
        final(out).height == old(out).height,
        r == (answer@.len() == 3 * 512 * 512),
        if !r {
            final(out).data@ == old(out).data@
        } else if win.reduced() {
            exists|fixed: Seq<u8>|
                {
                    &&& may_smooth_rgb(
                        win.rw,
                        win.rh,
                        answer_content(answer@, win.rw as int, win.rh as int),
                        win.sw,
                        win.sh,
                        fixed,
                    )
                    &&& fixed.len() == 3 * (win.sw * win.sh)
                    &&& all_zero(answer_content(answer@, win.rw as int, win.rh as int))
                        ==> all_zero(fixed)
                    &&& final(out).data@ == #[trigger] pasted(
                        old(out).data@,
                        mask.data@,
                        fixed,
                        win.l as int,
                        win.t as int,
                        win.sw as int,
                        win.sh as int,
                        old(out).width as int,
                    )
                }
        } else {
            final(out).data@ == pasted(
                old(out).data@,
                mask.data@,
                answer_content(answer@, win.rw as int, win.rh as int),
                win.l as int,
                win.t as int,
                win.sw as int,
                win.sh as int,
                old(out).width as int,
            )
        },
{
    if answer.len() != 3 * 512 * 512 {
        return false;
    }
    let content = take_answer(answer, win.rw as usize, win.rh as usize);
    proof {
        lemma_measurable_part(
            out.width as int,
            out.height as int,
            win.sw as int,
            win.sh as int,
        );
        assert(win.rw * win.sh == win.sh * win.rw) by (nonlinear_arith);
        lemma_short_product(win.sh as int, win.rw as int);
    }
    let fixed = if win.sw > 512 || win.sh > 512 {
        smooth_rgb(win.rw, win.rh, content.as_slice(), win.sw, win.sh)
    } else {
        content
    };
    paste_marked(
        out,
        mask,
        win.l as usize,
        win.t as usize,
        win.sw as usize,
        win.sh as usize,
        fixed.as_slice(),
    );
    true
}

/// Whatever the model answers, a pixel that is not marked does not change.
pub proof fn lemma_unmarked_unchanged(
    old_picture: &Picture,
    new_picture: &Picture,
    marks: Seq<u8>,
    fixed: Seq<u8>,
    l: int,
    t: int,
    sw: int,
    sh: int,
    i: int,
)
    requires
        old_picture.wf(),
        new_picture.data@ == pasted(
            old_picture.data@,
            marks,
            fixed,
            l,
            t,
            sw,
            sh,
            old_picture.width as int,
        ),
        0 <= i < old_picture.area(),
        marks[i] == 0,
    ensures
        change(old_picture, new_picture, i) == 0,
{
    assert((3 * i) / 3 == i && (3 * i + 1) / 3 == i && (3 * i + 2) / 3 == i);
    assert(new_picture.data@[3 * i] == old_picture.data@[3 * i]);
    assert(new_picture.data@[3 * i + 1] == old_picture.data@[3 * i + 1]);
    assert(new_picture.data@[3 * i + 2] == old_picture.data@[3 * i + 2]);
}

/// The areas to repair, one window each; pictures and masks of different sizes
/// and masks without a mark are refused.
pub fn repair_regions(picture: &Picture, mask: &Mask) -> (r: Result<Vec<BBox>, String>)
    requires
        picture.wf(),
        mask.wf(),
    ensures
        if picture.width != mask.width || picture.height != mask.height {
            r matches Err(e) && e@ == "image and mask size mismatch"@
        } else if components(mask.marks(), mask.width as int).len() == 0 {
            r matches Err(e) && e@ == "mask is empty"@
        } else {
            r matches Ok(found) && found@ == boxes_of(
                components(mask.marks(), mask.width as int),
            ) && forall|k: int|
                0 <= k < found@.len() ==> box_inside(
                    #[trigger] found@[k],
                    picture.width as int,
                    picture.height as int,
                )
        },
{
    if picture.width != mask.width || picture.height != mask.height {
        return Err(String::from_str("image and mask size mismatch"));
    }
    let found = mask_components(mask);
    if found.len() == 0 {
        return Err(String::from_str("mask is empty"));
    }
    Ok(found)
}

/// One window's answer was written back under a mask.
pub open spec fn is_repair(a: Seq<u8>, b: Seq<u8>, marks: Seq<u8>, w: int) -> bool {
    exists|fixed: Seq<u8>, l: int, t: int, sw: int, sh: int|
        b == #[trigger] pasted(a, marks, fixed, l, t, sw, sh, w)
}

/// However many windows are repaired, and whatever the model answers, a byte of
/// a pixel that is not marked ends as it began.
pub proof fn lemma_repairs_keep_unmarked(states: Seq<Seq<u8>>, marks: Seq<u8>, w: int, j: int)
    requires
        states.len() > 0,
        forall|k: int|
            0 <= k < states.len() - 1 ==> is_repair(#[trigger] states[k], states[k + 1], marks, w),
        0 <= j < states[0].len(),
        marks[j / 3] == 0,
    ensures
        states.last().len() == states[0].len(),
        states.last()[j] == states[0][j],
    decreases states.len(),
{
    if states.len() > 1 {
        let before = states.drop_last();
        assert forall|k: int| 0 <= k < before.len() - 1 implies is_repair(
            #[trigger] before[k],
            before[k + 1],
            marks,
            w,
        ) by {
            assert(is_repair(states[k], states[k + 1], marks, w));
        }
        lemma_repairs_keep_unmarked(before, marks, w, j);
        let k = states.len() - 2;
        assert(is_repair(states[k], states[k + 1], marks, w));
    }
}

/// A part of a picture holds the picture's pixels, each channel at its place.
pub proof fn lemma_cut_holds_the_pixels(
    picture: &Picture,
    x0: int,
    y0: int,
    rw: int,
    rh: int,
    x: int,
    y: int,
    c: int,
)
    requires
        0 <= x < rw,
        0 <= y < rh,
        0 <= c < 3,
    ensures
        0 <= 3 * (y * rw + x) + c < cut_rgb(picture, x0, y0, rw, rh).len(),
        cut_rgb(picture, x0, y0, rw, rh)[3 * (y * rw + x) + c] == picture.data@[3 * ((y0 + y)
            * picture.width + (x0 + x)) + c],
{
    lemma_cell(rw, rh, x, y);
    let k = 3 * (y * rw + x) + c;
    assert(k / 3 == y * rw + x && k % 3 == c);
}

/// The window shows each pixel of the content in its middle, each channel as it
/// is, and marks it where the content's mask does; around the content nothing is
/// marked.
pub proof fn lemma_window_shows_the_content(
    content: Seq<u8>,
    marks: Seq<u8>,
    rw: int,
    rh: int,
    x: int,
    y: int,
    c: int,
)
    requires
        0 <= rw <= 512,
        0 <= rh <= 512,
        0 <= c < 3,
        -((512 - rw) / 2) <= x < 512 - (512 - rw) / 2,
        -((512 - rh) / 2) <= y < 512 - (512 - rh) / 2,
    ensures
        ({
            let p = ((512 - rh) / 2 + y) * 512 + ((512 - rw) / 2 + x);
            let inside = 0 <= x < rw && 0 <= y < rh;
            &&& 0 <= p < 512 * 512
            &&& window_image(content, rw, rh).len() == 3 * 512 * 512
            &&& window_mask(marks, rw, rh).len() == 512 * 512
            &&& inside ==> window_image(content, rw, rh)[3 * p + c] == content[3 * (y * rw + x) + c]
            &&& inside && marks[y * rw + x] > 0 ==> window_mask(marks, rw, rh)[p] == 255
            &&& inside && marks[y * rw + x] == 0 ==> window_mask(marks, rw, rh)[p] == 0
            &&& !inside ==> window_mask(marks, rw, rh)[p] == 0
        }),
{
    let (ox, oy) = ((512 - rw) / 2, (512 - rh) / 2);
    let p = (oy + y) * 512 + (ox + x);
    lemma_cell(512, 512, ox + x, oy + y);
    assert((3 * p + c) / 3 == p && (3 * p + c) % 3 == c);
}

/// An answer is read from the middle of the window, each channel as it is.
pub proof fn lemma_answer_is_the_middle(answer: Seq<u8>, rw: int, rh: int, x: int, y: int, c: int)
    requires
        0 <= rw <= 512,
        0 <= rh <= 512,
        0 <= x < rw,
        0 <= y < rh,
        0 <= c < 3,
    ensures
        0 <= 3 * (y * rw + x) + c < answer_content(answer, rw, rh).len(),
        answer_content(answer, rw, rh)[3 * (y * rw + x) + c] == answer[3 * (((512 - rh) / 2 + y)
            * 512 + ((512 - rw) / 2 + x)) + c],
{
    lemma_cell(rw, rh, x, y);
    let k = 3 * (y * rw + x) + c;
    assert(k / 3 == y * rw + x && k % 3 == c);
}

/// What is put into the window comes out of it: the content that is cut out of a
/// window's own image is the content, byte for byte.
pub proof fn lemma_window_round_trip(content: Seq<u8>, rw: int, rh: int)
    requires
        0 <= rw <= 512,
        0 <= rh <= 512,
        content.len() == 3 * (rw * rh),
    ensures
        answer_content(window_image(content, rw, rh), rw, rh) == content,
{
    let back = answer_content(window_image(content, rw, rh), rw, rh);
    assert(rw * rh >= 0) by (nonlinear_arith)
        requires
            rw >= 0,
            rh >= 0,
    ;
    assert forall|k: int| 0 <= k < content.len() implies back[k] == content[k] by {
        let (i, c) = (k / 3, k % 3);
        lemma_position(rw, rh, i);
        let (x, y) = (i % rw, i / rw);
        lemma_window_shows_the_content(content, seq![], rw, rh, x, y, c);
        lemma_answer_is_the_middle(window_image(content, rw, rh), rw, rh, x, y, c);
        assert(k == 3 * (y * rw + x) + c);
    }
    assert(back =~= content);
}

/// A marked pixel of a crop takes the fixed pixel at its place, each channel as
/// it is; every other pixel stays.
pub proof fn lemma_pasted_by_place(
    old: Seq<u8>,
    marks: Seq<u8>,
    fixed: Seq<u8>,
    l: int,
    t: int,
    sw: int,
    sh: int,
    w: int,
    h: int,
    x: int,
    y: int,
    c: int,
)
    requires
        0 <= x < w,
        0 <= y < h,
        0 <= c < 3,
        old.len() == 3 * (w * h),
    ensures
        ({
            let i = y * w + x;
            let new = pasted(old, marks, fixed, l, t, sw, sh, w);
            &&& new.len() == old.len()
            &&& 0 <= 3 * i + c < old.len()
            &&& l <= x < l + sw && t <= y < t + sh && marks[i] > 0 ==> new[3 * i + c] == fixed[3 * ((
            y - t) * sw + (x - l)) + c]
            &&& !(l <= x < l + sw && t <= y < t + sh && marks[i] > 0) ==> new[3 * i + c] == old[3 * i
                + c]
        }),
{
    lemma_cell(w, h, x, y);
    let i = y * w + x;
    assert((3 * i + c) / 3 == i && (3 * i + c) % 3 == c);
}

/// A window whose crop is shown as it is gives the picture back if its own image
/// is the answer.
pub proof fn lemma_own_image_changes_nothing(picture: &Picture, mask: &Mask, win: &CropWindow)
    requires
        picture.wf(),
        win.wf(picture.width as int, picture.height as int),
        !win.reduced(),
        shows_crop(picture, mask, win),
    ensures
        pasted(
            picture.data@,
            mask.data@,
            answer_content(win.image@, win.rw as int, win.rh as int),
            win.l as int,
            win.t as int,
            win.sw as int,
            win.sh as int,
            picture.width as int,
        ) == picture.data@,
{
    let (w, h) = (picture.width as int, picture.height as int);
    let (l, t, sw, sh) = (win.l as int, win.t as int, win.sw as int, win.sh as int);
    let cut = cut_rgb(picture, l, t, sw, sh);
    assert(sw * sh >= 0) by (nonlinear_arith)
        requires
            sw >= 0,
            sh >= 0,
    ;
    lemma_window_round_trip(cut, sw, sh);
    let new = pasted(picture.data@, mask.data@, cut, l, t, sw, sh, w);
    assert forall|k: int| 0 <= k < picture.data@.len() implies new[k] == picture.data@[k] by {
        let (i, c) = (k / 3, k % 3);
        lemma_position(w, h, i);
        let (x, y) = (i % w, i / w);
        lemma_pasted_by_place(picture.data@, mask.data@, cut, l, t, sw, sh, w, h, x, y, c);
        assert(k == 3 * (y * w + x) + c);
        if l <= x < l + sw && t <= y < t + sh {
            lemma_cut_holds_the_pixels(picture, l, t, sw, sh, x - l, y - t, c);
        }
    }
    assert(new =~= picture.data@);
}

/// A model that paints every pixel of the window in one colour paints exactly the
/// marked pixels of a crop in that colour, red as red, green as green and blue as
/// blue.
pub proof fn lemma_one_colour_answer(
    old: Seq<u8>,
    marks: Seq<u8>,
    answer: Seq<u8>,
    colour: (u8, u8, u8),
    l: int,
    t: int,
    sw: int,
    sh: int,
    w: int,
    h: int,
    x: int,
    y: int,
)
    requires
        0 <= x < w,
        0 <= y < h,
        0 < sw <= 512,
        0 < sh <= 512,
        old.len() == 3 * (w * h),
        answer.len() == 3 * 512 * 512,
        forall|p: int|
            0 <= p < 512 * 512 ==> #[trigger] answer[3 * p] == colour.0 && answer[3 * p + 1]
                == colour.1 && answer[3 * p + 2] == colour.2,
    ensures
        ({
            let i = y * w + x;
            let new = pasted(old, marks, answer_content(answer, sw, sh), l, t, sw, sh, w);
            if l <= x < l + sw && t <= y < t + sh && marks[i] > 0 {
                new[3 * i] == colour.0 && new[3 * i + 1] == colour.1 && new[3 * i + 2] == colour.2
            } else {
                new[3 * i] == old[3 * i] && new[3 * i + 1] == old[3 * i + 1] && new[3 * i + 2]
                    == old[3 * i + 2]
            }
        }),
{
    let fixed = answer_content(answer, sw, sh);
    lemma_pasted_by_place(old, marks, fixed, l, t, sw, sh, w, h, x, y, 0);
    lemma_pasted_by_place(old, marks, fixed, l, t, sw, sh, w, h, x, y, 1);
    lemma_pasted_by_place(old, marks, fixed, l, t, sw, sh, w, h, x, y, 2);
    if l <= x < l + sw && t <= y < t + sh {
        let (ox, oy) = ((512 - sw) / 2, (512 - sh) / 2);
        lemma_answer_is_the_middle(answer, sw, sh, x - l, y - t, 0);
        lemma_answer_is_the_middle(answer, sw, sh, x - l, y - t, 1);
        lemma_answer_is_the_middle(answer, sw, sh, x - l, y - t, 2);
        lemma_cell(512, 512, ox + x - l, oy + y - t);
        let p = (oy + (y - t)) * 512 + (ox + (x - l));
        assert(answer[3 * p] == colour.0);
        assert(answer[3 * p + 0] == colour.0);
    }
}

/// The model sees channel `c` of each pixel in plane `c`, as a share of 255.
pub proof fn lemma_planes_show_channels(image: Seq<u8>, n: int, p: int, c: int)
    requires
        image.len() == 3 * n,
        0 <= p < n,
        0 <= c < 3,
    ensures
        0 <= c * n + p < window_values(image, n).len(),
        sound(window_values(image, n)[c * n + p]),
        within(
            amount(window_values(image, n)[c * n + p]),
            (image[3 * p + c] as real) / (255 as real),
            (1 as real) / (0x40_0000 as real),
        ),
{
    lemma_plane(n, c, p);
    let v = image[3 * p + c];
    lemma_int_amount(v as int);
    lemma_int_amount(255);
    lemma_quotient_close(Number::spec_int(v as int), Number::spec_int(255));
}

/// A byte of the model's answer is the integer part of what its channel's plane
/// says of its pixel, within what a byte can hold.
pub proof fn lemma_answer_reads_planes(data: Seq<Number>, p: int, c: int)
    requires
        0 <= p < 512 * 512,
        0 <= c < 3,
        sound(data[c * (512 * 512) + p]),
        modest(amount(data[c * (512 * 512) + p])),
    ensures
        ({
            let (v, b) = (amount(data[c * (512 * 512) + p]), answer_pixels(data)[3 * p + c]);
            &&& v <= (0 as real) ==> b == 0
            &&& (0 as real) <= v < (256 as real) ==> (b as real) <= v < ((b + 1) as real)
            &&& v >= (255 as real) ==> b == 255
        }),
{
    assert((3 * p + c) / 3 == p && (3 * p + c) % 3 == c);
    lemma_byte_by_amount(data[c * (512 * 512) + p]);
}

/// What the model is shown of a window, taken for its answer in shares of 255, is
/// the window: the planes are written as they are read.
pub proof fn lemma_planes_written_as_read(image: Seq<u8>, data: Seq<Number>, p: int, c: int)
    requires
        image.len() == 3 * 512 * 512,
        data.len() == 3 * 512 * 512,
        0 <= p < 512 * 512,
        0 <= c < 3,
        sound(data[c * (512 * 512) + p]),
        within(
            amount(data[c * (512 * 512) + p]),
            amount(window_values(image, 0x4_0000)[c * (512 * 512) + p]) * (255 as real) + (1
                as real) / (2 as real),
            (1 as real) / (4 as real),
        ),
    ensures
        answer_pixels(data)[3 * p + c] == image[3 * p + c],
{
    lemma_planes_show_channels(image, 0x4_0000, p, c);
    let (v, b) = (amount(window_values(image, 0x4_0000)[c * (512 * 512) + p]), image[3 * p + c]);
    let br = b as real;
    assert(v * (255 as real) - br <= (1 as real) / (8 as real) && br - v * (255 as real) <= (1
        as real) / (8 as real)) by (nonlinear_arith)
        requires
            v - br / (255 as real) <= (1 as real) / (0x40_0000 as real),
            br / (255 as real) - v <= (1 as real) / (0x40_0000 as real),
    ;
    let x = amount(data[c * (512 * 512) + p]);
    let mid = v * (255 as real) + (1 as real) / (2 as real);
    assert(mid - (1 as real) / (4 as real) <= x && x <= mid + (1 as real) / (4 as real));
    assert(br < x && x < br + (1 as real));
    assert(modest(x));
    lemma_answer_reads_planes(data, p, c);
    let d = answer_pixels(data)[3 * p + c];
    assert((d as real) <= x && x < ((d + 1) as real));
    assert((b as real) < ((d + 1) as real) && (d as real) < ((b + 1) as real));
}

} // verus!
