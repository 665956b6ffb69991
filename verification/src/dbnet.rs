//! What a text detector is shown, and boxes of text from its probability map.

use crate::accuracy::{
    amount, lemma_difference_close, lemma_int_amount, lemma_order_by_amount, lemma_quotient_close,
    lemma_ratio_close, sound, within,
};
use crate::boxes::{larger, smaller, Frame};
use crate::codec::{all_zero, may_smooth_rgb, smooth_rgb};
use crate::components::{components, parts_of, within_grid, Component};
use crate::double::{
    lemma_fitted_round, lemma_less, lemma_shrunk_round, lemma_spread, whole, Double,
};
use crate::learning::{level, level_of};
use crate::number::Number;
use crate::raster::Picture;
use crate::text::{decimal, digits_of, push_chars};
use vstd::prelude::*;

verus! {

/// The factor that brings the longer side of a picture down to 960.
pub open spec fn detector_scale(w: int, h: int) -> Double {
    if larger(w, h) == 0 {
        whole(1)
    } else {
        whole(960).spec_over(whole(larger(w, h))).spec_min(whole(1))
    }
}

/// A side of the detector's input: scaled, then cut to a multiple of 32, at
/// least 32.
pub open spec fn detector_side(side: int, scale: Double) -> int {
    larger(whole(side).spec_times(scale).spec_round(), 32) / 32 * 32
}

/// The size at which the detector looks at a picture.
pub fn detector_size(w: u32, h: u32) -> (r: (i64, i64))
    ensures
        r.0 == detector_side(w as int, detector_scale(w as int, h as int)),
        r.1 == detector_side(h as int, detector_scale(w as int, h as int)),
        32 <= r.0 <= larger(w + 1, 32),
        32 <= r.1 <= larger(h + 1, 32),
        r.0 <= 0x2000,
        r.1 <= 0x2000,
        r.0 % 32 == 0,
        r.1 % 32 == 0,
{
    let long: i64 = if w < h {
        h as i64
    } else {
        w as i64
    };
    let one = Double::from_int(1);
    let scale = if long == 0 {
        one
    } else {
        Double::from_int(960).over(Double::from_int(long)).min(one)
    };
    proof {
        reveal(Double::spec_min);
        lemma_less(one, scale);
        lemma_spread(scale);
        lemma_spread(one);
        lemma_shrunk_round(scale, w as int);
        lemma_shrunk_round(scale, h as int);
        if long > 0 {
            lemma_fitted_round(long as int, w as int);
            lemma_fitted_round(long as int, h as int);
            let ratio = whole(960).spec_over(whole(long as int));
            lemma_less(one, ratio);
        }
    }
    let a: i64 = Double::from_int(w as i64).times(scale).round();
    let b: i64 = Double::from_int(h as i64).times(scale).round();
    let a: i64 = if a < 32 {
        32
    } else {
        a
    };
    let b: i64 = if b < 32 {
        32
    } else {
        b
    };
    (a / 32 * 32, b / 32 * 32)
}

/// A coordinate of the map in the picture.
pub open spec fn projected(v: int, from: int, to: int) -> int {
    whole(v).spec_over(whole(from)).spec_times(whole(to)).spec_round()
}

/// How far a box of the map is grown: by its height, at least 6.
pub open spec fn growth(c: Component) -> int {
    larger(c.y2 - c.y1, 6)
}

/// The box of a component in a picture of `w` x `h`.
pub open spec fn text_frame(c: Component, rw: int, rh: int, w: int, h: int) -> (int, int, int, int) {
    let pad = growth(c);
    (
        larger(projected(c.x1 as int, rw, w) - pad, 0),
        larger(projected(c.y1 as int, rh, h) - pad, 0),
        smaller(projected(c.x2 as int, rw, w) + pad, w - 1),
        smaller(projected(c.y2 as int, rh, h) + pad, h - 1),
    )
}

/// A component with the shape of a line of text, large enough in the picture.
pub open spec fn is_text(c: Component, rw: int, rh: int, w: int, h: int) -> bool {
    let b = text_frame(c, rw, rh, w, h);
    &&& c.area >= 200
    &&& c.x2 - c.x1 > c.y2 - c.y1
    &&& b.2 - b.0 >= 30
    &&& b.3 - b.1 >= 12
}

/// The text boxes among the first `n` components.
pub open spec fn text_frames(
    parts: Seq<Component>,
    rw: int,
    rh: int,
    w: int,
    h: int,
    n: int,
) -> Seq<Frame>
    decreases n,
{
    if n <= 0 {
        seq![]
    } else {
        let before = text_frames(parts, rw, rh, w, h, n - 1);
        let c = parts[n - 1];
        let b = text_frame(c, rw, rh, w, h);
        if is_text(c, rw, rh, w, h) {
            before.push((b.0 as i64, b.1 as i64, b.2 as i64, b.3 as i64))
        } else {
            before
        }
    }
}

fn project(v: usize, from: usize, to: u32) -> (r: i64)
    requires
        0 < from,
    ensures
        r == projected(v as int, from as int, to as int),
        r >= 0,
{
    Double::from_count(v).over(Double::from_count(from)).times(
        Double::from_int(to as i64),
    ).round()
}

fn near_edge(v: i64, pad: i64) -> (r: i64)
    requires
        0 <= v,
        0 <= pad,
    ensures
        r == larger(v - pad, 0),
{
    if v - pad < 0 {
        0
    } else {
        v - pad
    }
}

fn far_edge(v: i64, pad: i64, size: u32) -> (r: i64)
    requires
        0 <= v,
        0 <= pad,
        0 < size,
    ensures
        r == smaller(v + pad, size - 1),
        0 <= r < size,
{
    let sum: i128 = v as i128 + pad as i128;
    let last: i128 = size as i128 - 1;
    if last < sum {
        last as i64
    } else {
        sum as i64
    }
}

/// The boxes of text in a picture of `w` x `h`, from the cells of a map of
/// `rw` x `rh` that the detector takes for text.
pub fn detect(active: &[bool], rw: usize, rh: usize, w: u32, h: u32) -> (r: Vec<Frame>)
    requires
        active@.len() == rw * rh,
        rw <= 0x800_0000,
        rh <= 0x800_0000,
        0 < w,
        0 < h,
    ensures
        ({
            let parts = components(active@, rw as int);
            r@ == text_frames(
                parts,
                rw as int,
                rh as int,
                w as int,
                h as int,
                parts.len() as int,
            )
        }),
        forall|k: int|
            0 <= k < r@.len() ==> {
                &&& 0 <= (#[trigger] r@[k]).0 <= r@[k].2 - 30
                &&& r@[k].2 < w
                &&& 0 <= r@[k].1 <= r@[k].3 - 12
                &&& r@[k].3 < h
            },
{
    let parts = parts_of(active, rw, rh);
    let mut out: Vec<Frame> = Vec::new();
    let mut i: usize = 0;
    while i < parts.len()
        invariant
            i <= parts@.len(),
            rw <= 0x800_0000,
            rh <= 0x800_0000,
            0 < w,
            0 < h,
            forall|k: int|
                0 <= k < parts@.len() ==> within_grid(rw as int, rh as int, #[trigger] parts@[k]),
            out@ == text_frames(parts@, rw as int, rh as int, w as int, h as int, i as int),
            forall|k: int|
                0 <= k < out@.len() ==> {
                    &&& 0 <= (#[trigger] out@[k]).0 <= out@[k].2 - 30
                    &&& out@[k].2 < w
                    &&& 0 <= out@[k].1 <= out@[k].3 - 12
                    &&& out@[k].3 < h
                },
        decreases parts@.len() - i,
    {
        let c: Component = parts[i];
        let cw: usize = c.x2 - c.x1;
        let ch: usize = c.y2 - c.y1;
        if c.area >= 200 && cw > ch {
            let pad: i64 = if ch < 6 {
                6
            } else {
                ch as i64
            };
            let x1: i64 = near_edge(project(c.x1, rw, w), pad);
            let y1: i64 = near_edge(project(c.y1, rh, h), pad);
            let x2: i64 = far_edge(project(c.x2, rw, w), pad, w);
            let y2: i64 = far_edge(project(c.y2, rh, h), pad, h);
            if x2 - x1 >= 30 && y2 - y1 >= 12 {
                out.push((x1, y1, x2, y2));
            }
        }
        i = i + 1;
    }
    out
}

/// What is taken from channel `c`, in the order blue, green, red, before it is
/// divided.
pub open spec fn channel_middle(c: int) -> Number {
    if c == 0 {
        level(485, 1000)
    } else if c == 1 {
        level(456, 1000)
    } else {
        level(406, 1000)
    }
}

/// What channel `c` is divided by.
pub open spec fn channel_width(c: int) -> Number {
    if c == 0 {
        level(229, 1000)
    } else if c == 1 {
        level(224, 1000)
    } else {
        level(225, 1000)
    }
}

/// The value that the detector sees for a byte of channel `c`.
pub open spec fn detector_value(v: u8, c: int) -> Number {
    Number::spec_int(v as int).spec_over(Number::spec_int(255)).spec_short().spec_minus(
        channel_middle(c),
    ).spec_short().spec_over(channel_width(c)).spec_short()
}

/// What the detector sees of `n` pixels: a plane each for blue, green and red.
pub open spec fn detector_values(content: Seq<u8>, n: int) -> Seq<Number> {
    Seq::new(
        (3 * n) as nat,
        |k: int| detector_value(content[3 * (k % n) + (2 - k / n)], k / n),
    )
}

fn middle_of(c: usize) -> (r: Number)
    requires
        c < 3,
    ensures
        r == channel_middle(c as int),
{
    if c == 0 {
        level_of(485, 1000)
    } else if c == 1 {
        level_of(456, 1000)
    } else {
        level_of(406, 1000)
    }
}

fn width_of(c: usize) -> (r: Number)
    requires
        c < 3,
    ensures
        r == channel_width(c as int),
{
    if c == 0 {
        level_of(229, 1000)
    } else if c == 1 {
        level_of(224, 1000)
    } else {
        level_of(225, 1000)
    }
}

/// The planes that the detector is shown of a picture of its size.
pub fn detector_planes(content: &[u8]) -> (r: Vec<Number>)
    requires
        content@.len() % 3 == 0,
    ensures
        r@ == detector_values(content@, content@.len() as int / 3),
{
    let total: usize = content.len();
    let n: usize = total / 3;
    let ghost goal = detector_values(content@, n as int);
    let mut out: Vec<Number> = Vec::new();
    let mut c: usize = 0;
    while c < 3
        invariant
            total == content@.len(),
            total == 3 * n,
            goal == detector_values(content@, n as int),
            c <= 3,
            out@.len() == c * n,
            forall|k: int| 0 <= k < out@.len() ==> #[trigger] out@[k] == goal[k],
        decreases 3 - c,
    {
        let middle = middle_of(c);
        let width = width_of(c);
        let mut i: usize = 0;
        while i < n
            invariant
                total == content@.len(),
                total == 3 * n,
                goal == detector_values(content@, n as int),
                c < 3,
                middle == channel_middle(c as int),
                width == channel_width(c as int),
                i <= n,
                out@.len() == c * n + i,
                forall|k: int| 0 <= k < out@.len() ==> #[trigger] out@[k] == goal[k],
            decreases n - i,
        {
            let v: u8 = content[3 * i + (2 - c)];
            proof {
                let k = c * n + i;
                assert(k / n as int == c && k % n as int == i) by {
                    vstd::arithmetic::div_mod::lemma_fundamental_div_mod_converse(
                        k,
                        n as int,
                        c as int,
                        i as int,
                    );
                }
                assert(k < 3 * n) by (nonlinear_arith)
                    requires
                        k == c * n + i,
                        c <= 2,
                        0 <= i < n,
                ;
                assert(goal[k] == detector_value(v, c as int));
            }
            let whole_byte = Number::from_int(v as i64).over(Number::from_int(255)).short();
            out.push(whole_byte.minus(middle).short().over(width).short());
            i = i + 1;
        }
        proof {
            assert((c + 1) * n == c * n + n) by (nonlinear_arith);
        }
        c = c + 1;
    }
    proof {
        assert(out@ =~= goal);
    }
    out
}

/// The planes are what the detector sees of a picture that is resampled to
/// `rw` x `rh`: of one that the resampling may give, black if the picture is.
pub open spec fn is_shown(planes: Seq<Number>, rw: int, rh: int, picture: &Picture) -> bool {
    exists|content: Seq<u8>|
        {
            &&& may_smooth_rgb(
                picture.width,
                picture.height,
                picture.data@,
                rw as u32,
                rh as u32,
                content,
            )
            &&& content.len() == 3 * (rw * rh)
            &&& all_zero(picture.data@) ==> all_zero(content)
            &&& planes == #[trigger] detector_values(content, rw * rh)
        }
}

/// What the detector is shown of a picture, and the size of it. The picture is
/// resampled with the Lanczos filter, whose values are not told, but black stays
/// black.
pub fn detector_input(picture: &Picture) -> (r: (Vec<Number>, usize, usize))
    requires
        picture.wf(),
    ensures
        ({
            let (w, h) = (picture.width as int, picture.height as int);
            &&& r.1 == detector_side(w, detector_scale(w, h))
            &&& r.2 == detector_side(h, detector_scale(w, h))
        }),
        is_shown(r.0@, r.1 as int, r.2 as int, picture),
        32 <= r.1 <= 0x2000,
        32 <= r.2 <= 0x2000,
{
    let (w, h): (u32, u32) = (picture.width, picture.height);
    let (a, b) = detector_size(w, h);
    let (rw, rh): (u32, u32) = (a as u32, b as u32);
    proof {
        assert(w * rh <= 0x400_0000_0000_0000 && rw * rh <= 0x400_0000_0000_0000) by (
        nonlinear_arith)
            requires
                w <= 0xffff_ffff,
                rw <= 0x2000,
                rh <= 0x2000,
        ;
    }
    let content = smooth_rgb(w, h, picture.data.as_slice(), rw, rh);
    let planes = detector_planes(content.as_slice());
    proof {
        assert(content@.len() == 3 * (rw * rh));
        assert(planes@ == detector_values(content@, rw * rh));
    }
    (planes, rw as usize, rh as usize)
}

/// The cells of a probability map that are taken for text.
pub open spec fn text_cells(map: Seq<Number>) -> Seq<bool> {
    Seq::new(map.len(), |i: int| level(3, 10).spec_lt(map[i]))
}

/// The boxes of text that a probability map of `rw` x `rh` shows in a picture
/// of `w` x `h`; an error for a map of another size.
pub fn read_map(map: &[Number], rw: usize, rh: usize, w: u32, h: u32) -> (r: Result<
    Vec<Frame>,
    String,
>)
    requires
        rw <= 0x800_0000,
        rh <= 0x800_0000,
        0 < w,
        0 < h,
    ensures
        if map@.len() != rw * rh {
            r matches Err(e) && e@ == "unexpected OCR output size "@ + decimal(
                map@.len() as int,
            )
        } else {
            r matches Ok(v) && {
                let parts = components(text_cells(map@), rw as int);
                v@ == text_frames(
                    parts,
                    rw as int,
                    rh as int,
                    w as int,
                    h as int,
                    parts.len() as int,
                )
            }
        },
{
    let n: usize = map.len();
    proof {
        assert(0 <= rw * rh <= 0x40_0000_0000_0000) by (nonlinear_arith)
            requires
                0 <= rw <= 0x800_0000,
                0 <= rh <= 0x800_0000,
        ;
    }
    if n as u64 != rw as u64 * rh as u64 {
        let mut e = String::from_str("unexpected OCR output size ");
        push_chars(&mut e, digits_of(n as u64).as_slice());
        return Err(e);
    }
    let least = level_of(3, 10);
    let mut cells: Vec<bool> = Vec::new();
    let mut i: usize = 0;
    while i < n
        invariant
            n == map@.len(),
            least == level(3, 10),
            i <= n,
            cells@.len() == i,
            forall|k: int| 0 <= k < i ==> #[trigger] cells@[k] == text_cells(map@)[k],
        decreases n - i,
    {
        cells.push(least.less(map[i]));
        i = i + 1;
    }
    proof {
        assert(cells@ =~= text_cells(map@));
    }
    Ok(detect(cells.as_slice(), rw, rh, w, h))
}

/// The detector sees blue in its first plane, green in its second and red in its
/// third, each as a share of 255 less the channel's middle, over its width.
pub proof fn lemma_detector_sees_channels(content: Seq<u8>, n: int, p: int)
    requires
        content.len() == 3 * n,
        0 <= p < n,
    ensures
        ({
            let seen = detector_values(content, n);
            let (red, green, blue) = (
                content[3 * p] as real / (255 as real),
                content[3 * p + 1] as real / (255 as real),
                content[3 * p + 2] as real / (255 as real),
            );
            let eps = (1 as real) / (10000 as real);
            let t = 1000 as real;
            &&& seen.len() == 3 * n
            &&& sound(seen[p]) && sound(seen[n + p]) && sound(seen[2 * n + p])
            &&& within(amount(seen[p]), (blue - (485 as real) / t) / ((229 as real) / t), eps)
            &&& within(amount(seen[n + p]), (green - (456 as real) / t) / ((224 as real) / t), eps)
            &&& within(amount(seen[2 * n + p]), (red - (406 as real) / t) / ((225 as real) / t), eps)
        }),
{
    let seen = detector_values(content, n);
    vstd::arithmetic::div_mod::lemma_fundamental_div_mod_converse(p, n, 0, p);
    vstd::arithmetic::div_mod::lemma_fundamental_div_mod_converse(n + p, n, 1, p);
    vstd::arithmetic::div_mod::lemma_fundamental_div_mod_converse(2 * n + p, n, 2, p);
    assert(seen[p] == detector_value(content[3 * p + 2], 0));
    assert(seen[n + p] == detector_value(content[3 * p + 1], 1));
    assert(seen[2 * n + p] == detector_value(content[3 * p], 2));
    lemma_detector_value_close(content[3 * p + 2], 0, 485, 229);
    lemma_detector_value_close(content[3 * p + 1], 1, 456, 224);
    lemma_detector_value_close(content[3 * p], 2, 406, 225);
}

proof fn lemma_detector_value_close(v: u8, c: int, middle: int, width: int)
    requires
        c == 0 ==> middle == 485 && width == 229,
        c == 1 ==> middle == 456 && width == 224,
        c == 2 ==> middle == 406 && width == 225,
        0 <= c <= 2,
    ensures
        ({
            let share = v as real / (255 as real);
            let t = 1000 as real;
            &&& sound(detector_value(v, c))
            &&& within(
                amount(detector_value(v, c)),
                (share - (middle as real) / t) / ((width as real) / t),
                (1 as real) / (10000 as real),
            )
        }),
{
    let (nv, n255) = (Number::spec_int(v as int), Number::spec_int(255));
    lemma_int_amount(v as int);
    lemma_int_amount(255);
    lemma_quotient_close(nv, n255);
    let part = nv.spec_over(n255).spec_short();
    let (mid, wide) = (level(middle, 1000), level(width, 1000));
    lemma_ratio_close(middle, 1000);
    lemma_ratio_close(width, 1000);
    lemma_difference_close(part, mid);
    let d = part.spec_minus(mid).spec_short();
    let share = v as real / (255 as real);
    let (m, w) = ((middle as real) / (1000 as real), (width as real) / (1000 as real));
    let (x, y, e) = (amount(d), amount(wide), share - m);
    let tiny = (1 as real) / (0x8_0000 as real);
    assert(within(x, e, tiny) && within(y, w, tiny));
    let (q, r) = (x / y, e / w);
    assert(x == q * y && e == r * w) by (nonlinear_arith)
        requires
            q == x / y,
            r == e / w,
            y > (0 as real),
            w > (0 as real),
    ;
    assert((0 as real) - (3 as real) <= r && r <= (3 as real)) by (nonlinear_arith)
        requires
            e == r * w,
            w >= (224 as real) / (1000 as real),
            (0 as real) - (485 as real) / (1000 as real) <= e,
            e <= (594 as real) / (1000 as real),
    ;
    assert(q - r <= (1 as real) / (0x4000 as real) && r - q <= (1 as real) / (0x4000 as real)) by (
    nonlinear_arith)
        requires
            x == q * y,
            e == r * w,
            y >= (22 as real) / (100 as real),
            (0 as real) - (3 as real) <= r,
            r <= (3 as real),
            x - e <= (1 as real) / (0x8_0000 as real),
            e - x <= (1 as real) / (0x8_0000 as real),
            y - w <= (1 as real) / (0x8_0000 as real),
            w - y <= (1 as real) / (0x8_0000 as real),
    ;
    lemma_quotient_close(d, wide);
}

/// A cell of the map is text if its probability is above 0.3.
pub proof fn lemma_text_is_likely(map: Seq<Number>, i: int)
    requires
        0 <= i < map.len(),
        sound(map[i]),
    ensures
        text_cells(map).len() == map.len(),
        amount(map[i]) >= (30001 as real) / (100000 as real) ==> text_cells(map)[i],
        amount(map[i]) <= (29999 as real) / (100000 as real) ==> !text_cells(map)[i],
{
    lemma_ratio_close(3, 10);
    lemma_order_by_amount(level(3, 10), map[i]);
}

} // verus!
