//! The sheet on which the corners of all pictures can be looked at together.

use crate::boxes::{larger, smaller};
use crate::codec::{all_zero, fits_side, may_smooth_rgb, side_fits, smooth_rgb, too_large};
use crate::grid::{lemma_cell, lemma_position};
use crate::lama::{crop_rgb, cut_rgb};
use crate::raster::{lemma_measurable_part, lemma_measurable_sides, measurable, Mask, Picture};
use crate::text::{fails_with, texts};
use vstd::prelude::*;

verus! {

/// The marked area among the first `n` pixels of a mask: left, top, right and
/// bottom, all inclusive, starting from the far corner of the picture.
pub open spec fn marked_extent(mask: &Mask, width: int, height: int, n: int) -> (int, int, int, int)
    decreases n,
{
    if n <= 0 {
        (width, height, 0, 0)
    } else {
        let e = marked_extent(mask, width, height, n - 1);
        if mask.data@[n - 1] > 0 {
            let (x, y) = ((n - 1) % mask.width as int, (n - 1) / mask.width as int);
            (smaller(e.0, x), smaller(e.1, y), larger(e.2, x), larger(e.3, y))
        } else {
            e
        }
    }
}

/// What a sheet shows of a picture before the margin: the marked area, else
/// the corner in which the watermark is expected.
pub open spec fn shown_area(mask: Option<Mask>, width: int, height: int) -> (int, int, int, int) {
    let corner = (larger(width - 330, 0), larger(height - 118, 0), width - 8, height - 8);
    match mask {
        Some(m) => {
            let e = marked_extent(&m, width, height, m.data@.len() as int);
            if e.2 >= e.0 && e.3 >= e.1 {
                (e.0, e.1, e.2 + 1, e.3 + 1)
            } else {
                corner
            }
        },
        None => corner,
    }
}

/// What a sheet shows of a picture: with half the area's size as margin, at
/// least 80 columns and 50 rows.
pub open spec fn shown_box(mask: Option<Mask>, width: int, height: int) -> (int, int, int, int) {
    let a = shown_area(mask, width, height);
    let mx = larger(80, (a.2 - a.0) / 2);
    let my = larger(50, (a.3 - a.1) / 2);
    (
        larger(a.0 - mx, 0),
        larger(a.1 - my, 0),
        smaller(a.2 + mx, width),
        smaller(a.3 + my, height),
    )
}

proof fn lemma_marked_extent(mask: &Mask, width: int, height: int, n: int)
    requires
        mask.wf(),
        mask.width == width,
        mask.height == height,
        0 <= n <= mask.data@.len(),
    ensures
        ({
            let e = marked_extent(mask, width, height, n);
            &&& 0 <= e.0 <= width
            &&& 0 <= e.1 <= height
            &&& 0 <= e.2 <= width
            &&& 0 <= e.3 <= height
            &&& e.2 >= e.0 && width > 0 ==> e.2 < width
            &&& e.3 >= e.1 && height > 0 ==> e.3 < height
        }),
    decreases n,
{
    if n > 0 {
        lemma_marked_extent(mask, width, height, n - 1);
        lemma_position(width, height, n - 1);
    }
}

/// The part of a picture that a sheet shows: left, top, right and bottom.
pub fn review_box(mask: &Option<Mask>, width: u32, height: u32) -> (r: (u32, u32, u32, u32))
    requires
        8 <= width <= 0x2000_0000,
        8 <= height <= 0x2000_0000,
        mask matches Some(m) ==> m.wf() && m.width == width && m.height == height,
    ensures
        (r.0 as int, r.1 as int, r.2 as int, r.3 as int) == shown_box(
            *mask,
            width as int,
            height as int,
        ),
        r.0 < r.2 <= width,
        r.1 < r.3 <= height,
{
    let w: i64 = width as i64;
    let h: i64 = height as i64;
    let mut area: (i64, i64, i64, i64) = (
        if w - 330 < 0 {
            0
        } else {
            w - 330
        },
        if h - 118 < 0 {
            0
        } else {
            h - 118
        },
        w - 8,
        h - 8,
    );
    if let Some(m) = mask {
        let n: usize = m.data.len();
        let mw: usize = m.width as usize;
        let mut e: (i64, i64, i64, i64) = (w, h, 0, 0);
        let mut i: usize = 0;
        while i < n
            invariant
                m.wf(),
                n == m.data@.len(),
                mw == m.width,
                m.width == width,
                m.height == height,
                w == width,
                h == height,
                i <= n,
                (e.0 as int, e.1 as int, e.2 as int, e.3 as int) == marked_extent(
                    m,
                    width as int,
                    height as int,
                    i as int,
                ),
            decreases n - i,
        {
            proof {
                lemma_position(m.width as int, m.height as int, i as int);
            }
            if m.data[i] > 0 {
                let x: i64 = (i % mw) as i64;
                let y: i64 = (i / mw) as i64;
                e = (
                    if x < e.0 {
                        x
                    } else {
                        e.0
                    },
                    if y < e.1 {
                        y
                    } else {
                        e.1
                    },
                    if e.2 < x {
                        x
                    } else {
                        e.2
                    },
                    if e.3 < y {
                        y
                    } else {
                        e.3
                    },
                );
            }
            i = i + 1;
        }
        proof {
            lemma_marked_extent(m, width as int, height as int, n as int);
        }
        if e.2 >= e.0 && e.3 >= e.1 {
            area = (e.0, e.1, e.2 + 1, e.3 + 1);
        }
    }
    let half_x: i64 = (area.2 - area.0) / 2;
    let half_y: i64 = (area.3 - area.1) / 2;
    let mx: i64 = if 80 < half_x {
        half_x
    } else {
        80
    };
    let my: i64 = if 50 < half_y {
        half_y
    } else {
        50
    };
    let x1: i64 = if area.0 - mx < 0 {
        0
    } else {
        area.0 - mx
    };
    let y1: i64 = if area.1 - my < 0 {
        0
    } else {
        area.1 - my
    };
    let x2: i64 = if w < area.2 + mx {
        w
    } else {
        area.2 + mx
    };
    let y2: i64 = if h < area.3 + my {
        h
    } else {
        area.3 + my
    };
    (x1 as u32, y1 as u32, x2 as u32, y2 as u32)
}

/// Half a length, at least one.
pub open spec fn halved(len: int) -> int {
    larger(len / 2, 1)
}

fn half_of(len: u32) -> (r: u32)
    ensures
        r == halved(len as int),
        1 <= r,
        r <= len || r == 1,
{
    if len / 2 < 1 {
        1
    } else {
        len / 2
    }
}

/// What is resampled for a sheet: the part of a picture that is shown, and half
/// its size.
pub struct ReviewPart {
    pub width: u32,
    pub height: u32,
    pub data: Vec<u8>,
    pub nw: u32,
    pub nh: u32,
}

/// The part is the one that a sheet shows of a picture.
pub open spec fn is_part(part: &ReviewPart, picture: &Picture, mask: Option<Mask>) -> bool {
    let b = shown_box(mask, picture.width as int, picture.height as int);
    &&& part.width == b.2 - b.0
    &&& part.height == b.3 - b.1
    &&& part.data@ == cut_rgb(picture, b.0, b.1, b.2 - b.0, b.3 - b.1)
    &&& part.nw == halved(b.2 - b.0)
    &&& part.nh == halved(b.3 - b.1)
}

/// Cuts out what a sheet shows of a picture.
pub fn review_part(picture: &Picture, mask: &Option<Mask>) -> (r: ReviewPart)
    requires
        picture.wf(),
        8 <= picture.width,
        8 <= picture.height,
        mask matches Some(m) ==> m.wf() && m.width == picture.width && m.height == picture.height,
    ensures
        is_part(&r, picture, *mask),
        0 < r.width <= picture.width,
        0 < r.height <= picture.height,
        r.data@.len() == 3 * (r.width * r.height),
        r.nw <= r.width,
        r.nh <= r.height,
{
    proof {
        lemma_measurable_sides(picture.width as int, picture.height as int);
    }
    let (x1, y1, x2, y2) = review_box(mask, picture.width, picture.height);
    let (cw, ch): (u32, u32) = (x2 - x1, y2 - y1);
    let data = crop_rgb(picture, x1 as usize, y1 as usize, cw as usize, ch as usize);
    ReviewPart { width: cw, height: ch, data, nw: half_of(cw), nh: half_of(ch) }
}

/// What a sheet shows of a picture, at half its size. The values that the
/// resampling gives are not told, but black stays black. A part with a side that
/// the resampler cannot halve is refused.
pub fn review_crop(picture: &Picture, mask: &Option<Mask>) -> (r: Result<Picture, String>)
    requires
        picture.wf(),
        8 <= picture.width,
        8 <= picture.height,
        mask matches Some(m) ==> m.wf() && m.width == picture.width && m.height == picture.height,
    ensures
        ({
            let b = shown_box(*mask, picture.width as int, picture.height as int);
            let (cw, ch) = (b.2 - b.0, b.3 - b.1);
            if !side_fits(cw as u32, halved(cw) as u32) || !side_fits(ch as u32, halved(ch) as u32) {
                fails_with(r, too_large())
            } else {
                r matches Ok(p) && {
                    &&& p.wf()
                    &&& p.width == halved(cw)
                    &&& p.height == halved(ch)
                    &&& may_smooth_rgb(
                        cw as u32,
                        ch as u32,
                        cut_rgb(picture, b.0, b.1, cw, ch),
                        p.width,
                        p.height,
                        p.data@,
                    )
                    &&& all_zero(cut_rgb(picture, b.0, b.1, cw, ch)) ==> all_zero(p.data@)
                }
            }
        }),
{
    let part = review_part(picture, mask);
    if !fits_side(part.width, part.nw) || !fits_side(part.height, part.nh) {
        return Err(String::from_str("picture too large"));
    }
    proof {
        lemma_measurable_part(
            picture.width as int,
            picture.height as int,
            part.nw as int,
            part.nh as int,
        );
        lemma_measurable_part(
            picture.width as int,
            picture.height as int,
            part.width as int,
            part.nh as int,
        );
    }
    let small = smooth_rgb(part.width, part.height, part.data.as_slice(), part.nw, part.nh);
    Ok(Picture { width: part.nw, height: part.nh, data: small })
}

/// A colour: red, green and blue.
pub type Colour = (u8, u8, u8);

/// The colour of the text on a sheet.
pub open spec fn ink() -> Colour {
    (240, 240, 240)
}

/// The bytes of a colour picture with a line of text on it, or `None` where the
/// font cannot be read.
pub uninterp spec fn lettered(
    w: u32,
    h: u32,
    data: Seq<u8>,
    colour: Colour,
    x: i32,
    y: i32,
    px: u16,
    font: Seq<u8>,
    text: Seq<char>,
) -> Option<Seq<u8>>;

/// What optional bytes hold.
pub open spec fn bytes_of(v: Option<Vec<u8>>) -> Option<Seq<u8>> {
    match v {
        Some(b) => Some(b@),
        None => None,
    }
}

/// The height of a font in its own units, as the bits of a single-precision
/// number, or `None` where the font cannot be read.
pub uninterp spec fn font_height(font: Seq<u8>) -> Option<u32>;

/// `ab_glyph::Font::height_unscaled` of a font read by
/// `ab_glyph::FontArc::try_from_vec`; a function of the font.
#[verifier::external_body]
fn height_of(font: &[u8]) -> (r: Option<u32>)
    ensures
        r == font_height(font@),
{
    let font = ab_glyph::FontArc::try_from_vec(font.to_vec()).ok()?;
    Some(ab_glyph::Font::height_unscaled(&font).to_bits())
}

/// A font whose height is between 256 and 65536 of its units. No glyph of it is
/// then wider or higher than 384 times the height of the text, nor further from
/// the glyph before it.
pub open spec fn font_usable(font: Seq<u8>) -> bool {
    font_height(font) matches Some(bits) && 0x4380_0000 <= bits <= 0x4780_0000
}

/// `imageproc::drawing::draw_text_mut` with a font read by
/// `ab_glyph::FontArc::try_from_vec`: a picture of the same size with the text
/// in the given colour, at the given place and height; a function of the
/// picture, the colour, the place, the font and the text. It adds places up in
/// 32 bits, and panics or wraps beyond them: a usable font stays within 384
/// times the height for each character.
#[verifier::external_body]
fn letter(
    w: u32,
    h: u32,
    data: &[u8],
    colour: Colour,
    x: i32,
    y: i32,
    px: u16,
    font: &[u8],
    text: &str,
) -> (r: Option<Vec<u8>>)
    requires
        data@.len() == 3 * (w * h),
        0 <= x <= 0x400_0000,
        0 <= y <= 0x400_0000,
        px <= 64,
        text@.len() <= 0x1_0000,
        font_usable(font@),
        w <= 0x400_0000,
        h <= 0x400_0000,
    ensures
        bytes_of(r) == lettered(w, h, data@, colour, x, y, px, font@, text@),
        r matches Some(v) ==> v@.len() == data@.len(),
{
    let font = ab_glyph::FontArc::try_from_vec(font.to_vec()).ok()?;
    let mut img = image::RgbImage::from_raw(w, h, data.to_vec()).unwrap();
    let scale = ab_glyph::PxScale { x: px.into(), y: px.into() };
    let ink = image::Rgb([colour.0, colour.1, colour.2]);
    imageproc::drawing::draw_text_mut(&mut img, ink, x, y, scale, &font, text);
    Some(img.into_raw())
}

/// Position `i` of a sheet of width `w` lies on a picture placed at `(x, y)`.
pub open spec fn on_top(x: int, y: int, tw: int, th: int, w: int, i: int) -> bool {
    x <= i % w < x + tw && y <= i / w < y + th
}

/// The bytes of a sheet with a picture placed on it.
pub open spec fn overlaid(
    sheet: Seq<u8>,
    top: Seq<u8>,
    x: int,
    y: int,
    tw: int,
    th: int,
    w: int,
) -> Seq<u8> {
    Seq::new(
        sheet.len(),
        |k: int|
            if on_top(x, y, tw, th, w, k / 3) {
                top[3 * (((k / 3) / w - y) * tw + ((k / 3) % w - x)) + k % 3]
            } else {
                sheet[k]
            },
    )
}

/// Places a picture on a sheet.
pub fn overlay(sheet: &mut Picture, top: &Picture, x: usize, y: usize)
    requires
        old(sheet).wf(),
        top.wf(),
        x + top.width <= old(sheet).width,
        y + top.height <= old(sheet).height,
    ensures
        final(sheet).wf(),
        final(sheet).width == old(sheet).width,
        final(sheet).height == old(sheet).height,
        final(sheet).data@ == overlaid(
            old(sheet).data@,
            top.data@,
            x as int,
            y as int,
            top.width as int,
            top.height as int,
            old(sheet).width as int,
        ),
{
    let total: usize = sheet.data.len();
    let count: usize = top.data.len();
    let n: usize = total / 3;
    let w: usize = sheet.width as usize;
    let h: usize = sheet.height as usize;
    let tw: usize = top.width as usize;
    let th: usize = top.height as usize;
    let ghost given = sheet.data@;
    let ghost goal = overlaid(
        given,
        top.data@,
        x as int,
        y as int,
        tw as int,
        th as int,
        w as int,
    );
    let mut i: usize = 0;
    while i < n
        invariant
            top.wf(),
            w == sheet.width,
            h == sheet.height,
            sheet.width == old(sheet).width,
            sheet.height == old(sheet).height,
            n == w * h,
            total == 3 * n,
            sheet.data@.len() == total,
            given == old(sheet).data@,
            given.len() == total,
            tw == top.width,
            th == top.height,
            x + tw <= w,
            y + th <= h,
            count == 3 * (tw * th),
            top.data@.len() == count,
            goal == overlaid(
                given,
                top.data@,
                x as int,
                y as int,
                tw as int,
                th as int,
                w as int,
            ),
            i <= n,
            forall|k: int| 0 <= k < 3 * i ==> #[trigger] sheet.data@[k] == goal[k],
            forall|k: int| 3 * i <= k < total ==> #[trigger] sheet.data@[k] == given[k],
        decreases n - i,
    {
        proof {
            lemma_position(w as int, h as int, i as int);
            assert((3 * i) / 3 == i && (3 * i + 1) / 3 == i && (3 * i + 2) / 3 == i);
            assert((3 * i) % 3 == 0 && (3 * i + 1) % 3 == 1 && (3 * i + 2) % 3 == 2);
        }
        let px: usize = i % w;
        let py: usize = i / w;
        let ghost before = sheet.data@;
        if px >= x && px < x + tw && py >= y && py < y + th {
            proof {
                lemma_cell(tw as int, th as int, px - x, py - y);
            }
            let at: usize = (py - y) * tw + (px - x);
            sheet.data.set(3 * i, top.data[3 * at]);
            sheet.data.set(3 * i + 1, top.data[3 * at + 1]);
            sheet.data.set(3 * i + 2, top.data[3 * at + 2]);
        }
        proof {
            assert(goal[3 * i] == sheet.data@[3 * i] && goal[3 * i + 1] == sheet.data@[3 * i + 1]
                && goal[3 * i + 2] == sheet.data@[3 * i + 2]);
            assert forall|k: int| 0 <= k < 3 * (i + 1) implies #[trigger] sheet.data@[k]
                == goal[k] by {
                if k < 3 * i {
                    assert(sheet.data@[k] == before[k]);
                }
            }
            assert forall|k: int| 3 * (i + 1) <= k < total implies #[trigger] sheet.data@[k]
                == given[k] by {
                assert(sheet.data@[k] == before[k]);
            }
        }
        i = i + 1;
    }
    proof {
        assert(sheet.data@ =~= goal);
    }
}

/// The width of the widest of the first `n` pictures, 0 for none.
pub open spec fn widest(crops: Seq<Picture>, n: int) -> int
    decreases n,
{
    if n <= 0 {
        0
    } else {
        larger(widest(crops, n - 1), crops[n - 1].width as int)
    }
}

/// The height of the first `n` rows: a label, the picture and a gap each.
pub open spec fn rows_height(crops: Seq<Picture>, n: int) -> int
    decreases n,
{
    if n <= 0 {
        0
    } else {
        rows_height(crops, n - 1) + 28 + crops[n - 1].height + 16
    }
}

/// The width of the sheet: the widest picture and a gap on both sides.
pub open spec fn sheet_width(crops: Seq<Picture>) -> int {
    if crops.len() == 0 {
        33
    } else {
        widest(crops, crops.len() as int) + 32
    }
}

/// The height of the sheet: the heading and all rows.
pub open spec fn sheet_height(crops: Seq<Picture>) -> int {
    50 + rows_height(crops, crops.len() as int)
}

/// The bytes of the sheet with the heading and the first `n` rows.
pub open spec fn sheet_after(
    font: Seq<u8>,
    names: Seq<Seq<char>>,
    crops: Seq<Picture>,
    n: int,
) -> Option<Seq<u8>>
    decreases n,
{
    let (w, h) = (sheet_width(crops), sheet_height(crops));
    if n <= 0 {
        let blank = Seq::new((3 * (w * h)) as nat, |k: int| 30u8);
        lettered(w as u32, h as u32, blank, ink(), 16, 16, 20, font, "corner review"@)
    } else {
        let y = 50 + rows_height(crops, n - 1);
        let c = crops[n - 1];
        match sheet_after(font, names, crops, n - 1) {
            Some(before) => match lettered(
                w as u32,
                h as u32,
                before,
                ink(),
                16,
                y as i32,
                16,
                font,
                names[n - 1],
            ) {
                Some(labelled) => Some(
                    overlaid(labelled, c.data@, 16, y + 28, c.width as int, c.height as int, w),
                ),
                None => None,
            },
            None => None,
        }
    }
}

proof fn lemma_rows_height(crops: Seq<Picture>, m: int, n: int)
    requires
        0 <= m <= n <= crops.len(),
    ensures
        0 <= rows_height(crops, m) <= rows_height(crops, n),
        m < n ==> rows_height(crops, m) + 44 + crops[m].height <= rows_height(crops, n),
    decreases n,
{
    if m < n {
        lemma_rows_height(crops, m, n - 1);
    } else if n > 0 {
        lemma_rows_height(crops, m - 1, n - 1);
    }
}

proof fn lemma_widest(crops: Seq<Picture>, m: int, n: int)
    requires
        0 <= m < n <= crops.len(),
    ensures
        crops[m].width <= widest(crops, n),
    decreases n,
{
    if m < n - 1 {
        lemma_widest(crops, m, n - 1);
    }
}

/// The size of the sheet for some pictures.
fn sheet_size(crops: &[Picture]) -> (r: (u64, u64))
    requires
        crops@.len() <= 0xffff_ffff,
        sheet_height(crops@) <= 0x400_0000,
    ensures
        r.0 == sheet_width(crops@),
        r.1 == sheet_height(crops@),
{
    let n: usize = crops.len();
    let mut width: u64 = 0;
    let mut height: u64 = 0;
    let mut i: usize = 0;
    while i < n
        invariant
            n == crops@.len(),
            sheet_height(crops@) <= 0x400_0000,
            i <= n,
            width == widest(crops@, i as int),
            width <= 0xffff_ffff,
            height == rows_height(crops@, i as int),
        decreases n - i,
    {
        proof {
            lemma_rows_height(crops@, i as int, n as int);
        }
        if width < crops[i].width as u64 {
            width = crops[i].width as u64;
        }
        height = height + 28 + crops[i].height as u64 + 16;
        i = i + 1;
    }
    proof {
        lemma_rows_height(crops@, n as int, n as int);
    }
    if n == 0 {
        return (33, 50);
    }
    (width + 32, height + 50)
}

/// Lays the pictures out on a sheet, each under its name. An error where the
/// font cannot be read.
pub fn review(names: &[String], crops: &[Picture], font: &[u8]) -> (r: Result<Picture, String>)
    requires
        names@.len() == crops@.len(),
        crops@.len() <= 0xffff_ffff,
        forall|k: int| 0 <= k < crops@.len() ==> (#[trigger] crops@[k]).wf(),
        sheet_width(crops@) <= 0x400_0000,
        sheet_height(crops@) <= 0x400_0000,
        measurable(sheet_width(crops@), sheet_height(crops@)),
        3 * (sheet_width(crops@) * sheet_height(crops@)) <= usize::MAX,
        forall|k: int| 0 <= k < names@.len() ==> (#[trigger] names@[k])@.len() <= 0x1_0000,
    ensures
        !font_usable(font@) ==> fails_with(r, "unreadable font"@),
        font_usable(font@) ==> match sheet_after(font@, texts(names@), crops@, crops@.len() as int) {
            Some(data) => r matches Ok(sheet) && sheet.wf() && sheet.width == sheet_width(crops@)
                && sheet.height == sheet_height(crops@) && sheet.data@ == data,
            None => fails_with(r, "unreadable font"@),
        },
{
    let usable: bool = match height_of(font) {
        Some(bits) => 0x4380_0000 <= bits && bits <= 0x4780_0000,
        None => false,
    };
    if !usable {
        return Err(String::from_str("unreadable font"));
    }
    let n: usize = crops.len();
    let (w, h) = sheet_size(crops);
    proof {
        assert(0 <= w * h) by (nonlinear_arith);
    }
    let bytes: usize = 3 * (w as usize * h as usize);
    let blank: Vec<u8> = vec![30; bytes];
    proof {
        assert(blank@ =~= Seq::new((3 * (w * h)) as nat, |k: int| 30u8));
    }
    let colour: Colour = (240, 240, 240);
    proof {
        reveal_strlit("corner review");
    }
    let heading = letter(
        w as u32,
        h as u32,
        blank.as_slice(),
        colour,
        16,
        16,
        20,
        font,
        "corner review",
    );
    let ghost all = texts(names@);
    let data = match heading {
        Some(v) => v,
        None => {
            proof {
                lemma_no_sheet(font@, all, crops@, n as int);
            }
            return Err(String::from_str("unreadable font"));
        },
    };
    let mut sheet = Picture { width: w as u32, height: h as u32, data };
    let mut y: u64 = 50;
    let mut i: usize = 0;
    while i < n
        invariant
            n == crops@.len(),
            n == names@.len(),
            all == texts(names@),
            colour == ink(),
            font_usable(font@),
            forall|k: int| 0 <= k < names@.len() ==> (#[trigger] names@[k])@.len() <= 0x1_0000,
            forall|k: int| 0 <= k < crops@.len() ==> (#[trigger] crops@[k]).wf(),
            w == sheet_width(crops@),
            h == sheet_height(crops@),
            w <= 0x400_0000,
            h <= 0x400_0000,
            sheet.wf(),
            sheet.width == w,
            sheet.height == h,
            i <= n,
            y == 50 + rows_height(crops@, i as int),
            sheet_after(font@, all, crops@, i as int) == Some(sheet.data@),
        decreases n - i,
    {
        proof {
            lemma_rows_height(crops@, i as int, n as int);
            lemma_widest(crops@, i as int, n as int);
        }
        let label = letter(
            sheet.width,
            sheet.height,
            sheet.data.as_slice(),
            colour,
            16,
            y as i32,
            16,
            font,
            names[i].as_str(),
        );
        let data = match label {
            Some(v) => v,
            None => {
                proof {
                    assert(sheet_after(font@, all, crops@, i + 1) is None);
                    lemma_sheet_stays_none(font@, all, crops@, i + 1, n as int);
                }
                return Err(String::from_str("unreadable font"));
            },
        };
        sheet.data = data;
        overlay(&mut sheet, &crops[i], 16, (y + 28) as usize);
        y = y + 28 + crops[i].height as u64 + 16;
        i = i + 1;
    }
    Ok(sheet)
}

proof fn lemma_sheet_stays_none(
    font: Seq<u8>,
    names: Seq<Seq<char>>,
    crops: Seq<Picture>,
    m: int,
    n: int,
)
    requires
        0 <= m <= n,
        sheet_after(font, names, crops, m) is None,
    ensures
        sheet_after(font, names, crops, n) is None,
    decreases n - m,
{
    if m < n {
        lemma_sheet_stays_none(font, names, crops, m, n - 1);
    }
}

proof fn lemma_no_sheet(font: Seq<u8>, names: Seq<Seq<char>>, crops: Seq<Picture>, n: int)
    requires
        0 <= n,
        sheet_after(font, names, crops, 0) is None,
    ensures
        sheet_after(font, names, crops, n) is None,
{
    lemma_sheet_stays_none(font, names, crops, 0, n);
}

} // verus!
