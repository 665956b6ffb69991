//! Pictures and masks as plain bytes, row by row.

use crate::grid::{lemma_cell, lemma_position};
use vstd::prelude::*;

verus! {

/// Sizes that a picture can have: at most 2^29 pixels, as many as the decoders
/// hand out.
pub open spec fn measurable(w: int, h: int) -> bool {
    0 <= w <= 0xffff_ffff && 0 <= h <= 0xffff_ffff && w * h <= 0x2000_0000
}

/// A colour picture: three bytes (red, green, blue) per pixel.
pub struct Picture {
    pub width: u32,
    pub height: u32,
    pub data: Vec<u8>,
}

/// A grey picture: one byte per pixel. As a mask, a pixel above zero is
/// marked.
pub struct Mask {
    pub width: u32,
    pub height: u32,
    pub data: Vec<u8>,
}

impl Picture {
    pub open spec fn wf(&self) -> bool {
        &&& self.data@.len() == 3 * (self.width * self.height)
        &&& measurable(self.width as int, self.height as int)
    }

    /// How many pixels there are.
    pub open spec fn area(&self) -> int {
        self.width * self.height
    }

    /// Channel `c` of the pixel at position `i`.
    pub open spec fn channel(&self, i: int, c: int) -> u8 {
        self.data@[3 * i + c]
    }

    /// The brightest channel of the pixel at position `i`.
    pub open spec fn brightest(&self, i: int) -> u8 {
        let a = self.channel(i, 0);
        let b = self.channel(i, 1);
        let c = self.channel(i, 2);
        let m = if a < b {
            b
        } else {
            a
        };
        if m < c {
            c
        } else {
            m
        }
    }

    /// The darkest channel of the pixel at position `i`.
    pub open spec fn darkest(&self, i: int) -> u8 {
        let a = self.channel(i, 0);
        let b = self.channel(i, 1);
        let c = self.channel(i, 2);
        let m = if b < a {
            b
        } else {
            a
        };
        if c < m {
            c
        } else {
            m
        }
    }

    /// Takes the bytes of a picture; `None` where their number does not match
    /// the size or the size is beyond what can be measured.
    pub fn new(width: u32, height: u32, data: Vec<u8>) -> (r: Option<Picture>)
        ensures
            r is Some <==> data@.len() == 3 * (width * height) && measurable(
                width as int,
                height as int,
            ),
            r matches Some(p) ==> p.width == width && p.height == height && p.data@ == data@
                && p.wf(),
    {
        if fits(width, height) && data.len() as u128 == 3 * pixels(width, height) as u128 {
            Some(Picture { width, height, data })
        } else {
            None
        }
    }

    pub fn get(&self, i: usize, c: usize) -> (r: u8)
        requires
            self.wf(),
            i < self.area(),
            c < 3,
        ensures
            r == self.channel(i as int, c as int),
    {
        let n: usize = self.data.len();
        self.data[3 * i + c]
    }

    pub fn brightest_of(&self, i: usize) -> (r: u8)
        requires
            self.wf(),
            i < self.area(),
        ensures
            r == self.brightest(i as int),
    {
        let a: u8 = self.get(i, 0);
        let b: u8 = self.get(i, 1);
        let c: u8 = self.get(i, 2);
        let m: u8 = if a < b {
            b
        } else {
            a
        };
        if m < c {
            c
        } else {
            m
        }
    }

    pub fn darkest_of(&self, i: usize) -> (r: u8)
        requires
            self.wf(),
            i < self.area(),
        ensures
            r == self.darkest(i as int),
    {
        let a: u8 = self.get(i, 0);
        let b: u8 = self.get(i, 1);
        let c: u8 = self.get(i, 2);
        let m: u8 = if b < a {
            b
        } else {
            a
        };
        if c < m {
            c
        } else {
            m
        }
    }
}

impl Mask {
    pub open spec fn wf(&self) -> bool {
        &&& self.data@.len() == self.width * self.height
        &&& measurable(self.width as int, self.height as int)
    }

    /// The marked positions.
    pub open spec fn marks(&self) -> Seq<bool> {
        Seq::new(self.data@.len(), |i: int| self.data@[i] > 0)
    }

    /// Takes the bytes of a mask; `None` where their number does not match
    /// the size or the size is beyond what can be measured.
    pub fn new(width: u32, height: u32, data: Vec<u8>) -> (r: Option<Mask>)
        ensures
            r is Some <==> data@.len() == width * height && measurable(
                width as int,
                height as int,
            ),
            r matches Some(p) ==> p.width == width && p.height == height && p.data@ == data@
                && p.wf(),
    {
        if fits(width, height) && data.len() as u128 == pixels(width, height) as u128 {
            Some(Mask { width, height, data })
        } else {
            None
        }
    }

    /// The marked positions as a grid.
    pub fn grid(&self) -> (r: Vec<bool>)
        ensures
            r@ == self.marks(),
    {
        let n: usize = self.data.len();
        let mut out: Vec<bool> = Vec::new();
        let mut i: usize = 0;
        while i < n
            invariant
                n == self.data@.len(),
                i <= n,
                out@ == self.marks().take(i as int),
            decreases n - i,
        {
            out.push(self.data[i] > 0);
            i = i + 1;
            proof {
                assert(out@ =~= self.marks().take(i as int));
            }
        }
        proof {
            assert(out@ =~= self.marks());
        }
        out
    }
}

/// The number of pixels of a size.
fn pixels(width: u32, height: u32) -> (r: u64)
    ensures
        r == width * height,
{
    proof {
        assert(0 <= width * height <= 0xffff_ffff * 0xffff_ffff) by (nonlinear_arith)
            requires
                0 <= width <= 0xffff_ffff,
                0 <= height <= 0xffff_ffff,
        ;
    }
    width as u64 * height as u64
}

/// Tells whether a size can be measured.
pub fn fits(width: u32, height: u32) -> (r: bool)
    ensures
        r == measurable(width as int, height as int),
{
    pixels(width, height) <= 0x2000_0000
}

/// The size of a part of a measurable picture is measurable.
pub proof fn lemma_measurable_part(w: int, h: int, a: int, b: int)
    requires
        measurable(w, h),
        0 <= a <= w,
        0 <= b <= h,
    ensures
        measurable(a, b),
        a * b <= w * h,
{
    assert(0 <= a * b && a * b <= w * h) by (nonlinear_arith)
        requires
            0 <= a <= w,
            0 <= b <= h,
    ;
}

/// A measurable picture has at most 2^29 pixels.
pub proof fn lemma_measurable_area(w: int, h: int)
    requires
        measurable(w, h),
    ensures
        0 <= w * h <= 0x2000_0000,
        0 <= h * (w * h) <= 0x2000_0000 * 0xffff_ffff,
{
    assert(0 <= w * h) by (nonlinear_arith)
        requires
            0 <= w,
            0 <= h,
    ;
    let a = w * h;
    assert(0 <= h * a && h * a <= 0x2000_0000 * 0xffff_ffff) by (nonlinear_arith)
        requires
            0 <= a <= 0x2000_0000,
            0 <= h <= 0xffff_ffff,
    ;
}

/// A measurable picture with a pixel has sides of at most 2^29.
pub proof fn lemma_measurable_sides(w: int, h: int)
    requires
        measurable(w, h),
        w > 0,
        h > 0,
    ensures
        w <= 0x2000_0000,
        h <= 0x2000_0000,
{
    assert(w <= w * h && h <= w * h) by (nonlinear_arith)
        requires
            w > 0,
            h > 0,
    ;
}

/// A part of a picture: `rw` columns from `x0` on, `rh` rows from `y0` on.
#[derive(Clone, Copy)]
pub struct Region {
    pub x0: usize,
    pub y0: usize,
    pub rw: usize,
    pub rh: usize,
}

impl Region {
    /// The part lies in the picture.
    pub open spec fn inside(&self, picture: &Picture) -> bool {
        self.x0 + self.rw <= picture.width && self.y0 + self.rh <= picture.height
    }

    /// The position in the picture of position `i` of the part.
    pub open spec fn position(&self, picture: &Picture, i: int) -> int {
        (self.y0 + i / self.rw as int) * picture.width + (self.x0 + i % self.rw as int)
    }
}

/// The brightest channels of a part of a picture.
pub open spec fn region_tones(picture: &Picture, region: &Region) -> Seq<u8> {
    Seq::new(
        (region.rw * region.rh) as nat,
        |i: int| picture.brightest(region.position(picture, i)),
    )
}

/// The colourfulness of a part of a picture: brightest minus darkest channel.
pub open spec fn region_colour(picture: &Picture, region: &Region) -> Seq<u8> {
    Seq::new(
        (region.rw * region.rh) as nat,
        |i: int|
            (picture.brightest(region.position(picture, i)) - picture.darkest(
                region.position(picture, i),
            )) as u8,
    )
}

pub proof fn lemma_region_position(picture: &Picture, region: &Region, i: int)
    requires
        picture.wf(),
        region.inside(picture),
        0 <= i < region.rw * region.rh,
    ensures
        0 <= region.position(picture, i) < picture.area(),
        0 < region.rw,
        0 <= i % region.rw as int,
        0 <= i / region.rw as int,
        (i % region.rw as int) < region.rw,
        (i / region.rw as int) < region.rh,
{
    lemma_position(region.rw as int, region.rh as int, i);
    lemma_cell(
        picture.width as int,
        picture.height as int,
        region.x0 + i % region.rw as int,
        region.y0 + i / region.rw as int,
    );
}

/// The tones and the colourfulness of a part of a picture.
pub fn region_pixels(picture: &Picture, region: &Region) -> (r: (Vec<u8>, Vec<u8>))
    requires
        picture.wf(),
        region.inside(picture),
    ensures
        r.0@ == region_tones(picture, region),
        r.1@ == region_colour(picture, region),
{
    proof {
        lemma_measurable_part(
            picture.width as int,
            picture.height as int,
            region.rw as int,
            region.rh as int,
        );
        assert(region.rw * region.rh >= 0) by (nonlinear_arith);
    }
    let total: usize = picture.data.len();
    let n: usize = region.rw * region.rh;
    let w: usize = picture.width as usize;
    let mut tones: Vec<u8> = Vec::new();
    let mut colour: Vec<u8> = Vec::new();
    let mut i: usize = 0;
    while i < n
        invariant
            picture.wf(),
            region.inside(picture),
            w == picture.width,
            n == region.rw * region.rh,
            total == picture.data@.len(),
            i <= n,
            tones@ == region_tones(picture, region).take(i as int),
            colour@ == region_colour(picture, region).take(i as int),
        decreases n - i,
    {
        proof {
            lemma_region_position(picture, region, i as int);
            lemma_cell(
                picture.width as int,
                picture.height as int,
                region.x0 + i as int % region.rw as int,
                region.y0 + i as int / region.rw as int,
            );
        }
        let at: usize = (region.y0 + i / region.rw) * w + (region.x0 + i % region.rw);
        let high: u8 = picture.brightest_of(at);
        let low: u8 = picture.darkest_of(at);
        tones.push(high);
        colour.push(high - low);
        i = i + 1;
        proof {
            assert(tones@ =~= region_tones(picture, region).take(i as int));
            assert(colour@ =~= region_colour(picture, region).take(i as int));
        }
    }
    proof {
        assert(tones@ =~= region_tones(picture, region));
        assert(colour@ =~= region_colour(picture, region));
    }
    (tones, colour)
}

/// Position `i` of a picture lies on a set cell of a grid of `tw` x `th`
/// placed at `(px, py)`.
pub open spec fn stamped(
    cells: Seq<bool>,
    tw: int,
    th: int,
    px: int,
    py: int,
    w: int,
    i: int,
) -> bool {
    let (x, y) = (i % w - px, i / w - py);
    0 <= x < tw && 0 <= y < th && cells[y * tw + x]
}

/// A mask of a picture, 255 where a placed grid is set and 0 elsewhere.
pub open spec fn stamp_mask(
    cells: Seq<bool>,
    tw: int,
    th: int,
    px: int,
    py: int,
    w: int,
    h: int,
) -> Seq<u8> {
    Seq::new(
        (w * h) as nat,
        |i: int|
            if stamped(cells, tw, th, px, py, w, i) {
                255u8
            } else {
                0u8
            },
    )
}

/// A mask from a placed grid.
pub fn stamp(
    cells: &[bool],
    tw: usize,
    th: usize,
    px: usize,
    py: usize,
    width: u32,
    height: u32,
) -> (r: Mask)
    requires
        measurable(width as int, height as int),
        width * height <= usize::MAX,
        cells@.len() == tw * th,
        px + tw <= width,
        py + th <= height,
    ensures
        r.wf(),
        r.width == width,
        r.height == height,
        r.data@ == stamp_mask(
            cells@,
            tw as int,
            th as int,
            px as int,
            py as int,
            width as int,
            height as int,
        ),
{
    let count: usize = cells.len();
    let w: usize = width as usize;
    let h: usize = height as usize;
    let n: usize = w * h;
    let mut data: Vec<u8> = Vec::new();
    let mut i: usize = 0;
    let ghost goal = stamp_mask(
        cells@,
        tw as int,
        th as int,
        px as int,
        py as int,
        width as int,
        height as int,
    );
    while i < n
        invariant
            w == width,
            h == height,
            n == w * h,
            count == tw * th,
            cells@.len() == count,
            px + tw <= w,
            py + th <= h,
            i <= n,
            goal == stamp_mask(
                cells@,
                tw as int,
                th as int,
                px as int,
                py as int,
                width as int,
                height as int,
            ),
            data@ == goal.take(i as int),
        decreases n - i,
    {
        proof {
            lemma_position(w as int, h as int, i as int);
        }
        let x: usize = i % w;
        let y: usize = i / w;
        let mut v: u8 = 0;
        if x >= px && x < px + tw && y >= py && y < py + th {
            proof {
                lemma_cell(tw as int, th as int, x - px, y - py);
            }
            if cells[(y - py) * tw + (x - px)] {
                v = 255;
            }
        }
        data.push(v);
        i = i + 1;
        proof {
            assert(data@ =~= goal.take(i as int));
        }
    }
    proof {
        assert(data@ =~= goal);
    }
    Mask { width, height, data }
}

/// The brightest channel of a pixel is one of its three channels, and none is
/// above it; the darkest is one of them, and none is below it.
pub proof fn lemma_brightest_and_darkest(picture: &Picture, i: int)
    ensures
        ({
            let (r, g, b) = (
                picture.data@[3 * i],
                picture.data@[3 * i + 1],
                picture.data@[3 * i + 2],
            );
            let (high, low) = (picture.brightest(i), picture.darkest(i));
            &&& high >= r && high >= g && high >= b
            &&& high == r || high == g || high == b
            &&& low <= r && low <= g && low <= b
            &&& low == r || low == g || low == b
        }),
{
}

/// A part of a picture tells of the pixel at each place how bright its brightest
/// channel is, and how far that is above its darkest: nothing for a grey one.
pub proof fn lemma_region_by_place(picture: &Picture, region: &Region, x: int, y: int)
    requires
        region.inside(picture),
        0 <= x < region.rw,
        0 <= y < region.rh,
    ensures
        ({
            let i = y * region.rw + x;
            let at = (region.y0 + y) * picture.width + (region.x0 + x);
            let (r, g, b) = (
                picture.data@[3 * at],
                picture.data@[3 * at + 1],
                picture.data@[3 * at + 2],
            );
            let (tone, colour) = (
                region_tones(picture, region)[i],
                region_colour(picture, region)[i],
            );
            &&& region_tones(picture, region).len() == region.rw * region.rh
            &&& region_colour(picture, region).len() == region.rw * region.rh
            &&& tone >= r && tone >= g && tone >= b
            &&& tone == r || tone == g || tone == b
            &&& colour <= tone
            &&& tone - colour <= r && tone - colour <= g && tone - colour <= b
            &&& tone - colour == r || tone - colour == g || tone - colour == b
            &&& colour == 0 <==> r == g && g == b
        }),
{
    lemma_cell(region.rw as int, region.rh as int, x, y);
    let at = (region.y0 + y) * picture.width + (region.x0 + x);
    lemma_brightest_and_darkest(picture, at);
}

/// A placed grid marks the pixels under its set cells, and no others.
pub proof fn lemma_stamp_by_place(
    cells: Seq<bool>,
    tw: int,
    th: int,
    px: int,
    py: int,
    w: int,
    h: int,
    x: int,
    y: int,
)
    requires
        0 <= x < w,
        0 <= y < h,
    ensures
        ({
            let mark = stamp_mask(cells, tw, th, px, py, w, h)[y * w + x];
            let under = px <= x < px + tw && py <= y < py + th;
            &&& under && cells[(y - py) * tw + (x - px)] ==> mark == 255
            &&& under && !cells[(y - py) * tw + (x - px)] ==> mark == 0
            &&& !under ==> mark == 0
        }),
{
    lemma_cell(w, h, x, y);
}

} // verus!
