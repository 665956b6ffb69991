//! The run over a batch of pictures: where files go, which mask a picture
//! gets, when a result may be written, and what comes next.

use crate::boxes::{invalid_box_message, meant_frame, resolve_box, Frame, MaskBox};
use crate::double::Double;
use crate::inverse::{lemma_unmarked_stays, undone_bytes, PlacedMark};
use crate::lama::{is_repair, lemma_repairs_keep_unmarked};
use crate::number::Number;
use crate::detect::{detect_watermark_boxes, watermark_boxes};
use crate::masks::{
    count_risen, dilate_gray_rect, held, holds, is_unmarked, join_masks, joined, mask_meets, meets, paint_boxes,
    painted, risen, unmarked,
};
use crate::morph::{lemma_highest_above, morphed, rectangle};
use crate::raster::{lemma_measurable_sides, Mask, Picture};
use crate::refine::{computable, refine_box_mask, refined};
use crate::template::{template_beyond, template_hit, template_stroke_mask, Template};
use crate::codec::too_large;
use crate::text::{
    chars_of, decimal, fails_with, is_digit, join, joined as joined_text, lemma_decimal_round_trip,
    lemma_joined_pieces, lemma_texts_push, parse_signed, pieces, push_decimal, signed, split, texts,
    trim, trimmed, views,
};
use crate::verify::{
    change, counts, lemma_untouched_outside_passes, present, ruling, Changes, Verdict,
};
use vstd::prelude::*;

verus! {

/// What a batch is worked on with.
pub struct PipelineOptions {
    pub root: String,
    pub files: Vec<String>,
    pub keep_work: bool,
    pub mask_box: Option<MaskBox>,
    /// Text anywhere in the picture counts, not only in the bottom right
    /// corner.
    pub any_position: bool,
    /// Results replace the originals; else they go to a directory of their
    /// own.
    pub overwrite_original: bool,
    pub use_profile: bool,
    /// Results are written although the check failed.
    pub force: bool,
    pub inverse: bool,
    /// A result with a remaining watermark is tried again.
    pub retry: bool,
    /// A given box is narrowed to the strokes inside it.
    pub refine: bool,
    pub forced_profile: Option<String>,
    /// Where results go when they do not replace the originals.
    pub output_dir_override: Option<String>,
}

/// A path: a base, and names to be joined to it one after the other.
pub struct Location {
    pub base: String,
    pub parts: Vec<String>,
}

/// What a path holds.
pub type LocationView = (Seq<char>, Seq<Seq<char>>);

impl Location {
    pub open spec fn view(&self) -> LocationView {
        (self.base@, texts(self.parts@))
    }

    /// The base alone.
    pub fn at(base: &str) -> (r: Location)
        ensures
            r.view() == (base@, Seq::<Seq<char>>::empty()),
    {
        let parts: Vec<String> = Vec::new();
        proof {
            assert(texts(parts@) =~= Seq::<Seq<char>>::empty());
        }
        Location { base: base.to_owned(), parts }
    }

    /// A path below this one.
    pub fn child(self, name: &str) -> (r: Location)
        ensures
            r.view() == (self.view().0, self.view().1.push(name@)),
    {
        let mut parts = self.parts;
        let part = name.to_owned();
        proof {
            lemma_texts_push(parts@, part);
        }
        parts.push(part);
        Location { base: self.base, parts }
    }
}

/// A name directly below a base.
pub open spec fn below(base: Seq<char>, name: Seq<char>) -> LocationView {
    (base, seq![name])
}

/// Where the originals are kept while results replace them.
pub fn backup_dir(root: &str) -> (r: Location)
    ensures
        r.view() == below(root@, "original-watermark-backup"@),
{
    let r = Location::at(root).child("original-watermark-backup");
    proof {
        assert(r.view().1 =~= seq!["original-watermark-backup"@]);
    }
    r
}

/// Where the results of a run go.
pub open spec fn output_place(options: &PipelineOptions) -> LocationView {
    if options.overwrite_original {
        (options.root@, Seq::<Seq<char>>::empty())
    } else {
        match options.output_dir_override {
            Some(dir) => (dir@, Seq::<Seq<char>>::empty()),
            None => below(options.root@, "watermark-cleaned"@),
        }
    }
}

/// Where results go: the directory of the originals if they are replaced,
/// whatever directory was asked for; else the one asked for, else
/// `watermark-cleaned`.
pub fn output_dir(options: &PipelineOptions) -> (r: Location)
    ensures
        r.view() == output_place(options),
{
    if options.overwrite_original {
        return Location::at(options.root.as_str());
    }
    if let Some(dir) = &options.output_dir_override {
        return Location::at(dir.as_str());
    }
    let r = Location::at(options.root.as_str()).child("watermark-cleaned");
    proof {
        assert(r.view().1 =~= seq!["watermark-cleaned"@]);
    }
    r
}

/// The working directories below a base: copies, masks, candidates, reviews.
pub fn work_dirs(work: &str) -> (r: (Location, Location, Location, Location))
    ensures
        r.0.view() == below(work@, "source"@),
        r.1.view() == below(work@, "masks"@),
        r.2.view() == below(work@, "lama"@),
        r.3.view() == below(work@, "review"@),
{
    let a = Location::at(work).child("source");
    let b = Location::at(work).child("masks");
    let c = Location::at(work).child("lama");
    let d = Location::at(work).child("review");
    proof {
        assert(a.view().1 =~= seq!["source"@]);
        assert(b.view().1 =~= seq!["masks"@]);
        assert(c.view().1 =~= seq!["lama"@]);
        assert(d.view().1 =~= seq!["review"@]);
    }
    (a, b, c, d)
}

/// What an optional text holds.
pub open spec fn optional(s: Option<String>) -> Option<Seq<char>> {
    match s {
        Some(v) => Some(v@),
        None => None,
    }
}

/// Where the model is kept: the directory that the environment names, else the
/// one that the program was given, else `.models` below the project.
pub fn model_dir(named: &Option<String>, given: &Option<String>, project: &str) -> (r: Location)
    ensures
        r.view() == match (optional(*named), optional(*given)) {
            (Some(dir), _) => (dir, Seq::<Seq<char>>::empty()),
            (None, Some(dir)) => (dir, Seq::<Seq<char>>::empty()),
            (None, None) => below(project@, ".models"@),
        },
{
    if let Some(dir) = named {
        return Location::at(dir.as_str());
    }
    if let Some(dir) = given {
        return Location::at(dir.as_str());
    }
    let r = Location::at(project).child(".models");
    proof {
        assert(r.view().1 =~= seq![".models"@]);
    }
    r
}

/// The model file: the one that the environment names, else `lama_fp32.onnx`
/// in the model directory.
pub fn model_path(named: &Option<String>, dir: Location) -> (r: Location)
    ensures
        r.view() == match optional(*named) {
            Some(file) => (file, Seq::<Seq<char>>::empty()),
            None => (dir.view().0, dir.view().1.push("lama_fp32.onnx"@)),
        },
{
    if let Some(file) = named {
        return Location::at(file.as_str());
    }
    dir.child("lama_fp32.onnx")
}

/// The working directory: the one that the environment names, else
/// `doubao-watermark-work` in the directory that the program was given, else in
/// the one for temporary files.
pub fn workdir(named: &Option<String>, given: &Option<String>, temporary: &str) -> (r: Location)
    ensures
        r.view() == match (optional(*named), optional(*given)) {
            (Some(dir), _) => (dir, Seq::<Seq<char>>::empty()),
            (None, Some(dir)) => below(dir, "doubao-watermark-work"@),
            (None, None) => below(temporary@, "doubao-watermark-work"@),
        },
{
    if let Some(dir) = named {
        return Location::at(dir.as_str());
    }
    let base: &str = match given {
        Some(dir) => dir.as_str(),
        None => temporary,
    };
    let r = Location::at(base).child("doubao-watermark-work");
    proof {
        assert(r.view().1 =~= seq!["doubao-watermark-work"@]);
    }
    r
}

/// What is prepared for a picture: its mask, whether the watermark template
/// matched, and the boxes that were narrowed to strokes, if any were.
pub struct Prepared {
    pub mask: Mask,
    pub template: bool,
    pub refined: Option<Vec<Frame>>,
}

/// What a prepared picture holds.
pub type PreparedView = (Seq<u8>, bool, Option<Seq<Frame>>);

impl Prepared {
    pub open spec fn view(&self) -> PreparedView {
        (
            self.mask.data@,
            self.template,
            match self.refined {
                Some(v) => Some(v@),
                None => None,
            },
        )
    }
}

/// The boxes of the first `n` that reach into the bottom right corner.
pub open spec fn cornered(boxes: Seq<Frame>, w: int, h: int, n: int) -> Seq<Frame>
    decreases n,
{
    if n <= 0 {
        seq![]
    } else {
        let before = cornered(boxes, w, h, n - 1);
        let b = boxes[n - 1];
        if b.2 > w - 40 && b.3 > h - 40 {
            before.push(b)
        } else {
            before
        }
    }
}

/// A mark of a mask, given by its bytes, lies in a box.
pub open spec fn data_meets(data: Seq<u8>, w: int, b: Frame) -> bool {
    exists|i: int|
        0 <= i < data.len() && #[trigger] data[i] > 0 && holds(b, i % w, i / w)
}

/// The boxes of the first `n` in which nothing is marked.
pub open spec fn clear_of(boxes: Seq<Frame>, data: Seq<u8>, w: int, n: int) -> Seq<Frame>
    decreases n,
{
    if n <= 0 {
        seq![]
    } else {
        let before = clear_of(boxes, data, w, n - 1);
        if data_meets(data, w, boxes[n - 1]) {
            before
        } else {
            before.push(boxes[n - 1])
        }
    }
}

/// The mask for a box that the user gave, which is narrowed to strokes if
/// asked for and possible.
pub open spec fn boxed(picture: &Picture, b: Frame, refine: bool) -> PreparedView {
    let (w, h) = (picture.width as int, picture.height as int);
    let narrow = refined(picture, b);
    if refine && narrow is Some {
        (narrow->0, false, Some(seq![b]))
    } else {
        (painted(seq![b], w, h), false, None)
    }
}

/// The mask for text anywhere: what the text detector found, else what the scan
/// finds; less what the template covers, which is added itself.
pub open spec fn anywhere(
    picture: &Picture,
    template: &Template,
    ocr: Seq<Frame>,
) -> PreparedView {
    let (w, h) = (picture.width as int, picture.height as int);
    let found = if ocr.len() > 0 {
        ocr
    } else {
        watermark_boxes(picture)
    };
    match template_hit(picture, template) {
        Some(hit) => {
            let rest = clear_of(found, hit.3, w, found.len() as int);
            if rest.len() == 0 {
                (hit.3, true, None)
            } else {
                (joined(painted(rest, w, h), hit.3), true, None)
            }
        },
        None => (painted(found, w, h), false, None),
    }
}

/// The mask for a watermark in the bottom right corner: the template where it
/// matches, else the boxes that the scan finds there.
pub open spec fn in_corner(picture: &Picture, template: &Template) -> PreparedView {
    let (w, h) = (picture.width as int, picture.height as int);
    match template_hit(picture, template) {
        Some(hit) => (hit.3, true, None),
        None => {
            let found = watermark_boxes(picture);
            (painted(cornered(found, w, h, found.len() as int), w, h), false, None)
        },
    }
}

/// What is prepared for a picture, or the message of what is wrong with the
/// given box or the size of the picture.
pub open spec fn preparation(
    options: &PipelineOptions,
    picture: &Picture,
    template: &Template,
    profile: Option<Seq<u8>>,
    ocr: Seq<Frame>,
) -> Result<PreparedView, Seq<char>> {
    match options.mask_box {
        Some(given) => {
            let m = meant_frame(picture.width as int, picture.height as int, given);
            if m.0 < m.2 && m.1 < m.3 {
                let b = (m.0 as i64, m.1 as i64, m.2 as i64, m.3 as i64);
                Ok(boxed(picture, b, options.refine))
            } else {
                Err(invalid_box_message(m))
            }
        },
        None => if options.use_profile && profile is Some {
            Ok((profile->0, false, None))
        } else if template_beyond(picture, template) {
            Err(too_large())
        } else if options.any_position {
            Ok(anywhere(picture, template, ocr))
        } else {
            Ok(in_corner(picture, template))
        },
    }
}

fn keep_cornered(boxes: &[Frame], w: i64, h: i64) -> (r: Vec<Frame>)
    requires
        0 <= w <= 0xffff_ffff,
        0 <= h <= 0xffff_ffff,
    ensures
        r@ == cornered(boxes@, w as int, h as int, boxes@.len() as int),
{
    let n: usize = boxes.len();
    let mut out: Vec<Frame> = Vec::new();
    let mut i: usize = 0;
    while i < n
        invariant
            n == boxes@.len(),
            i <= n,
            0 <= w <= 0xffff_ffff,
            0 <= h <= 0xffff_ffff,
            out@ == cornered(boxes@, w as int, h as int, i as int),
        decreases n - i,
    {
        let b: Frame = boxes[i];
        if b.2 > w - 40 && b.3 > h - 40 {
            out.push(b);
        }
        i = i + 1;
    }
    out
}

fn keep_clear(boxes: &[Frame], mask: &Mask) -> (r: Vec<Frame>)
    requires
        mask.wf(),
    ensures
        r@ == clear_of(boxes@, mask.data@, mask.width as int, boxes@.len() as int),
{
    let n: usize = boxes.len();
    let mut out: Vec<Frame> = Vec::new();
    let mut i: usize = 0;
    while i < n
        invariant
            n == boxes@.len(),
            i <= n,
            mask.wf(),
            out@ == clear_of(boxes@, mask.data@, mask.width as int, i as int),
        decreases n - i,
    {
        let b: Frame = boxes[i];
        proof {
            assert(meets(mask, b) == data_meets(mask.data@, mask.width as int, b));
        }
        if !mask_meets(mask, b) {
            out.push(b);
        }
        i = i + 1;
    }
    out
}

/// Tells whether a given mask has the size of a picture.
pub open spec fn mask_fits(mask: Option<Mask>, picture: &Picture) -> bool {
    mask matches Some(m) ==> m.wf() && m.width == picture.width && m.height == picture.height
}

/// What an optional mask holds.
pub open spec fn mask_data(mask: Option<Mask>) -> Option<Seq<u8>> {
    match mask {
        Some(m) => Some(m.data@),
        None => None,
    }
}

/// What a preparation holds.
pub open spec fn prepared_view(
    r: Result<Prepared, String>,
) -> Result<PreparedView, Seq<char>> {
    match r {
        Ok(p) => Ok(p.view()),
        Err(e) => Err(e@),
    }
}

/// Decides the mask of a picture. `profile_mask` is the mask of a watermark
/// profile that was located in the picture, `ocr` are the boxes that the text
/// detector found.
pub fn prepare(
    options: &PipelineOptions,
    picture: &Picture,
    template: &Template,
    profile_mask: Option<Mask>,
    ocr: &[Frame],
) -> (r: Result<Prepared, String>)
    requires
        picture.wf(),
        template.wf(),
        mask_fits(profile_mask, picture),
    ensures
        prepared_view(r) == preparation(
            options,
            picture,
            template,
            mask_data(profile_mask),
            ocr@,
        ),
        r matches Ok(p) ==> p.mask.wf() && p.mask.width == picture.width && p.mask.height
            == picture.height,
{
    let pixels: usize = picture.data.len() / 3;
    if let Some(given) = options.mask_box {
        let b = match resolve_box(picture.width, picture.height, Some(given)) {
            Ok(b) => b,
            Err(e) => {
                return Err(e);
            },
        };
        let boxes: Vec<Frame> = vec![b];
        proof {
            assert(boxes@ =~= seq![b]);
            lemma_box_computable(picture, given);
        }
        if options.refine {
            if let Some(mask) = refine_box_mask(picture, b) {
                return Ok(Prepared { mask, template: false, refined: Some(boxes) });
            }
        }
        let mask = paint_boxes(boxes.as_slice(), picture.width, picture.height, pixels);
        return Ok(Prepared { mask, template: false, refined: None });
    }
    if options.use_profile {
        if let Some(mask) = profile_mask {
            return Ok(Prepared { mask, template: false, refined: None });
        }
    }
    let hit = match template_stroke_mask(picture, template) {
        Ok(hit) => hit,
        Err(e) => {
            return Err(e);
        },
    };
    if options.any_position {
        let scanned = if ocr.len() > 0 {
            Vec::new()
        } else {
            detect_watermark_boxes(picture)
        };
        let found: &[Frame] = if ocr.len() > 0 {
            ocr
        } else {
            scanned.as_slice()
        };
        match hit {
            Some(hit) => {
                let rest = keep_clear(found, &hit.mask);
                if rest.len() == 0 {
                    return Ok(Prepared { mask: hit.mask, template: true, refined: None });
                }
                let boxes = paint_boxes(rest.as_slice(), picture.width, picture.height, pixels);
                let mask = join_masks(&boxes, &hit.mask);
                Ok(Prepared { mask, template: true, refined: None })
            },
            None => {
                let mask = paint_boxes(found, picture.width, picture.height, pixels);
                Ok(Prepared { mask, template: false, refined: None })
            },
        }
    } else {
        match hit {
            Some(hit) => Ok(Prepared { mask: hit.mask, template: true, refined: None }),
            None => {
                let scanned = detect_watermark_boxes(picture);
                let found = keep_cornered(
                    scanned.as_slice(),
                    picture.width as i64,
                    picture.height as i64,
                );
                let mask = paint_boxes(found.as_slice(), picture.width, picture.height, pixels);
                Ok(Prepared { mask, template: false, refined: None })
            },
        }
    }
}

proof fn lemma_box_computable(picture: &Picture, given: MaskBox)
    requires
        picture.wf(),
        ({
            let m = meant_frame(picture.width as int, picture.height as int, given);
            m.0 < m.2 && m.1 < m.3
        }),
    ensures
        ({
            let m = meant_frame(picture.width as int, picture.height as int, given);
            computable((m.0 as i64, m.1 as i64, m.2 as i64, m.3 as i64))
        }),
{
    let m = meant_frame(picture.width as int, picture.height as int, given);
    let (a, b) = (m.2 - m.0, m.3 - m.1);
    lemma_measurable_sides(picture.width as int, picture.height as int);
    assert(0 <= a * b <= 0x400_0000_0000_0000) by (nonlinear_arith)
        requires
            0 <= a <= 0x2000_0000,
            0 <= b <= 0x2000_0000,
    ;
}

/// Where nothing is found, nothing is marked: a picture without a watermark is
/// never repaired on a guess.
pub proof fn lemma_nothing_found_nothing_marked(
    options: &PipelineOptions,
    picture: &Picture,
    template: &Template,
    ocr: Seq<Frame>,
)
    requires
        options.mask_box is None,
        !template_beyond(picture, template),
        template_hit(picture, template) is None,
        watermark_boxes(picture).len() == 0,
        ocr.len() == 0,
    ensures
        preparation(options, picture, template, None, ocr) matches Ok(p) && unmarked(p.0),
{
    let (w, h) = (picture.width as int, picture.height as int);
    let none = Seq::<Frame>::empty();
    assert(watermark_boxes(picture) =~= none);
    assert(ocr =~= none);
    assert(cornered(none, w, h, 0) =~= none);
    let data = painted(none, w, h);
    assert forall|i: int| 0 <= i < data.len() implies #[trigger] data[i] == 0 by {
        assert(!held(none, 0, i % w, i / w));
    }
}

/// A given box that is not narrowed marks exactly the pixels inside it.
pub proof fn lemma_given_box_marks_itself(picture: &Picture, b: Frame, i: int)
    requires
        0 <= i < picture.width * picture.height,
    ensures
        boxed(picture, b, false).0[i] == if holds(
            b,
            i % picture.width as int,
            i / picture.width as int,
        ) {
            255u8
        } else {
            0u8
        },
{
    let boxes = seq![b];
    let (x, y) = (i % picture.width as int, i / picture.width as int);
    if holds(b, x, y) {
        assert(holds(boxes[0], x, y));
    }
}

/// The numbers among the first `n` pieces of a line.
pub open spec fn numbers_in(parts: Seq<Seq<char>>, n: int) -> Seq<i64>
    decreases n,
{
    if n <= 0 {
        seq![]
    } else {
        let before = numbers_in(parts, n - 1);
        match signed(trimmed(parts[n - 1])) {
            Some(v) => before.push(v),
            None => before,
        }
    }
}

/// The box that a line writes: four numbers between commas.
pub open spec fn box_in(line: Seq<char>) -> Option<Frame> {
    let parts = pieces(line, ',');
    let found = numbers_in(parts, parts.len() as int);
    if found.len() == 4 {
        Some((found[0], found[1], found[2], found[3]))
    } else {
        None
    }
}

/// The boxes among the first `n` lines.
pub open spec fn boxes_in(lines: Seq<Seq<char>>, n: int) -> Seq<Frame>
    decreases n,
{
    if n <= 0 {
        seq![]
    } else {
        let before = boxes_in(lines, n - 1);
        match box_in(lines[n - 1]) {
            Some(b) => before.push(b),
            None => before,
        }
    }
}

/// The boxes that a text writes, one per line.
pub open spec fn written_boxes(text: Seq<char>) -> Seq<Frame> {
    let lines = pieces(text, '\n');
    boxes_in(lines, lines.len() as int)
}

fn read_box(line: &[char]) -> (r: Option<Frame>)
    ensures
        r == box_in(line@),
{
    let parts = split(line, ',');
    let mut found: Vec<i64> = Vec::new();
    let mut i: usize = 0;
    while i < parts.len()
        invariant
            i <= parts@.len(),
            found@ == numbers_in(views(parts@), i as int),
        decreases parts@.len() - i,
    {
        let t = trim(parts[i].as_slice());
        match parse_signed(t.as_slice()) {
            Some(v) => {
                found.push(v);
            },
            None => {},
        }
        i = i + 1;
    }
    if found.len() == 4 {
        Some((found[0], found[1], found[2], found[3]))
    } else {
        None
    }
}

/// Reads boxes, one per line; other lines are skipped.
pub fn read_boxes(text: &str) -> (r: Vec<Frame>)
    ensures
        r@ == written_boxes(text@),
{
    let s = chars_of(text);
    let lines = split(s.as_slice(), '\n');
    let mut out: Vec<Frame> = Vec::new();
    let mut i: usize = 0;
    while i < lines.len()
        invariant
            i <= lines@.len(),
            out@ == boxes_in(views(lines@), i as int),
        decreases lines@.len() - i,
    {
        match read_box(lines[i].as_slice()) {
            Some(b) => {
                out.push(b);
            },
            None => {},
        }
        i = i + 1;
    }
    out
}

/// A box as a line.
pub open spec fn box_line(b: Frame) -> Seq<char> {
    decimal(b.0 as int) + ","@ + decimal(b.1 as int) + ","@ + decimal(b.2 as int) + ","@ + decimal(
        b.3 as int,
    )
}

/// Boxes as lines.
pub open spec fn box_lines(boxes: Seq<Frame>) -> Seq<Seq<char>> {
    Seq::new(boxes.len(), |i: int| box_line(boxes[i]))
}

/// Writes boxes, one per line.
pub fn write_boxes(boxes: &[Frame]) -> (r: String)
    ensures
        r@ == joined_text(box_lines(boxes@), "\n"@),
{
    let n: usize = boxes.len();
    let mut lines: Vec<String> = Vec::new();
    let mut i: usize = 0;
    let ghost goal = box_lines(boxes@);
    proof {
        assert(texts(lines@) =~= goal.take(0));
    }
    while i < n
        invariant
            n == boxes@.len(),
            i <= n,
            goal == box_lines(boxes@),
            texts(lines@) == goal.take(i as int),
        decreases n - i,
    {
        let b: Frame = boxes[i];
        let mut line = String::new();
        push_decimal(&mut line, b.0);
        line.append(",");
        push_decimal(&mut line, b.1);
        line.append(",");
        push_decimal(&mut line, b.2);
        line.append(",");
        push_decimal(&mut line, b.3);
        proof {
            assert(line@ =~= box_line(b));
            lemma_texts_push(lines@, line);
            assert(goal.take(i + 1) =~= goal.take(i as int).push(goal[i as int]));
        }
        lines.push(line);
        i = i + 1;
    }
    proof {
        assert(goal.take(n as int) =~= goal);
    }
    join(lines.as_slice(), "\n")
}

/// A mask for a second try, the boxes it was painted from if it was, and how
/// many pixels rose.
pub struct Grown {
    pub mask: Mask,
    pub boxes: Option<usize>,
    pub added: usize,
}

/// The bytes of a mask for a second try: the whole boxes where strokes had been
/// cut out of them, else the mask grown by a square of five.
pub open spec fn grown(mask: &Mask, narrowed: Option<Seq<char>>) -> Seq<u8> {
    let (w, h) = (mask.width as int, mask.height as int);
    match narrowed {
        Some(text) => painted(written_boxes(text), w, h),
        None => morphed(mask.data@, w, h, rectangle(2, 2), true),
    }
}

/// Grows a mask for a second try. `narrowed` holds the boxes that were narrowed
/// to strokes, one per line, if any were.
pub fn grow_mask(mask: &Mask, narrowed: &Option<String>) -> (r: Grown)
    requires
        mask.wf(),
    ensures
        r.mask.wf(),
        r.mask.width == mask.width,
        r.mask.height == mask.height,
        r.mask.data@ == grown(mask, optional(*narrowed)),
        r.added == risen(r.mask.data@, mask.data@, mask.data@.len() as int),
        r.boxes == match optional(*narrowed) {
            Some(text) => Some(written_boxes(text).len() as usize),
            None => None,
        },
{
    match narrowed {
        Some(text) => {
            let boxes = read_boxes(text.as_str());
            let full = paint_boxes(boxes.as_slice(), mask.width, mask.height, mask.data.len());
            let added: usize = count_risen(&full, mask);
            Grown { mask: full, boxes: Some(boxes.len()), added }
        },
        None => {
            let wide = dilate_gray_rect(mask, 5, 5);
            let added: usize = count_risen(&wide, mask);
            Grown { mask: wide, boxes: None, added }
        },
    }
}

/// The first `n` names that are flagged.
pub open spec fn flagged(names: Seq<Seq<char>>, flags: Seq<bool>, n: int) -> Seq<Seq<char>>
    decreases n,
{
    if n <= 0 {
        seq![]
    } else if flags[n - 1] {
        flagged(names, flags, n - 1).push(names[n - 1])
    } else {
        flagged(names, flags, n - 1)
    }
}

fn pick_flagged(names: &[String], flags: &[bool]) -> (r: Vec<String>)
    requires
        names@.len() == flags@.len(),
    ensures
        texts(r@) == flagged(texts(names@), flags@, names@.len() as int),
{
    let n: usize = names.len();
    let mut out: Vec<String> = Vec::new();
    let mut i: usize = 0;
    let ghost all = texts(names@);
    proof {
        assert(texts(out@) =~= seq![]);
    }
    while i < n
        invariant
            n == names@.len(),
            n == flags@.len(),
            i <= n,
            all == texts(names@),
            texts(out@) == flagged(all, flags@, i as int),
        decreases n - i,
    {
        if flags[i] {
            let copy = names[i].clone();
            proof {
                lemma_texts_push(out@, copy);
            }
            out.push(copy);
        }
        i = i + 1;
    }
    out
}

/// The pictures that are tried again: those in whose results the watermark
/// remains.
pub fn residual_retry(names: &[String], residual: &[bool]) -> (r: Vec<String>)
    requires
        names@.len() == residual@.len(),
    ensures
        texts(r@) == flagged(texts(names@), residual@, names@.len() as int),
{
    pick_flagged(names, residual)
}

/// Which verdicts are failures. A picture that could not be checked is none.
pub open spec fn failures(verdicts: Seq<Option<Verdict>>) -> Seq<bool> {
    Seq::new(verdicts.len(), |i: int| verdicts[i] == Some(Verdict::Fail))
}

fn failure_flags(verdicts: &[Option<Verdict>]) -> (r: Vec<bool>)
    ensures
        r@ == failures(verdicts@),
{
    let n: usize = verdicts.len();
    let mut out: Vec<bool> = Vec::new();
    let mut i: usize = 0;
    while i < n
        invariant
            n == verdicts@.len(),
            i <= n,
            out@ == failures(verdicts@).take(i as int),
        decreases n - i,
    {
        let failed: bool = match verdicts[i] {
            Some(Verdict::Fail) => true,
            _ => false,
        };
        out.push(failed);
        i = i + 1;
        proof {
            assert(out@ =~= failures(verdicts@).take(i as int));
        }
    }
    proof {
        assert(out@ =~= failures(verdicts@));
    }
    out
}

/// Tells whether any result failed its check.
pub fn report_verify(verdicts: &[Option<Verdict>]) -> (r: bool)
    ensures
        r == exists|i: int| 0 <= i < verdicts@.len() && #[trigger] failures(verdicts@)[i],
{
    let n: usize = verdicts.len();
    let mut failed: bool = false;
    let mut i: usize = 0;
    let flags = failure_flags(verdicts);
    while i < n
        invariant
            n == verdicts@.len(),
            flags@ == failures(verdicts@),
            i <= n,
            failed == exists|k: int| 0 <= k < i && #[trigger] failures(verdicts@)[k],
        decreases n - i,
    {
        if flags[i] {
            failed = true;
            proof {
                assert(failures(verdicts@)[i as int]);
            }
        }
        i = i + 1;
    }
    failed
}

/// The message for results that failed their check.
pub open spec fn refused_message(names: Seq<Seq<char>>) -> Seq<char> {
    "verification FAILED for "@ + joined_text(names, ", "@)
        + " — refusing to write output (use --force to override, or review manually)"@
}

/// Where the result for a name goes.
pub open spec fn result_place(options: &PipelineOptions, name: Seq<char>) -> LocationView {
    (output_place(options).0, output_place(options).1.push(name))
}

/// What several paths hold.
pub open spec fn places(v: Seq<Location>) -> Seq<LocationView> {
    Seq::new(v.len(), |i: int| v[i].view())
}

/// Where the results for some names go.
pub open spec fn result_places(
    options: &PipelineOptions,
    names: Seq<Seq<char>>,
) -> Seq<LocationView> {
    Seq::new(names.len(), |i: int| result_place(options, names[i]))
}

fn destinations(options: &PipelineOptions, names: &[String]) -> (r: Vec<Location>)
    ensures
        places(r@) == result_places(options, texts(names@)),
{
    let n: usize = names.len();
    let mut out: Vec<Location> = Vec::new();
    let mut i: usize = 0;
    let ghost goal = result_places(options, texts(names@));
    proof {
        assert(places(out@) =~= goal.take(0));
    }
    while i < n
        invariant
            n == names@.len(),
            i <= n,
            goal == result_places(options, texts(names@)),
            places(out@) == goal.take(i as int),
        decreases n - i,
    {
        let place = output_dir(options).child(names[i].as_str());
        proof {
            assert(places(out@.push(place)) =~= places(out@).push(place.view()));
            assert(goal.take(i + 1) =~= goal.take(i as int).push(goal[i as int]));
        }
        out.push(place);
        i = i + 1;
    }
    proof {
        assert(goal.take(n as int) =~= goal);
    }
    out
}

/// Decides whether results may be written, and where they go. One that failed
/// its check keeps all of them from being written, unless writing is forced.
pub fn finalize_outputs(
    options: &PipelineOptions,
    names: &[String],
    verdicts: &[Option<Verdict>],
) -> (r: Result<Vec<Location>, String>)
    requires
        names@.len() == verdicts@.len(),
    ensures
        ({
            let bad = flagged(texts(names@), failures(verdicts@), names@.len() as int);
            if !options.force && bad.len() > 0 {
                fails_with(r, refused_message(bad))
            } else {
                r matches Ok(v) && places(v@) == result_places(options, texts(names@))
            }
        }),
{
    if !options.force {
        let flags = failure_flags(verdicts);
        let bad = pick_flagged(names, flags.as_slice());
        proof {
            assert(texts(bad@).len() == bad@.len());
        }
        if bad.len() > 0 {
            let list = join(bad.as_slice(), ", ");
            let message = String::from_str("verification FAILED for ").concat(list.as_str()).concat(
                " — refusing to write output (use --force to override, or review manually)",
            );
            return Err(message);
        }
    }
    Ok(destinations(options, names))
}

/// The same decision under its older name.
pub fn overwrite_review(
    options: &PipelineOptions,
    names: &[String],
    verdicts: &[Option<Verdict>],
) -> (r: Result<Vec<Location>, String>)
    requires
        names@.len() == verdicts@.len(),
    ensures
        ({
            let bad = flagged(texts(names@), failures(verdicts@), names@.len() as int);
            if !options.force && bad.len() > 0 {
                fails_with(r, refused_message(bad))
            } else {
                r matches Ok(v) && places(v@) == result_places(options, texts(names@))
            }
        }),
{
    finalize_outputs(options, names, verdicts)
}

proof fn lemma_flagged_nonempty(names: Seq<Seq<char>>, flags: Seq<bool>, n: int, i: int)
    requires
        0 <= i < n <= names.len(),
        names.len() == flags.len(),
        flags[i],
    ensures
        flagged(names, flags, n).len() > 0,
    decreases n,
{
    if i < n - 1 {
        lemma_flagged_nonempty(names, flags, n - 1, i);
    }
}

/// One failed result is enough to refuse writing, unless it is forced.
pub proof fn lemma_failure_refuses(
    options: &PipelineOptions,
    names: Seq<Seq<char>>,
    verdicts: Seq<Option<Verdict>>,
    i: int,
)
    requires
        names.len() == verdicts.len(),
        0 <= i < names.len(),
        verdicts[i] == Some(Verdict::Fail),
    ensures
        flagged(names, failures(verdicts), names.len() as int).len() > 0,
{
    lemma_flagged_nonempty(names, failures(verdicts), names.len() as int, i);
}

/// How far a run has come.
#[derive(Clone, Copy, Debug, PartialEq, Eq, Structural)]
pub enum Stage {
    Start,
    Prepared,
    Inpainted,
    Retried,
    Reviewed,
    Finalized,
    Preserved,
    Cleaned,
}

/// What a run does next.
#[derive(Clone, Copy, Debug, PartialEq, Eq, Structural)]
pub enum Action {
    Prepare,
    Inpaint,
    Retry,
    ReviewCandidates,
    Finalize,
    PreserveReviews,
    /// Clears the working directory and keeps the originals for undoing.
    CleanupWork,
    /// Clears the working directory and the kept originals.
    Cleanup,
    Stop,
    Cancel,
}

/// What comes after a stage.
pub open spec fn next_action(stage: Stage, options: &PipelineOptions, cancelled: bool) -> Action {
    match stage {
        Stage::Start => if cancelled {
            Action::Cancel
        } else {
            Action::Prepare
        },
        Stage::Prepared => Action::Inpaint,
        Stage::Inpainted => if options.retry && !cancelled {
            Action::Retry
        } else {
            Action::ReviewCandidates
        },
        Stage::Retried => Action::ReviewCandidates,
        Stage::Reviewed => Action::Finalize,
        Stage::Finalized => if options.keep_work {
            Action::Stop
        } else {
            Action::PreserveReviews
        },
        Stage::Preserved => if options.overwrite_original {
            Action::CleanupWork
        } else {
            Action::Cleanup
        },
        Stage::Cleaned => Action::Stop,
    }
}

/// Decides what a run does next.
pub fn run(stage: Stage, options: &PipelineOptions, cancelled: bool) -> (r: Action)
    ensures
        r == next_action(stage, options, cancelled),
{
    match stage {
        Stage::Start => if cancelled {
            Action::Cancel
        } else {
            Action::Prepare
        },
        Stage::Prepared => Action::Inpaint,
        Stage::Inpainted => if options.retry && !cancelled {
            Action::Retry
        } else {
            Action::ReviewCandidates
        },
        Stage::Retried => Action::ReviewCandidates,
        Stage::Reviewed => Action::Finalize,
        Stage::Finalized => if options.keep_work {
            Action::Stop
        } else {
            Action::PreserveReviews
        },
        Stage::Preserved => if options.overwrite_original {
            Action::CleanupWork
        } else {
            Action::Cleanup
        },
        Stage::Cleaned => Action::Stop,
    }
}

/// The stage that an action leads to when it succeeds.
pub open spec fn reached(action: Action) -> Option<Stage> {
    match action {
        Action::Prepare => Some(Stage::Prepared),
        Action::Inpaint => Some(Stage::Inpainted),
        Action::Retry => Some(Stage::Retried),
        Action::ReviewCandidates => Some(Stage::Reviewed),
        Action::Finalize => Some(Stage::Finalized),
        Action::PreserveReviews => Some(Stage::Preserved),
        Action::CleanupWork => Some(Stage::Cleaned),
        Action::Cleanup => Some(Stage::Cleaned),
        Action::Stop => None,
        Action::Cancel => None,
    }
}

/// The stage that an action leads to when it succeeds.
pub fn stage_after(action: Action) -> (r: Option<Stage>)
    ensures
        r == reached(action),
{
    match action {
        Action::Prepare => Some(Stage::Prepared),
        Action::Inpaint => Some(Stage::Inpainted),
        Action::Retry => Some(Stage::Retried),
        Action::ReviewCandidates => Some(Stage::Reviewed),
        Action::Finalize => Some(Stage::Finalized),
        Action::PreserveReviews => Some(Stage::Preserved),
        Action::CleanupWork => Some(Stage::Cleaned),
        Action::Cleanup => Some(Stage::Cleaned),
        Action::Stop => None,
        Action::Cancel => None,
    }
}

/// A run that replaces originals never deletes the kept ones, and a run that
/// does not never leaves any behind.
pub proof fn lemma_kept_originals(stage: Stage, options: &PipelineOptions, cancelled: bool)
    ensures
        options.overwrite_original ==> next_action(stage, options, cancelled) != Action::Cleanup,
        !options.overwrite_original ==> next_action(stage, options, cancelled)
            != Action::CleanupWork,
{
}

/// A run that is cancelled before it starts does nothing.
pub proof fn lemma_cancelled_does_nothing(options: &PipelineOptions)
    ensures
        reached(next_action(Stage::Start, options, true)) is None,
{
}

/// How many actions are left at most.
pub open spec fn steps_left(stage: Stage) -> int {
    match stage {
        Stage::Start => 8,
        Stage::Prepared => 7,
        Stage::Inpainted => 6,
        Stage::Retried => 5,
        Stage::Reviewed => 4,
        Stage::Finalized => 3,
        Stage::Preserved => 2,
        Stage::Cleaned => 1,
    }
}

/// Every action brings a run closer to its end.
pub proof fn lemma_run_ends(stage: Stage, options: &PipelineOptions, cancelled: bool)
    ensures
        reached(next_action(stage, options, cancelled)) matches Some(next) ==> steps_left(next)
            < steps_left(stage),
{
}

/// What is told of a finished run.
pub struct RunSummary {
    pub source_review: Location,
    pub candidate_review: Location,
    pub final_review: Location,
    pub kept_work: bool,
    pub cancelled: bool,
    pub processed: usize,
    pub output_dir: Location,
    pub outputs: Vec<Location>,
}

/// Where a review sheet is: in the working directory where that is kept, else
/// among the preserved reviews.
pub open spec fn review_place(
    keep_work: bool,
    work: Seq<char>,
    preserved: Seq<char>,
    name: Seq<char>,
) -> LocationView {
    if keep_work {
        (work, seq!["review"@, name])
    } else {
        below(preserved, name)
    }
}

fn review_at(keep_work: bool, work: &str, preserved: &str, name: &str) -> (r: Location)
    ensures
        r.view() == review_place(keep_work, work@, preserved@, name@),
{
    if keep_work {
        let r = Location::at(work).child("review").child(name);
        proof {
            assert(r.view().1 =~= seq!["review"@, name@]);
        }
        r
    } else {
        let r = Location::at(preserved).child(name);
        proof {
            assert(r.view().1 =~= seq![name@]);
        }
        r
    }
}

/// Sums a finished run up.
pub fn run_summary(
    options: &PipelineOptions,
    names: &[String],
    work: &str,
    preserved: &str,
) -> (r: RunSummary)
    ensures
        r.source_review.view() == review_place(
            options.keep_work,
            work@,
            preserved@,
            "source-corner-review.png"@,
        ),
        r.candidate_review.view() == review_place(
            options.keep_work,
            work@,
            preserved@,
            "lama-corner-review.png"@,
        ),
        r.final_review.view() == review_place(
            options.keep_work,
            work@,
            preserved@,
            "overwritten-corner-review.png"@,
        ),
        r.kept_work == options.keep_work,
        !r.cancelled,
        r.processed == names@.len(),
        r.output_dir.view() == output_place(options),
        places(r.outputs@) == result_places(options, texts(names@)),
{
    RunSummary {
        source_review: review_at(options.keep_work, work, preserved, "source-corner-review.png"),
        candidate_review: review_at(options.keep_work, work, preserved, "lama-corner-review.png"),
        final_review: review_at(
            options.keep_work,
            work,
            preserved,
            "overwritten-corner-review.png",
        ),
        kept_work: options.keep_work,
        cancelled: false,
        processed: names.len(),
        output_dir: output_dir(options),
        outputs: destinations(options, names),
    }
}

/// The outcome of restoring kept originals: how many were restored, and whether
/// their directory is removed. Without a directory there is nothing to restore.
pub fn restore_backup(kept: bool, restored: usize) -> (r: Result<(usize, bool), String>)
    ensures
        if kept {
            r == Ok::<(usize, bool), String>((restored, restored > 0))
        } else {
            fails_with(r, "no backup to restore"@)
        },
{
    if !kept {
        return Err(String::from_str("no backup to restore"));
    }
    Ok((restored, restored > 0))
}

/// The kept originals that are deleted when a run is cleaned up: those of its
/// names that exist.
pub fn cleanup(names: &[String], kept: &[bool]) -> (r: Vec<String>)
    requires
        names@.len() == kept@.len(),
    ensures
        texts(r@) == flagged(texts(names@), kept@, names@.len() as int),
{
    pick_flagged(names, kept)
}

proof fn lemma_box_line_round_trip(b: Frame)
    ensures
        box_in(box_line(b)) == Some(b),
        forall|i: int| 0 <= i < box_line(b).len() ==> #[trigger] box_line(b)[i] != '\n',
{
    let (d0, d1, d2, d3) = (
        decimal(b.0 as int),
        decimal(b.1 as int),
        decimal(b.2 as int),
        decimal(b.3 as int),
    );
    lemma_decimal_round_trip(b.0);
    lemma_decimal_round_trip(b.1);
    lemma_decimal_round_trip(b.2);
    lemma_decimal_round_trip(b.3);
    reveal_strlit(",");
    assert(","@ =~= seq![',']);
    let parts = seq![d0, d1, d2, d3];
    let line = box_line(b);
    assert forall|k: int, i: int|
        0 <= k < parts.len() && 0 <= i < parts[k].len() implies #[trigger] parts[k][i] != ',' by {
        if k == 0 {
            assert(d0[i] == '-' || is_digit(d0[i]));
        } else if k == 1 {
            assert(d1[i] == '-' || is_digit(d1[i]));
        } else if k == 2 {
            assert(d2[i] == '-' || is_digit(d2[i]));
        } else {
            assert(d3[i] == '-' || is_digit(d3[i]));
        }
    }
    let sep = seq![','];
    let p1 = seq![d0];
    let p2 = seq![d0, d1];
    let p3 = seq![d0, d1, d2];
    assert(p2.drop_last() =~= p1);
    assert(p3.drop_last() =~= p2);
    assert(parts.drop_last() =~= p3);
    assert(joined_text(p1, sep) == d0);
    assert(joined_text(p2, sep) == d0 + sep + d1);
    assert(joined_text(p3, sep) == d0 + sep + d1 + sep + d2);
    assert(joined_text(parts, sep) == d0 + sep + d1 + sep + d2 + sep + d3);
    assert(line =~= joined_text(parts, sep));
    lemma_joined_pieces(parts, ',');
    let f0 = numbers_in(parts, 0);
    let f1 = numbers_in(parts, 1);
    let f2 = numbers_in(parts, 2);
    let f3 = numbers_in(parts, 3);
    let f4 = numbers_in(parts, 4);
    assert(f1 == f0.push(b.0));
    assert(f2 == f1.push(b.1));
    assert(f3 == f2.push(b.2));
    assert(f4 == f3.push(b.3));
    assert forall|i: int| 0 <= i < line.len() implies #[trigger] line[i] != '\n' by {
        let (n0, n1, n2) = (d0.len() as int, d1.len() as int, d2.len() as int);
        if i < n0 {
            assert(line[i] == d0[i]);
        } else if i == n0 {
            assert(line[i] == ',');
        } else if i < n0 + 1 + n1 {
            assert(line[i] == d1[i - n0 - 1]);
        } else if i == n0 + 1 + n1 {
            assert(line[i] == ',');
        } else if i < n0 + n1 + n2 + 2 {
            assert(line[i] == d2[i - n0 - n1 - 2]);
        } else if i == n0 + n1 + n2 + 2 {
            assert(line[i] == ',');
        } else {
            assert(line[i] == d3[i - n0 - n1 - n2 - 3]);
        }
    }
}

proof fn lemma_boxes_in(boxes: Seq<Frame>, n: int)
    requires
        0 <= n <= boxes.len(),
    ensures
        boxes_in(box_lines(boxes), n) == boxes.take(n),
    decreases n,
{
    if n > 0 {
        lemma_boxes_in(boxes, n - 1);
        lemma_box_line_round_trip(boxes[n - 1]);
        assert(boxes.take(n) =~= boxes.take(n - 1).push(boxes[n - 1]));
    } else {
        assert(boxes.take(0) =~= seq![]);
    }
}

/// Boxes that were written are read back as they were.
pub proof fn lemma_boxes_round_trip(boxes: Seq<Frame>)
    ensures
        written_boxes(joined_text(box_lines(boxes), "\n"@)) == boxes,
{
    reveal_strlit("\n");
    assert("\n"@ =~= seq!['\n']);
    let lines = box_lines(boxes);
    let text = joined_text(lines, "\n"@);
    if boxes.len() == 0 {
        assert(text =~= seq![]);
        let none = Seq::<char>::empty();
        let parts = pieces(none, '\n');
        assert(parts =~= seq![none]);
        assert(pieces(none, ',') =~= seq![none]);
        assert(trimmed(none) == none);
        assert(signed(none) is None);
        assert(numbers_in(seq![none], 1) =~= numbers_in(seq![none], 0));
        assert(box_in(none) is None);
        assert(boxes_in(parts, 1) =~= boxes_in(parts, 0));
        assert(written_boxes(text) =~= boxes);
    } else {
        assert forall|k: int, i: int|
            0 <= k < lines.len() && 0 <= i < lines[k].len() implies #[trigger] lines[k][i]
            != '\n' by {
            lemma_box_line_round_trip(boxes[k]);
        }
        lemma_joined_pieces(lines, '\n');
        lemma_boxes_in(boxes, boxes.len() as int);
        assert(boxes.take(boxes.len() as int) =~= boxes);
    }
}

/// A mask grown for a second try keeps every mark.
pub proof fn lemma_grown_keeps(mask: &Mask, i: int)
    requires
        mask.wf(),
        0 <= i < mask.data@.len(),
    ensures
        grown(mask, None)[i] >= mask.data@[i],
{
    lemma_highest_above(
        mask.data@,
        mask.width as int,
        mask.height as int,
        rectangle(2, 2),
        i,
    );
}

/// How a picture is repaired once its mask is known.
#[derive(Clone, Copy, Debug, PartialEq, Eq, Structural)]
pub enum Repair {
    /// Nothing is marked: the picture is taken as it is.
    PassThrough,
    /// The model's result stands.
    Keep,
    /// The mark of the profile that was found is undone.
    UndoProfile,
    /// The known stamp is undone.
    UndoStamp,
}

/// How a picture is repaired: by its mask, by what was found with it, and by
/// whether the stamp may be undone.
pub fn repair_kind(
    mask: &Mask,
    profile_found: bool,
    template_found: bool,
    box_narrowed: bool,
    inverse: bool,
) -> (r: Repair)
    ensures
        r == if unmarked(mask.data@) {
            Repair::PassThrough
        } else if profile_found {
            Repair::UndoProfile
        } else if inverse && (template_found || box_narrowed) {
            Repair::UndoStamp
        } else {
            Repair::Keep
        },
{
    if is_unmarked(mask) {
        Repair::PassThrough
    } else if profile_found {
        Repair::UndoProfile
    } else if inverse && (template_found || box_narrowed) {
        Repair::UndoStamp
    } else {
        Repair::Keep
    }
}

/// A run of repairs under a mask, window after window, from a picture's bytes
/// on.
pub open spec fn is_repair_run(states: Seq<Seq<u8>>, orig: &Picture, mask: &Mask) -> bool {
    &&& states.len() > 0
    &&& states[0] == orig.data@
    &&& forall|k: int|
        0 <= k < states.len() - 1 ==> is_repair(
            #[trigger] states[k],
            states[k + 1],
            mask.data@,
            orig.width as int,
        )
}

/// Whatever the model answers for whichever windows, and whether or not the
/// stamp is undone over its result, the check fails a repaired picture only
/// over a remaining watermark, never over pixels outside the mask.
pub proof fn lemma_repairs_pass_outside(
    orig: &Picture,
    out: &Picture,
    mask: &Mask,
    states: Seq<Seq<u8>>,
    restored: &Picture,
    mark: &PlacedMark,
    gain: Number,
    c: Changes,
    applied: bool,
    before: Double,
    after: Double,
)
    requires
        orig.wf(),
        is_repair_run(states, orig, mask),
        restored.data@ == states.last(),
        out.data@ == restored.data@ || out.data@ == undone_bytes(
            orig,
            restored,
            mark,
            gain,
            Some(mask),
        ),
        counts(orig, out, mask.data@, orig.area(), c),
    ensures
        ruling(c, orig.area(), applied, before, after) == Verdict::Fail <==> applied && present(
            before,
        ) && present(after),
{
    assert forall|i: int| 0 <= i < orig.area() && mask.data@[i] == 0 implies #[trigger] change(
        orig,
        out,
        i,
    ) == 0 by {
        assert((3 * i) / 3 == i && (3 * i + 1) / 3 == i && (3 * i + 2) / 3 == i);
        lemma_byte_kept(orig, out, mask, states, restored, mark, gain, 3 * i);
        lemma_byte_kept(orig, out, mask, states, restored, mark, gain, 3 * i + 1);
        lemma_byte_kept(orig, out, mask, states, restored, mark, gain, 3 * i + 2);
    }
    lemma_untouched_outside_passes(orig, out, mask.data@, c, applied, before, after);
}

proof fn lemma_byte_kept(
    orig: &Picture,
    out: &Picture,
    mask: &Mask,
    states: Seq<Seq<u8>>,
    restored: &Picture,
    mark: &PlacedMark,
    gain: Number,
    j: int,
)
    requires
        is_repair_run(states, orig, mask),
        restored.data@ == states.last(),
        out.data@ == restored.data@ || out.data@ == undone_bytes(
            orig,
            restored,
            mark,
            gain,
            Some(mask),
        ),
        0 <= j < orig.data@.len(),
        mask.data@[j / 3] == 0,
    ensures
        out.data@[j] == orig.data@[j],
{
    lemma_repairs_keep_unmarked(states, mask.data@, orig.width as int, j);
    lemma_unmarked_stays(orig, restored, mark, gain, mask, j);
}

/// Unless originals are to be replaced or a directory is asked for, no result
/// goes where an original is.
pub proof fn lemma_originals_not_overwritten(
    options: &PipelineOptions,
    name: Seq<char>,
    original: Seq<char>,
)
    requires
        !options.overwrite_original,
        options.output_dir_override is None,
    ensures
        result_place(options, name) != below(options.root@, original),
{
    assert(result_place(options, name).1.len() == 2);
}

/// Where a picture is read from, and whether it is copied there first.
#[derive(Clone, Copy, Debug, PartialEq, Eq, Structural)]
pub struct Origin {
    pub copy: bool,
    pub from_backup: bool,
}

/// Where a picture is read from. When originals are overwritten it is the
/// backup, into which the picture is copied unless one is kept there already.
pub fn origin_of(overwrite: bool, kept: bool) -> (r: Origin)
    ensures
        r == origin(overwrite, kept),
{
    Origin { copy: overwrite && !kept, from_backup: overwrite }
}

/// Where a picture is read from.
pub open spec fn origin(overwrite: bool, kept: bool) -> Origin {
    Origin { copy: overwrite && !kept, from_backup: overwrite }
}

/// A backup is kept for a picture after its origin was settled.
pub open spec fn kept_after(overwrite: bool, kept: bool) -> bool {
    kept || origin(overwrite, kept).copy
}

/// The first original is kept: once it is in the backup, a repeated run starts
/// from it and copies nothing over it.
pub proof fn lemma_first_original_kept(kept: bool)
    ensures
        kept_after(true, kept),
        !origin(true, kept_after(true, kept)).copy,
        origin(true, kept_after(true, kept)).from_backup,
{
}

} // verus!
