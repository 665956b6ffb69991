//! What the desktop program decides: previews, progress, learning attempts, and
//! how a run is reported.

use crate::boxes::{larger, smaller, MaskBox};
use crate::codec::{
    channel_count, channels, contained, container_of, decode, decoded, extent, png_file, write_png,
};
use crate::fetch::{contains_text, holds_text};
use crate::i18n::tr;
use crate::menu::said;
use crate::names::{format_for_lower, format_of, Format};
use crate::number::{lemma_number_order, lemma_number_strict, Class, Number};
use crate::pipeline::PipelineOptions;
use crate::text::{
    chars_of, fails_with, has_head, same, starts_with, text_of, trim, trimmed,
};
use vstd::prelude::*;

verus! {

/// The text for a language, with something to report behind it.
pub fn report(lang: &str, zh: &str, en: &str, what: &str) -> (r: String)
    ensures
        r@ == said(lang@, zh@ + what@, en@ + what@),
{
    let mut a = String::from_str(zh);
    a.append(what);
    let mut b = String::from_str(en);
    b.append(what);
    tr(lang, a.as_str(), b.as_str())
}

/// One of the 64 characters.
pub open spec fn sextet(v: int) -> char {
    if v < 26 {
        (65 + v) as char
    } else if v < 52 {
        (71 + v) as char
    } else if v < 62 {
        (v - 4) as char
    } else if v == 62 {
        '+'
    } else {
        '/'
    }
}

/// Bytes in base 64: four characters for three bytes, filled up with equals
/// signs at the end.
pub open spec fn base64_text(b: Seq<u8>) -> Seq<char>
    decreases b.len(),
{
    if b.len() == 0 {
        seq![]
    } else if b.len() == 1 {
        seq![sextet(b[0] as int / 4), sextet((b[0] as int % 4) * 16), '=', '=']
    } else if b.len() == 2 {
        seq![
            sextet(b[0] as int / 4),
            sextet((b[0] as int % 4) * 16 + b[1] as int / 16),
            sextet((b[1] as int % 16) * 4),
            '=',
        ]
    } else {
        seq![
            sextet(b[0] as int / 4),
            sextet((b[0] as int % 4) * 16 + b[1] as int / 16),
            sextet((b[1] as int % 16) * 4 + b[2] as int / 64),
            sextet(b[2] as int % 64),
        ] + base64_text(b.skip(3))
    }
}

/// `base64::Engine::encode` of the standard engine: the bytes in the standard
/// alphabet, padded. It panics where the text would not fit into memory, which
/// a quarter of the address space rules out.
#[verifier::external_body]
fn encode_base64(bytes: &[u8]) -> (r: String)
    requires
        4 * bytes@.len() <= usize::MAX,
    ensures
        r@ == base64_text(bytes@),
{
    base64::Engine::encode(&base64::engine::general_purpose::STANDARD, bytes)
}

/// Width and height, or the message of what went wrong.
pub open spec fn size_view(r: Result<(u32, u32), String>) -> Result<(u32, u32), Seq<char>> {
    match r {
        Ok(s) => Ok(s),
        Err(e) => Err(e@),
    }
}

/// The width and the height that a picture file tells, or the message of what
/// went wrong.
pub uninterp spec fn told_size(bytes: Seq<u8>, format: Format) -> Result<(u32, u32), Seq<char>>;

/// `image::ImageReader::into_dimensions`, after `with_guessed_format`: the size
/// that a picture file tells, by the format that its first bytes show, or else
/// by the given one; a function of the bytes and that format.
#[verifier::external_body]
fn read_size(bytes: &[u8], format: Format) -> (r: Result<(u32, u32), String>)
    ensures
        size_view(r) == told_size(bytes@, format),
{
    let kind = match format {
        Format::Png => image::ImageFormat::Png,
        Format::Jpeg => image::ImageFormat::Jpeg,
        Format::WebP => image::ImageFormat::WebP,
    };
    image::ImageReader::with_format(std::io::Cursor::new(bytes), kind)
        .with_guessed_format()
        .map_err(|e| e.to_string())?
        .into_dimensions()
        .map_err(|e| e.to_string())
}

/// `image::GenericImageView::dimensions`: the width and the height of a decoded
/// picture; a function of the picture.
#[verifier::external_body]
fn extent_of(img: &image::DynamicImage) -> (r: (u32, u32))
    ensures
        r == extent(*img),
{
    image::GenericImageView::dimensions(img)
}

/// How many bytes a pixel of a decoded picture takes.
pub uninterp spec fn pixel_bytes(img: image::DynamicImage) -> u8;

/// `image::ColorType::bytes_per_pixel` of `image::DynamicImage::color`; a
/// function of the picture.
#[verifier::external_body]
fn bytes_per_pixel(img: &image::DynamicImage) -> (r: u8)
    ensures
        r == pixel_bytes(*img),
{
    img.color().bytes_per_pixel()
}

/// More pixels than are taken together along a side of `n` that is shortened
/// like `long` to `limit`, rounding in single precision counted in.
pub open spec fn block_reach(n: int, long: int, limit: int) -> int {
    smaller(n, n / larger(n * limit / larger(long, 1), 1) + 3 + n / 0x40_0000)
}

/// A picture of this size can be brought into a square of `limit`: the sums of
/// the pixels that are taken together stay in 32 bits, and a picture that is
/// enlarged stays small.
pub open spec fn shrinks(size: (u32, u32), wide: bool, limit: u32) -> bool {
    let long = larger(size.0 as int, size.1 as int);
    if limit > long {
        limit <= 0x4000
    } else {
        block_reach(size.0 as int, long, limit as int) * block_reach(
            size.1 as int,
            long,
            limit as int,
        ) <= (if wide {
            0x1_0000int
        } else {
            0x100_0000
        })
    }
}

/// A decoded picture can be brought into a square of `limit`.
pub open spec fn shrinkable(img: image::DynamicImage, limit: u32) -> bool {
    shrinks(extent(img), pixel_bytes(img) != channels(img), limit)
}

/// A decoded picture, scaled to fit into a square.
pub uninterp spec fn shrunk(img: image::DynamicImage, limit: u32) -> image::DynamicImage;

/// `image::DynamicImage::thumbnail`: a picture scaled to fit into a square of
/// `limit` pixels; a function of the picture and the limit. It adds up the
/// pixels of a block in 32 bits, and panics or wraps beyond them: with one byte
/// per sample from 2^24 pixels on, with two from 2^16 on.
#[verifier::external_body]
fn shrink(img: &image::DynamicImage, limit: u32) -> (r: image::DynamicImage)
    requires
        shrinkable(*img, limit),
    ensures
        r == shrunk(*img, limit),
{
    img.thumbnail(limit, limit)
}

fn reach_of(n: u32, long: u32, limit: u32) -> (r: u64)
    requires
        n <= long,
        limit <= long,
    ensures
        r == block_reach(n as int, long as int, limit as int),
        r <= n,
{
    let side: u64 = if long < 1 {
        1
    } else {
        long as u64
    };
    proof {
        assert(0 <= n * limit <= 0xffff_ffff * 0xffff_ffff) by (nonlinear_arith)
            requires
                0 <= n <= 0xffff_ffff,
                0 <= limit <= 0xffff_ffff,
        ;
    }
    let kept: u64 = n as u64 * limit as u64 / side;
    let kept: u64 = if kept < 1 {
        1
    } else {
        kept
    };
    let most: u64 = n as u64 / kept + 3 + n as u64 / 0x40_0000;
    if most < n as u64 {
        most
    } else {
        n as u64
    }
}

/// Tells whether a picture of this size can be brought into a square.
pub fn can_shrink(size: (u32, u32), wide: bool, limit: u32) -> (r: bool)
    ensures
        r == shrinks(size, wide, limit),
{
    let (w, h): (u32, u32) = size;
    let long: u32 = if w < h {
        h
    } else {
        w
    };
    if limit > long {
        return limit <= 0x4000;
    }
    let (a, b) = (reach_of(w, long, limit), reach_of(h, long, limit));
    proof {
        assert(0 <= a * b <= 0xffff_ffff * 0xffff_ffff) by (nonlinear_arith)
            requires
                0 <= a <= 0xffff_ffff,
                0 <= b <= 0xffff_ffff,
        ;
    }
    let most: u64 = if wide {
        0x1_0000
    } else {
        0x100_0000
    };
    a * b <= most
}

/// What can go wrong with a reduced picture: reading the file, writing the
/// result, or a picture beyond what can be reduced.
pub enum Fault {
    Read { message: String },
    Write { message: String },
    Beyond,
}

/// What a fault holds.
pub enum FaultView {
    Read { message: Seq<char> },
    Write { message: Seq<char> },
    Beyond,
}

/// A reduced picture as a file, or what went wrong.
pub open spec fn reduced_view(r: Result<Vec<u8>, Fault>) -> Result<Seq<u8>, FaultView> {
    match r {
        Ok(b) => Ok(b@),
        Err(Fault::Read { message }) => Err(FaultView::Read { message: message@ }),
        Err(Fault::Write { message }) => Err(FaultView::Write { message: message@ }),
        Err(Fault::Beyond) => Err(FaultView::Beyond),
    }
}

/// The PNG file of a picture file's picture, scaled to fit into a square.
pub open spec fn reduced_png(bytes: Seq<u8>, format: Format, limit: u32) -> Result<
    Seq<u8>,
    FaultView,
> {
    match decoded(bytes, contained(format)) {
        Err(message) => Err(FaultView::Read { message }),
        Ok(img) => if !shrinkable(img, limit) {
            Err(FaultView::Beyond)
        } else {
            match png_file(shrunk(img, limit)) {
                Err(message) => Err(FaultView::Write { message }),
                Ok(png) => Ok(png),
            }
        },
    }
}

/// Scales the picture of a file to fit into a square of `limit` pixels.
pub fn reduce(bytes: &[u8], format: Format, limit: u32) -> (r: Result<Vec<u8>, Fault>)
    ensures
        reduced_view(r) == reduced_png(bytes@, format, limit),
{
    let img = match decode(bytes, container_of(format)) {
        Err(message) => return Err(Fault::Read { message }),
        Ok(img) => img,
    };
    if !can_shrink(extent_of(&img), bytes_per_pixel(&img) != channel_count(&img), limit) {
        return Err(Fault::Beyond);
    }
    match write_png(&shrink(&img, limit)) {
        Err(message) => Err(Fault::Write { message }),
        Ok(png) => Ok(png),
    }
}

/// Bytes as a data URL.
pub open spec fn data_url_text(mime: Seq<char>, bytes: Seq<u8>) -> Seq<char> {
    "data:"@ + mime + ";base64,"@ + base64_text(bytes)
}

/// Bytes as a data URL of a media type.
pub fn data_url(mime: &str, bytes: &[u8]) -> (r: String)
    requires
        4 * bytes@.len() <= usize::MAX,
    ensures
        r@ == data_url_text(mime@, bytes@),
{
    let mut out = String::from_str("data:");
    out.append(mime);
    out.append(";base64,");
    out.append(encode_base64(bytes).as_str());
    out
}

/// A picture to show, with the size of the original.
pub struct PreviewImage {
    pub data_url: String,
    pub width: u32,
    pub height: u32,
}

/// An extension in lower case that can be shown.
pub open spec fn is_shown(ext: Seq<char>) -> bool {
    ext == "png"@ || ext == "jpg"@ || ext == "jpeg"@ || ext == "webp"@
}

/// The format and the media type of an extension that can be shown.
pub open spec fn shown_as(ext: Seq<char>) -> (Format, Seq<char>) {
    if ext == "jpg"@ || ext == "jpeg"@ {
        (Format::Jpeg, "image/jpeg"@)
    } else if ext == "webp"@ {
        (Format::WebP, "image/webp"@)
    } else {
        (Format::Png, "image/png"@)
    }
}

fn show_as(ext: &[char]) -> (r: Option<(Format, &'static str)>)
    ensures
        match r {
            Some(s) => is_shown(ext@) && s.0 == shown_as(ext@).0 && s.1@ == shown_as(ext@).1,
            None => !is_shown(ext@),
        },
{
    if same(ext, chars_of("jpg").as_slice()) || same(ext, chars_of("jpeg").as_slice()) {
        Some((Format::Jpeg, "image/jpeg"))
    } else if same(ext, chars_of("webp").as_slice()) {
        Some((Format::WebP, "image/webp"))
    } else if same(ext, chars_of("png").as_slice()) {
        Some((Format::Png, "image/png"))
    } else {
        None
    }
}

/// The longer side is above the limit.
pub open spec fn is_beyond(size: (u32, u32), max: Option<u32>) -> bool {
    max matches Some(m) && (size.0 > m || size.1 > m)
}

pub open spec fn unreadable(lang: Seq<char>, message: Seq<char>) -> Seq<char> {
    said(lang, "无法读取图片: "@ + message, "Failed to read image: "@ + message)
}

pub open spec fn too_large_to_show(lang: Seq<char>) -> Seq<char> {
    said(lang, "图片过大，无法预览"@, "Image too large to preview"@)
}

/// The preview shows these bytes of this media type.
pub open spec fn previews(
    r: Result<PreviewImage, String>,
    size: (u32, u32),
    mime: Seq<char>,
    bytes: Seq<u8>,
) -> bool {
    r matches Ok(p) && p.width == size.0 && p.height == size.1 && p.data_url@ == data_url_text(
        mime,
        bytes,
    )
}

/// What is shown of a picture file whose size is known: a reduced picture where
/// the longer side is above the limit, else the file itself, up to 64 MB.
pub open spec fn is_preview(
    bytes: Seq<u8>,
    format: Format,
    mime: Seq<char>,
    size: (u32, u32),
    max: Option<u32>,
    lang: Seq<char>,
    r: Result<PreviewImage, String>,
) -> bool {
    if is_beyond(size, max) {
        match reduced_png(bytes, format, max.unwrap()) {
            Err(FaultView::Read { message }) => fails_with(r, unreadable(lang, message)),
            Err(FaultView::Write { message }) => fails_with(r, message),
            Err(FaultView::Beyond) => fails_with(r, too_large_to_show(lang)),
            Ok(png) => if 4 * png.len() > usize::MAX {
                fails_with(r, too_large_to_show(lang))
            } else {
                previews(r, size, "image/png"@, png)
            },
        }
    } else if bytes.len() > 0x400_0000 {
        fails_with(r, too_large_to_show(lang))
    } else {
        previews(r, size, mime, bytes)
    }
}

fn no_preview(lang: &str) -> (r: String)
    ensures
        r@ == too_large_to_show(lang@),
{
    tr(lang, "图片过大，无法预览", "Image too large to preview")
}

/// Shows a picture file of known size.
pub fn preview_sized(
    bytes: &[u8],
    format: Format,
    mime: &str,
    size: (u32, u32),
    max: Option<u32>,
    lang: &str,
) -> (r: Result<PreviewImage, String>)
    ensures
        is_preview(bytes@, format, mime@, size, max, lang@, r),
{
    let (width, height): (u32, u32) = size;
    let limit: u32 = match max {
        Some(m) => m,
        None => u32::MAX,
    };
    if width > limit || height > limit {
        return match reduce(bytes, format, limit) {
            Err(Fault::Read { message }) => Err(
                report(lang, "无法读取图片: ", "Failed to read image: ", message.as_str()),
            ),
            Err(Fault::Write { message }) => Err(message),
            Err(Fault::Beyond) => Err(no_preview(lang)),
            Ok(png) => if png.len() > usize::MAX / 4 {
                Err(no_preview(lang))
            } else {
                Ok(
                    PreviewImage {
                        data_url: data_url("image/png", png.as_slice()),
                        width,
                        height,
                    },
                )
            },
        };
    }
    if bytes.len() > 0x400_0000 {
        return Err(no_preview(lang));
    }
    Ok(PreviewImage { data_url: data_url(mime, bytes), width, height })
}

/// Shows a picture file by its extension in lower case.
pub fn read_image_base64(bytes: &[u8], extension: &str, max: Option<u32>, lang: &str) -> (r: Result<
    PreviewImage,
    String,
>)
    ensures
        if !is_shown(extension@) {
            fails_with(
                r,
                said(
                    lang@,
                    "只支持预览 png/jpg/webp 图片"@,
                    "Only png/jpg/webp images can be previewed"@,
                ),
            )
        } else {
            let (format, mime) = shown_as(extension@);
            match told_size(bytes@, format) {
                Err(message) => fails_with(r, unreadable(lang@, message)),
                Ok(size) => is_preview(bytes@, format, mime, size, max, lang@, r),
            }
        },
{
    let ext = chars_of(extension);
    match show_as(ext.as_slice()) {
        None => Err(
            tr(lang, "只支持预览 png/jpg/webp 图片", "Only png/jpg/webp images can be previewed"),
        ),
        Some((format, mime)) => match read_size(bytes, format) {
            Err(message) => Err(
                report(lang, "无法读取图片: ", "Failed to read image: ", message.as_str()),
            ),
            Ok(size) => preview_sized(bytes, format, mime, size, max, lang),
        },
    }
}

/// The side of a thumbnail: 160 unless another is asked for, between 32 and
/// 512.
pub open spec fn thumbnail_side(max: Option<u32>) -> u32 {
    match max {
        None => 160,
        Some(m) => if m < 32 {
            32
        } else if m > 512 {
            512
        } else {
            m
        },
    }
}

/// A thumbnail of a picture file, by its name in lower case.
pub fn read_thumbnail_base64(bytes: &[u8], lower: &str, max: Option<u32>, lang: &str) -> (r: Result<
    String,
    String,
>)
    ensures
        match reduced_png(bytes@, format_of(lower@), thumbnail_side(max)) {
            Err(FaultView::Read { message }) => fails_with(r, unreadable(lang@, message)),
            Err(FaultView::Write { message }) => fails_with(r, message),
            Err(FaultView::Beyond) => fails_with(r, too_large_to_show(lang@)),
            Ok(png) => if 4 * png.len() > usize::MAX {
                fails_with(r, too_large_to_show(lang@))
            } else {
                r matches Ok(url) && url@ == data_url_text("image/png"@, png)
            },
        },
{
    let side: u32 = match max {
        None => 160,
        Some(m) => if m < 32 {
            32
        } else if m > 512 {
            512
        } else {
            m
        },
    };
    match reduce(bytes, format_for_lower(lower), side) {
        Err(Fault::Read { message }) => Err(
            report(lang, "无法读取图片: ", "Failed to read image: ", message.as_str()),
        ),
        Err(Fault::Write { message }) => Err(message),
        Err(Fault::Beyond) => Err(no_preview(lang)),
        Ok(png) => if png.len() > usize::MAX / 4 {
            Err(no_preview(lang))
        } else {
            Ok(data_url("image/png", png.as_slice()))
        },
    }
}

/// How far a task is, in percent; nothing for a task without parts.
pub fn dock_percent(done: usize, total: usize) -> (r: Option<u64>)
    ensures
        r == if total == 0 {
            None
        } else if done >= total {
            Some(100u64)
        } else {
            Some((done as int * 100 / total as int) as u64)
        },
{
    if total == 0 {
        return None;
    }
    if done >= total {
        return Some(100);
    }
    let part: u128 = done as u128 * 100 / total as u128;
    proof {
        assert(part <= 100) by (nonlinear_arith)
            requires
                part == done as int * 100 / total as int,
                0 <= done < total,
        ;
    }
    Some(part as u64)
}

/// How a run that failed is reported.
#[derive(Clone, Copy, Debug, PartialEq, Eq, Structural)]
pub enum RunFailure {
    Cancelled,
    /// The result did not pass, so it was not written.
    Refused,
    Other,
}

/// The message of a run that was cancelled.
pub open spec fn cancelled_text() -> Seq<char> {
    "\0cancelled"@
}

/// How a run that failed with a message is reported.
pub fn failure_of(message: &str) -> (r: RunFailure)
    ensures
        r == if message@ == cancelled_text() {
            RunFailure::Cancelled
        } else if contains_text(message@, "verification FAILED"@) {
            RunFailure::Refused
        } else {
            RunFailure::Other
        },
{
    let chars = chars_of(message);
    if same(chars.as_slice(), chars_of("\0cancelled").as_slice()) {
        RunFailure::Cancelled
    } else if holds_text(chars.as_slice(), chars_of("verification FAILED").as_slice()) {
        RunFailure::Refused
    } else {
        RunFailure::Other
    }
}

/// A run as the window asks for it; what it leaves out is absent.
pub struct RunRequest {
    pub root: String,
    pub files: Vec<String>,
    pub keep_work: bool,
    pub overwrite_original: bool,
    pub mask_box: Option<Vec<i64>>,
    pub any_position: Option<bool>,
    pub refine: Option<bool>,
    pub inverse: Option<bool>,
    pub profile_id: Option<String>,
    pub output_dir: Option<String>,
}

/// The box of four numbers; any other count is no box.
pub open spec fn four_numbers(v: Option<Vec<i64>>) -> Option<MaskBox> {
    match v {
        Some(b) => if b@.len() == 4 {
            Some(MaskBox { x1: b@[0], y1: b@[1], x2: b@[2], y2: b@[3] })
        } else {
            None
        },
        None => None,
    }
}

/// What was said, or else a default.
pub open spec fn or_else(v: Option<bool>, otherwise: bool) -> bool {
    match v {
        Some(b) => b,
        None => otherwise,
    }
}

fn said_or(v: Option<bool>, otherwise: bool) -> (r: bool)
    ensures
        r == or_else(v, otherwise),
{
    match v {
        Some(b) => b,
        None => otherwise,
    }
}

/// The options of a run that the window asks for.
pub fn run_pipeline(request: RunRequest) -> (o: PipelineOptions)
    ensures
        o.root == request.root,
        o.files == request.files,
        o.keep_work == request.keep_work,
        o.mask_box == four_numbers(request.mask_box),
        o.any_position == or_else(request.any_position, false),
        o.overwrite_original == request.overwrite_original,
        o.use_profile,
        !o.force,
        o.inverse == or_else(request.inverse, false),
        o.retry,
        o.refine == or_else(request.refine, true),
        o.forced_profile == request.profile_id,
        o.output_dir_override == request.output_dir,
{
    let mask_box: Option<MaskBox> = match &request.mask_box {
        Some(b) => if b.len() == 4 {
            Some(MaskBox { x1: b[0], y1: b[1], x2: b[2], y2: b[3] })
        } else {
            None
        },
        None => None,
    };
    PipelineOptions {
        root: request.root,
        files: request.files,
        keep_work: request.keep_work,
        mask_box,
        any_position: said_or(request.any_position, false),
        overwrite_original: request.overwrite_original,
        use_profile: true,
        force: false,
        inverse: said_or(request.inverse, false),
        retry: true,
        refine: said_or(request.refine, true),
        forced_profile: request.profile_id,
        output_dir_override: request.output_dir,
    }
}

/// The options under which the last run's leftovers are removed, or why there
/// is nothing to remove.
pub fn cleanup_pipeline(root: Option<String>, files: Vec<String>, lang: &str) -> (r: Result<
    PipelineOptions,
    String,
>)
    ensures
        match root {
            None => fails_with(r, said(lang@, "还没有处理记录"@, "No processing record yet"@)),
            Some(path) => if files@.len() == 0 {
                fails_with(r, said(lang@, "没有可清理的记录"@, "Nothing to clean up"@))
            } else {
                r matches Ok(o) && {
                    &&& o.root == path
                    &&& o.files == files
                    &&& !o.keep_work
                    &&& o.mask_box is None
                    &&& !o.any_position
                    &&& o.overwrite_original
                    &&& o.use_profile
                    &&& !o.force
                    &&& !o.inverse
                    &&& o.retry
                    &&& !o.refine
                    &&& o.forced_profile is None
                    &&& o.output_dir_override is None
                }
            },
        },
{
    match root {
        None => Err(tr(lang, "还没有处理记录", "No processing record yet")),
        Some(root) => {
            if files.len() == 0 {
                return Err(tr(lang, "没有可清理的记录", "Nothing to clean up"));
            }
            Ok(
                PipelineOptions {
                    root,
                    files,
                    keep_work: false,
                    mask_box: None,
                    any_position: false,
                    overwrite_original: true,
                    use_profile: true,
                    force: false,
                    inverse: false,
                    retry: true,
                    refine: false,
                    forced_profile: None,
                    output_dir_override: None,
                },
            )
        },
    }
}

/// The label of a mark to learn, or why nothing is learned: fewer than two
/// pictures. Without a label it is `learned`.
pub fn learn_label(files: usize, label: &str, lang: &str) -> (r: Result<String, String>)
    ensures
        if files < 2 {
            fails_with(
                r,
                said(
                    lang@,
                    "请至少选中 2 张含同一款水印的图片"@,
                    "Select at least 2 images with the same watermark"@,
                ),
            )
        } else {
            r matches Ok(t) && t@ == if trimmed(label@).len() == 0 {
                "learned"@
            } else {
                trimmed(label@)
            }
        },
{
    if files < 2 {
        return Err(
            tr(
                lang,
                "请至少选中 2 张含同一款水印的图片",
                "Select at least 2 images with the same watermark",
            ),
        );
    }
    let core = trim(chars_of(label).as_slice());
    if core.len() == 0 {
        Ok(String::from_str("learned"))
    } else {
        Ok(text_of(core.as_slice()))
    }
}

/// How a learned mark did in the pictures that it was learned from.
#[derive(Clone, Copy)]
pub struct Attempt {
    pub hits: usize,
    pub samples: usize,
    pub mean: Number,
}

/// A mark is worth keeping if it is found in at least two thirds of the
/// pictures, and at least once.
pub open spec fn is_kept(a: Attempt) -> bool {
    3 * a.hits >= 2 * a.samples && a.hits > 0
}

pub fn keeps(a: &Attempt) -> (r: bool)
    ensures
        r == is_kept(*a),
{
    3 * a.hits as u128 >= 2 * a.samples as u128 && a.hits > 0
}

/// The first of the first `n` attempts worth keeping with the highest mean.
pub open spec fn best_attempt(attempts: Seq<Option<Attempt>>, n: int) -> Option<int>
    decreases n,
{
    if n <= 0 {
        None
    } else {
        match (best_attempt(attempts, n - 1), attempts[n - 1]) {
            (before, None) => before,
            (before, Some(a)) => if !is_kept(a) {
                before
            } else {
                match before {
                    None => Some(n - 1),
                    Some(k) => if attempts[k].unwrap().mean.spec_lt(a.mean) {
                        Some(n - 1)
                    } else {
                        before
                    },
                }
            },
        }
    }
}

/// The attempt whose mark is kept, if any.
pub fn learn_watermark(attempts: &[Option<Attempt>]) -> (r: Option<usize>)
    ensures
        match best_attempt(attempts@, attempts@.len() as int) {
            None => r is None,
            Some(k) => r matches Some(i) && i == k,
        },
        r matches Some(i) ==> i < attempts@.len() && attempts@[i as int] is Some && is_kept(
            attempts@[i as int].unwrap(),
        ),
{
    let n: usize = attempts.len();
    let mut best: Option<(usize, Number)> = None;
    let mut k: usize = 0;
    while k < n
        invariant
            n == attempts@.len(),
            k <= n,
            match best {
                None => best_attempt(attempts@, k as int) is None,
                Some(b) => {
                    &&& best_attempt(attempts@, k as int) == Some(b.0 as int)
                    &&& b.0 < k
                    &&& attempts@[b.0 as int] is Some
                    &&& is_kept(attempts@[b.0 as int].unwrap())
                    &&& attempts@[b.0 as int].unwrap().mean == b.1
                },
            },
        decreases n - k,
    {
        match attempts[k] {
            None => {},
            Some(a) => {
                if keeps(&a) {
                    let better: bool = match best {
                        None => true,
                        Some(b) => b.1.less(a.mean),
                    };
                    if better {
                        best = Some((k, a.mean));
                    }
                }
            },
        }
        k = k + 1;
    }
    match best {
        None => None,
        Some(b) => Some(b.0),
    }
}

/// What is missing, if the model is not there.
pub fn env_status(ready: bool) -> (r: String)
    ensures
        r@ == if ready {
            ""@
        } else {
            "Inpainting model not downloaded yet: click \"Download Model\" to fetch it online (~200MB, no Python required)"@
        },
{
    if ready {
        String::from_str("")
    } else {
        String::from_str(
            "Inpainting model not downloaded yet: click \"Download Model\" to fetch it online (~200MB, no Python required)",
        )
    }
}

/// A folder of an earlier import, by its name.
pub fn is_import_folder(name: &str) -> (r: bool)
    ensures
        r == has_head(name@, "import-"@),
{
    starts_with(chars_of(name).as_slice(), chars_of("import-").as_slice())
}

/// No attempt worth keeping has a higher mean than the one that is kept, if
/// every mean is a number.
pub proof fn lemma_best_attempt_highest(attempts: Seq<Option<Attempt>>, n: int, k: int)
    requires
        0 <= k < n <= attempts.len(),
        attempts[k] is Some,
        is_kept(attempts[k].unwrap()),
        forall|i: int|
            0 <= i < n ==> (#[trigger] attempts[i] matches Some(a) ==> a.mean.kind()
                != Class::Nan),
    ensures
        best_attempt(attempts, n) matches Some(b) && 0 <= b < n && attempts[b] is Some
            && is_kept(attempts[b].unwrap()) && !attempts[b].unwrap().mean.spec_lt(
            attempts[k].unwrap().mean,
        ),
    decreases n,
{
    lemma_best_attempt_place(attempts, n);
    lemma_best_attempt_place(attempts, n - 1);
    let mean = attempts[k].unwrap().mean;
    if k == n - 1 {
        lemma_number_strict(mean, mean);
    } else {
        lemma_best_attempt_highest(attempts, n - 1, k);
        let before = best_attempt(attempts, n - 1).unwrap();
        let now = best_attempt(attempts, n).unwrap();
        if now != before {
            let (old_high, new_high) = (attempts[before].unwrap().mean, attempts[now].unwrap().mean);
            lemma_number_strict(old_high, new_high);
            lemma_number_order(mean, old_high, new_high);
        }
    }
}

proof fn lemma_best_attempt_place(attempts: Seq<Option<Attempt>>, n: int)
    requires
        n <= attempts.len(),
    ensures
        best_attempt(attempts, n) matches Some(b) ==> 0 <= b < n && attempts[b] is Some
            && is_kept(attempts[b].unwrap()),
    decreases n,
{
    if n > 0 {
        lemma_best_attempt_place(attempts, n - 1);
    }
}

} // verus!
