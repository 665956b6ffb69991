//! Calls into the `image` crate that read, write and resample pictures.

use crate::names::Format;
use crate::raster::{measurable, Mask, Picture};
use crate::text::{ascii_lowered, chars_of, lower_ascii, same};
use vstd::prelude::*;

verus! {

/// What a result with bytes or a message holds.
pub open spec fn bytes_view(r: Result<Vec<u8>, String>) -> Result<Seq<u8>, Seq<char>> {
    match r {
        Ok(v) => Ok(v@),
        Err(e) => Err(e@),
    }
}

/// What a result with a decoded picture or a message holds.
pub open spec fn plain_view(r: Result<(u32, u32, Vec<u8>), String>) -> Result<Plain, Seq<char>> {
    match r {
        Ok(p) => Ok((p.0, p.1, p.2@)),
        Err(e) => Err(e@),
    }
}

/// How a picture is resampled.
#[derive(Clone, Copy, Debug, PartialEq, Eq, Structural)]
pub enum Sampling {
    Nearest,
    Triangle,
}

/// The bytes of a grey picture after resampling to `nw` x `nh`, as
/// `image::imageops::resize` gives them.
pub uninterp spec fn resized_gray(
    w: u32,
    h: u32,
    data: Seq<u8>,
    nw: u32,
    nh: u32,
    sampling: Sampling,
) -> Seq<u8>;

/// A side of `n` pixels can be resampled to `m`: the middles of pixels are found
/// in single precision, closely enough for every target pixel to have a source
/// pixel with a weight, if one side has at most 2^20 pixels, or both at most
/// 2^22.
pub open spec fn side_fits(n: u32, m: u32) -> bool {
    n <= 0x10_0000 || m <= 0x10_0000 || (n <= 0x40_0000 && m <= 0x40_0000)
}

/// Whether a side of `n` pixels can be resampled to `m`.
pub fn fits_side(n: u32, m: u32) -> (r: bool)
    ensures
        r == side_fits(n, m),
{
    n <= 0x10_0000 || m <= 0x10_0000 || (n <= 0x40_0000 && m <= 0x40_0000)
}

/// A picture of `w` x `h` can be resampled to `nw` x `nh`: both its sides can,
/// and what is between and after the two passes can be addressed.
pub open spec fn resamples(w: u32, h: u32, nw: u32, nh: u32) -> bool {
    &&& side_fits(w, nw)
    &&& side_fits(h, nh)
    &&& w * nh <= 0x400_0000_0000_0000
    &&& nw * nh <= 0x400_0000_0000_0000
}

/// `image::imageops::resize` on a grey picture: a picture of the asked size,
/// a function of the source picture, the size and the filter. With the triangle
/// filter it panics where no source pixel has a weight, which `side_fits` rules
/// out; nearest pixels always have one.
#[verifier::external_body]
pub(crate) fn resize_gray(w: u32, h: u32, data: &[u8], nw: u32, nh: u32, sampling: Sampling) -> (r:
    Vec<u8>)
    requires
        data@.len() == w * h,
        sampling == Sampling::Triangle ==> side_fits(w, nw) && side_fits(h, nh),
        w > 0 && h > 0 ==> w * nh <= 0x400_0000_0000_0000,
        nw * nh <= 0x400_0000_0000_0000,
    ensures
        r@ == resized_gray(w, h, data@, nw, nh, sampling),
        r@.len() == nw * nh,
{
    let filter = match sampling {
        Sampling::Nearest => image::imageops::FilterType::Nearest,
        Sampling::Triangle => image::imageops::FilterType::Triangle,
    };
    let source = image::GrayImage::from_raw(w, h, data.to_vec()).unwrap();
    image::imageops::resize(&source, nw, nh, filter).into_raw()
}

/// Every byte is zero.
pub open spec fn all_zero(data: Seq<u8>) -> bool {
    forall|i: int| 0 <= i < data.len() ==> #[trigger] data[i] == 0
}

/// Resampling the `w` x `h` grey picture `data` to `nw` x `nh` with the Lanczos
/// filter may give `out`.
pub uninterp spec fn may_smooth_gray(
    w: u32,
    h: u32,
    data: Seq<u8>,
    nw: u32,
    nh: u32,
    out: Seq<u8>,
) -> bool;

/// `image::imageops::resize` on a grey picture with the Lanczos filter: one of
/// the pictures that it may give for this picture and size, of the asked size,
/// black if the source is. The values themselves rest on the machine's sine
/// function, so nothing else is said of them.
#[verifier::external_body]
pub(crate) fn smooth_gray(w: u32, h: u32, data: &[u8], nw: u32, nh: u32) -> (r: Vec<u8>)
    requires
        data@.len() == w * h,
        resamples(w, h, nw, nh),
    ensures
        may_smooth_gray(w, h, data@, nw, nh, r@),
        r@.len() == nw * nh,
        all_zero(data@) ==> all_zero(r@),
{
    let source = image::GrayImage::from_raw(w, h, data.to_vec()).unwrap();
    image::imageops::resize(&source, nw, nh, image::imageops::FilterType::Lanczos3).into_raw()
}

/// Resampling the `w` x `h` colour picture `data` to `nw` x `nh` with the
/// Lanczos filter may give `out`.
pub uninterp spec fn may_smooth_rgb(
    w: u32,
    h: u32,
    data: Seq<u8>,
    nw: u32,
    nh: u32,
    out: Seq<u8>,
) -> bool;

/// `image::imageops::resize` on a colour picture with the Lanczos filter: one of
/// the pictures that it may give for this picture and size, of the asked size,
/// black if the source is. The values themselves rest on the machine's sine
/// function, so nothing else is said of them.
#[verifier::external_body]
pub(crate) fn smooth_rgb(w: u32, h: u32, data: &[u8], nw: u32, nh: u32) -> (r: Vec<u8>)
    requires
        data@.len() == 3 * (w * h),
        resamples(w, h, nw, nh),
    ensures
        may_smooth_rgb(w, h, data@, nw, nh, r@),
        r@.len() == 3 * (nw * nh),
        all_zero(data@) ==> all_zero(r@),
{
    let source = image::RgbImage::from_raw(w, h, data.to_vec()).unwrap();
    image::imageops::resize(&source, nw, nh, image::imageops::FilterType::Lanczos3).into_raw()
}

/// Width, height and bytes of a picture.
pub type Plain = (u32, u32, Seq<u8>);

/// The kinds of picture files that can be read.
#[derive(Clone, Copy, Debug, PartialEq, Eq, Structural)]
pub enum Container {
    Png,
    Jpeg,
    WebP,
    Bmp,
    Tiff,
}

/// The kind of file that a format is kept in.
pub open spec fn contained(format: Format) -> Container {
    match format {
        Format::Png => Container::Png,
        Format::Jpeg => Container::Jpeg,
        Format::WebP => Container::WebP,
    }
}

pub(crate) fn container_of(format: Format) -> (r: Container)
    ensures
        r == contained(format),
{
    match format {
        Format::Png => Container::Png,
        Format::Jpeg => Container::Jpeg,
        Format::WebP => Container::WebP,
    }
}

/// The kind of file that an extension in lower case stands for.
pub open spec fn extension_kind(ext: Seq<char>) -> Option<Container> {
    if ext == "png"@ || ext == "apng"@ {
        Some(Container::Png)
    } else if ext == "jpg"@ || ext == "jpeg"@ || ext == "jfif"@ {
        Some(Container::Jpeg)
    } else if ext == "webp"@ {
        Some(Container::WebP)
    } else if ext == "bmp"@ {
        Some(Container::Bmp)
    } else if ext == "tif"@ || ext == "tiff"@ {
        Some(Container::Tiff)
    } else {
        None
    }
}

/// The kind of a picture file by the extension of its name, whose ASCII letters
/// count alike in both cases.
pub fn container_for(extension: &str) -> (r: Option<Container>)
    ensures
        r == extension_kind(ascii_lowered(extension@)),
{
    let given = chars_of(extension);
    let lower = lower_ascii(given.as_slice());
    let ext = lower.as_slice();
    if same(ext, chars_of("png").as_slice()) || same(ext, chars_of("apng").as_slice()) {
        Some(Container::Png)
    } else if same(ext, chars_of("jpg").as_slice()) || same(ext, chars_of("jpeg").as_slice())
        || same(ext, chars_of("jfif").as_slice()) {
        Some(Container::Jpeg)
    } else if same(ext, chars_of("webp").as_slice()) {
        Some(Container::WebP)
    } else if same(ext, chars_of("bmp").as_slice()) {
        Some(Container::Bmp)
    } else if same(ext, chars_of("tif").as_slice()) || same(ext, chars_of("tiff").as_slice()) {
        Some(Container::Tiff)
    } else {
        None
    }
}

/// A decoded picture of any sample type, as the `image` crate holds it.
#[verifier::external_type_specification]
#[verifier::external_body]
pub struct ExDynamicImage(image::DynamicImage);

/// What a result with a decoded picture or a message holds.
pub open spec fn image_view(r: Result<image::DynamicImage, String>) -> Result<
    image::DynamicImage,
    Seq<char>,
> {
    match r {
        Ok(img) => Ok(img),
        Err(e) => Err(e@),
    }
}

/// The picture in a file of a given kind, or the message of what went wrong.
pub uninterp spec fn decoded(bytes: Seq<u8>, kind: Container) -> Result<
    image::DynamicImage,
    Seq<char>,
>;

/// The width and the height of a decoded picture.
pub uninterp spec fn extent(img: image::DynamicImage) -> (u32, u32);

/// `image::load_from_memory_with_format`: the picture in a file; a function of
/// the bytes and the kind of file. Pictures of more than 2^29 bytes are refused
/// by the crate's default limits, so there are at most so many pixels. On a
/// damaged JPEG file products of the decoder, `zune-jpeg`, can leave 32 bits.
/// They wrap, as the contract takes it, where that crate is built without
/// overflow checks: so it is in a release build, and in any build with the
/// settings of `extras/profile.toml`. Built with them, it stops the program.
#[verifier::external_body]
pub(crate) fn decode(bytes: &[u8], kind: Container) -> (r: Result<image::DynamicImage, String>)
    ensures
        image_view(r) == decoded(bytes@, kind),
        r matches Ok(img) ==> extent(img).0 * extent(img).1 <= 0x2000_0000,
{
    let format = match kind {
        Container::Png => image::ImageFormat::Png,
        Container::Jpeg => image::ImageFormat::Jpeg,
        Container::WebP => image::ImageFormat::WebP,
        Container::Bmp => image::ImageFormat::Bmp,
        Container::Tiff => image::ImageFormat::Tiff,
    };
    image::load_from_memory_with_format(bytes, format).map_err(|e| e.to_string())
}

/// The colour pixels of a decoded picture.
pub uninterp spec fn rgb_pixels(img: image::DynamicImage) -> Plain;

/// `image::DynamicImage::to_rgb8`: the picture in three bytes per pixel, of the
/// same size; a function of the picture.
#[verifier::external_body]
fn to_rgb(img: &image::DynamicImage) -> (r: (u32, u32, Vec<u8>))
    ensures
        (r.0, r.1, r.2@) == rgb_pixels(*img),
        (r.0, r.1) == extent(*img),
        r.2@.len() == 3 * (r.0 * r.1),
{
    let rgb = img.to_rgb8();
    (rgb.width(), rgb.height(), rgb.into_raw())
}

/// How many channels a decoded picture has.
pub uninterp spec fn channels(img: image::DynamicImage) -> u8;

/// `image::ColorType::channel_count` of `image::DynamicImage::color`; a function
/// of the picture.
#[verifier::external_body]
pub(crate) fn channel_count(img: &image::DynamicImage) -> (r: u8)
    ensures
        r == channels(*img),
{
    img.color().channel_count()
}

/// Turning a decoded picture grey may give these pixels.
pub uninterp spec fn may_gray(img: image::DynamicImage, p: Plain) -> bool;

/// Turning a decoded picture grey gives these pixels if it gives any.
pub open spec fn only_gray(img: image::DynamicImage, p: Plain) -> bool {
    forall|q: Plain| #[trigger] may_gray(img, q) ==> q == p
}

/// `image::DynamicImage::to_luma8`: the picture in one byte per pixel, one of
/// those that it may give for this picture, of the same size. For a picture
/// without colours, that is with one channel or two, it may give no other. The
/// tone of a colour is a weighted sum, which is rounded once or twice depending
/// on the machine, so nothing else is said of it.
#[verifier::external_body]
fn to_gray(img: &image::DynamicImage) -> (r: (u32, u32, Vec<u8>))
    ensures
        may_gray(*img, (r.0, r.1, r.2@)),
        channels(*img) <= 2 ==> only_gray(*img, (r.0, r.1, r.2@)),
        (r.0, r.1) == extent(*img),
        r.2@.len() == r.0 * r.1,
{
    let gray = img.to_luma8();
    (gray.width(), gray.height(), gray.into_raw())
}

/// The colour pixels of a picture file of a given kind, or the message of what
/// went wrong.
pub open spec fn decoded_as(bytes: Seq<u8>, kind: Container) -> Result<Plain, Seq<char>> {
    match decoded(bytes, kind) {
        Ok(img) => Ok(rgb_pixels(img)),
        Err(message) => Err(message),
    }
}

/// The colour pixels of a picture file in a given format, or the message of
/// what went wrong.
pub open spec fn decoded_rgb(bytes: Seq<u8>, format: Format) -> Result<Plain, Seq<char>> {
    decoded_as(bytes, contained(format))
}

/// The message for a picture whose size is beyond what can be measured.
pub open spec fn too_large() -> Seq<char> {
    "picture too large"@
}

/// What keeps a picture file in a given format from being read in grey, if
/// anything does.
pub open spec fn gray_fault(bytes: Seq<u8>, format: Format) -> Option<Seq<char>> {
    match decoded(bytes, contained(format)) {
        Ok(img) => if measurable(extent(img).0 as int, extent(img).1 as int) {
            None
        } else {
            Some(too_large())
        },
        Err(message) => Some(message),
    }
}

/// The size of a picture file in a given format, where it can be read.
pub open spec fn gray_size(bytes: Seq<u8>, format: Format) -> (u32, u32) {
    extent(decoded(bytes, contained(format))->Ok_0)
}

/// Reading a picture file in a given format in grey may give these pixels: they
/// have the size of the picture, and a picture without colours may give no
/// others.
pub open spec fn reads_gray(bytes: Seq<u8>, format: Format, p: Plain) -> bool {
    &&& decoded(bytes, contained(format)) matches Ok(img)
    &&& may_gray(img, p)
    &&& (p.0, p.1) == extent(img)
    &&& channels(img) <= 2 ==> only_gray(img, p)
}

/// Decodes a colour picture from a file of a given kind.
pub fn open_contained(bytes: &[u8], kind: Container) -> (r: Result<Picture, String>)
    ensures
        match decoded_as(bytes@, kind) {
            Ok(p) => if measurable(p.0 as int, p.1 as int) {
                r matches Ok(picture) && picture.wf() && picture.width == p.0 && picture.height
                    == p.1 && picture.data@ == p.2
            } else {
                r matches Err(e) && e@ == too_large()
            },
            Err(message) => r matches Err(e) && e@ == message,
        },
{
    match decode(bytes, kind) {
        Ok(img) => {
            let (w, h, data) = to_rgb(&img);
            match Picture::new(w, h, data) {
                Some(picture) => Ok(picture),
                None => Err(String::from_str("picture too large")),
            }
        },
        Err(e) => Err(e),
    }
}

/// Decodes a colour picture.
pub fn open_picture(bytes: &[u8], format: Format) -> (r: Result<Picture, String>)
    ensures
        match decoded_rgb(bytes@, format) {
            Ok(p) => if measurable(p.0 as int, p.1 as int) {
                r matches Ok(picture) && picture.wf() && picture.width == p.0 && picture.height
                    == p.1 && picture.data@ == p.2
            } else {
                r matches Err(e) && e@ == too_large()
            },
            Err(message) => r matches Err(e) && e@ == message,
        },
{
    open_contained(bytes, container_of(format))
}

/// Decodes a mask.
pub fn open_mask(bytes: &[u8], format: Format) -> (r: Result<Mask, String>)
    ensures
        match gray_fault(bytes@, format) {
            None => {
                &&& r matches Ok(mask)
                &&& mask.wf()
                &&& reads_gray(bytes@, format, (mask.width, mask.height, mask.data@))
            },
            Some(message) => r matches Err(e) && e@ == message,
        },
{
    match decode(bytes, container_of(format)) {
        Ok(img) => {
            let (w, h, data) = to_gray(&img);
            match Mask::new(w, h, data) {
                Some(mask) => Ok(mask),
                None => Err(String::from_str("picture too large")),
            }
        },
        Err(e) => Err(e),
    }
}

/// The PNG file that holds a colour picture, or the message of what went wrong.
pub uninterp spec fn encoded_png(w: u32, h: u32, data: Seq<u8>) -> Result<Seq<u8>, Seq<char>>;

/// The lossless WebP file that holds a colour picture, or the message of what
/// went wrong.
pub uninterp spec fn encoded_webp(w: u32, h: u32, data: Seq<u8>) -> Result<Seq<u8>, Seq<char>>;

/// The JPEG file of a given quality that holds a colour picture, or the message
/// of what went wrong.
pub uninterp spec fn encoded_jpeg(w: u32, h: u32, data: Seq<u8>, quality: u8) -> Result<
    Seq<u8>,
    Seq<char>,
>;

/// The quality at which JPEG files are written.
pub const JPEG_QUALITY: u8 = 92;

/// The file that holds a colour picture in a given format, JPEG at quality 92,
/// or the message of what went wrong.
pub open spec fn encoded_rgb(w: u32, h: u32, data: Seq<u8>, format: Format) -> Result<
    Seq<u8>,
    Seq<char>,
> {
    match format {
        Format::Png => encoded_png(w, h, data),
        Format::Jpeg => encoded_jpeg(w, h, data, 92),
        Format::WebP => encoded_webp(w, h, data),
    }
}

/// The bytes are a PNG file of this colour picture.
pub open spec fn reads_as_rgb(bytes: Seq<u8>, w: u32, h: u32, data: Seq<u8>) -> bool {
    match decoded_rgb(bytes, Format::Png) {
        Ok(p) => p.0 == w && p.1 == h && p.2 == data,
        Err(_) => false,
    }
}

/// The bytes are a PNG file of this grey picture, which has no colours.
pub open spec fn reads_as_gray(bytes: Seq<u8>, w: u32, h: u32, data: Seq<u8>) -> bool {
    &&& decoded(bytes, Container::Png) matches Ok(img)
    &&& channels(img) <= 2
    &&& extent(img) == (w, h)
    &&& only_gray(img, (w, h, data))
}

/// A file that holds a grey picture can be read in grey, and reading it gives
/// that picture and no other.
pub proof fn lemma_gray_reads_back(bytes: Seq<u8>, w: u32, h: u32, data: Seq<u8>, p: Plain)
    requires
        reads_as_gray(bytes, w, h, data),
        measurable(w as int, h as int),
    ensures
        gray_fault(bytes, Format::Png) is None,
        gray_size(bytes, Format::Png) == (w, h),
        reads_gray(bytes, Format::Png, p) ==> p == (w, h, data),
{
}

/// `image::ImageBuffer::write_to` as PNG: the file that holds a colour picture;
/// a function of the picture. It loses nothing: the file reads as the picture,
/// up to 2^25 pixels, whose buffers stay far below the decoder's limit.
#[verifier::external_body]
fn encode_png(w: u32, h: u32, data: &[u8]) -> (r: Result<Vec<u8>, String>)
    requires
        data@.len() == 3 * (w * h),
    ensures
        bytes_view(r) == encoded_png(w, h, data@),
        r matches Ok(b) ==> w * h <= 0x200_0000 ==> reads_as_rgb(b@, w, h, data@),
{
    let img = image::RgbImage::from_raw(w, h, data.to_vec()).unwrap();
    let mut out = std::io::Cursor::new(Vec::new());
    img.write_to(&mut out, image::ImageFormat::Png).map_err(|e| e.to_string())?;
    Ok(out.into_inner())
}

/// `image::ImageBuffer::write_to` as WebP: the file that holds a colour picture;
/// a function of the picture.
#[verifier::external_body]
fn encode_webp(w: u32, h: u32, data: &[u8]) -> (r: Result<Vec<u8>, String>)
    requires
        data@.len() == 3 * (w * h),
    ensures
        bytes_view(r) == encoded_webp(w, h, data@),
{
    let img = image::RgbImage::from_raw(w, h, data.to_vec()).unwrap();
    let mut out = std::io::Cursor::new(Vec::new());
    img.write_to(&mut out, image::ImageFormat::WebP).map_err(|e| e.to_string())?;
    Ok(out.into_inner())
}

/// `image::ImageBuffer::write_with_encoder` with
/// `image::codecs::jpeg::JpegEncoder::new_with_quality`: the file that holds a
/// colour picture; a function of the picture and the quality.
#[verifier::external_body]
fn encode_jpeg(w: u32, h: u32, data: &[u8], quality: u8) -> (r: Result<Vec<u8>, String>)
    requires
        data@.len() == 3 * (w * h),
        1 <= quality <= 100,
    ensures
        bytes_view(r) == encoded_jpeg(w, h, data@, quality),
{
    let img = image::RgbImage::from_raw(w, h, data.to_vec()).unwrap();
    let mut out = std::io::Cursor::new(Vec::new());
    let encoder = image::codecs::jpeg::JpegEncoder::new_with_quality(&mut out, quality);
    img.write_with_encoder(encoder).map_err(|e| e.to_string())?;
    Ok(out.into_inner())
}

/// Writes a colour picture as a file, JPEG at quality 92.
pub fn save_result(picture: &Picture, format: Format) -> (r: Result<Vec<u8>, String>)
    requires
        picture.wf(),
    ensures
        bytes_view(r) == encoded_rgb(picture.width, picture.height, picture.data@, format),
        r matches Ok(b) ==> format == Format::Png && picture.area() <= 0x200_0000
            ==> reads_as_rgb(b@, picture.width, picture.height, picture.data@),
{
    let (w, h): (u32, u32) = (picture.width, picture.height);
    match format {
        Format::Png => encode_png(w, h, picture.data.as_slice()),
        Format::Jpeg => encode_jpeg(w, h, picture.data.as_slice(), JPEG_QUALITY),
        Format::WebP => encode_webp(w, h, picture.data.as_slice()),
    }
}

/// The PNG file that holds a mask, or the message of what went wrong.
pub uninterp spec fn encoded_gray(w: u32, h: u32, data: Seq<u8>) -> Result<Seq<u8>, Seq<char>>;

/// `image::ImageBuffer::write_to` as PNG: the file that holds a grey picture; a
/// function of the picture, and it reads as the picture, up to 2^25 pixels.
#[verifier::external_body]
fn store_gray(w: u32, h: u32, data: &[u8]) -> (r: Result<Vec<u8>, String>)
    requires
        data@.len() == w * h,
    ensures
        bytes_view(r) == encoded_gray(w, h, data@),
        r matches Ok(b) ==> w * h <= 0x200_0000 ==> reads_as_gray(b@, w, h, data@),
{
    let img = image::GrayImage::from_raw(w, h, data.to_vec()).unwrap();
    let mut out = std::io::Cursor::new(Vec::new());
    img.write_to(&mut out, image::ImageFormat::Png).map_err(|e| e.to_string())?;
    Ok(out.into_inner())
}

/// Writes a mask as a PNG file.
pub fn save_mask(mask: &Mask) -> (r: Result<Vec<u8>, String>)
    requires
        mask.wf(),
    ensures
        bytes_view(r) == encoded_gray(mask.width, mask.height, mask.data@),
        r matches Ok(b) ==> mask.width * mask.height <= 0x200_0000 ==> reads_as_gray(
            b@,
            mask.width,
            mask.height,
            mask.data@,
        ),
{
    store_gray(mask.width, mask.height, mask.data.as_slice())
}

/// The PNG file of a decoded picture, or the message of what went wrong.
pub uninterp spec fn png_file(img: image::DynamicImage) -> Result<Seq<u8>, Seq<char>>;

/// `image::DynamicImage::write_to` as PNG: the file that holds a decoded
/// picture; a function of the picture.
#[verifier::external_body]
pub(crate) fn write_png(img: &image::DynamicImage) -> (r: Result<Vec<u8>, String>)
    ensures
        bytes_view(r) == png_file(*img),
{
    let mut out = std::io::Cursor::new(Vec::new());
    img.write_to(&mut out, image::ImageFormat::Png).map_err(|e| e.to_string())?;
    Ok(out.into_inner())
}

} // verus!
