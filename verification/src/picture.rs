//! Pictures: decoding, fitting them to a device, splitting double pages and
//! encoding them as JPEG.
//!
//! Pixels are computed in floating point, with instructions that differ between
//! machines. So what the image crate makes of pixels is named by relations
//! between what goes in and what may come out, not by functions.

use crate::archive;
use crate::bytes;
use crate::sniff;
use crate::text::join;
use image::DynamicImage;
use std::io::Cursor;
use vstd::prelude::*;

verus! {

// ---------------------------------------------------------------------------
// The image crate
// ---------------------------------------------------------------------------

#[verifier::external_type_specification]
#[verifier::external_body]
pub struct ExDynamicImage(image::DynamicImage);

/// How the pixels of a picture are stored.
pub enum Layout {
    Gray8,
    GrayAlpha8,
    Rgb8,
    Rgba8,
    Gray16,
    GrayAlpha16,
    Rgb16,
    Rgba16,
    RgbFloat,
    RgbaFloat,
}

/// How many bytes a pixel takes.
pub open spec fn pixel_bytes(layout: Layout) -> nat {
    match layout {
        Layout::Gray8 => 1,
        Layout::GrayAlpha8 => 2,
        Layout::Rgb8 => 3,
        Layout::Rgba8 => 4,
        Layout::Gray16 => 2,
        Layout::GrayAlpha16 => 4,
        Layout::Rgb16 => 6,
        Layout::Rgba16 => 8,
        Layout::RgbFloat => 12,
        Layout::RgbaFloat => 16,
    }
}

/// What a picture holds; `samples` are all bytes that are kept for its pixels.
pub struct Picture {
    pub width: u32,
    pub height: u32,
    pub layout: Layout,
    pub samples: Seq<u8>,
}

/// Whether a picture keeps just the bytes of its pixels. An image can be made
/// over a longer buffer, which the encoder does not take.
pub open spec fn is_full(p: Picture) -> bool {
    p.samples.len() == p.width * p.height * pixel_bytes(p.layout)
}

/// What an image holds.
pub uninterp spec fn picture(img: DynamicImage) -> Picture;

/// Why a picture could not be decoded.
pub enum DecodeFailure {
    /// Its format could not be looked for.
    Format(String),
    /// It is damaged, or of no known format.
    Decode(String),
}

/// What decoding came to, as plain values.
pub enum Decoded {
    Picture(Picture),
    NoFormat(Seq<char>),
    Broken(Seq<char>),
}

/// What decoding gave.
pub open spec fn decode_view(r: Result<DynamicImage, DecodeFailure>) -> Decoded {
    match r {
        Ok(img) => Decoded::Picture(picture(img)),
        Err(DecodeFailure::Format(e)) => Decoded::NoFormat(e@),
        Err(DecodeFailure::Decode(e)) => Decoded::Broken(e@),
    }
}

/// Whether decoding the bytes may come to this.
pub uninterp spec fn decodes(raw: Seq<u8>, outcome: Decoded) -> bool;

/// The dimensions that the header of an encoded picture gives, if any.
pub uninterp spec fn header_dimensions(raw: Seq<u8>) -> Option<(u32, u32)>;

/// The piece of a picture from column `x` and row `y` on.
pub uninterp spec fn cropped(p: Picture, x: u32, y: u32, width: u32, height: u32) -> Picture;

/// How pixels are averaged when a picture is made smaller.
#[derive(Debug, Clone, Copy, PartialEq, Eq, Structural)]
pub enum Filter {
    Triangle,
    CatmullRom,
}

/// Whether fitting a picture into a width and height may give another.
pub uninterp spec fn shrinks_to(p: Picture, width: u32, height: u32, filter: Filter, q: Picture) -> bool;

/// Whether the gray form of a picture may be another.
pub uninterp spec fn grays_to(p: Picture, q: Picture) -> bool;

/// Whether raising the contrast of the gray form of a picture may give another.
pub uninterp spec fn gray_contrasts_to(p: Picture, amount: u8, q: Picture) -> bool;

/// Whether raising the contrast of the colored form of a picture may give
/// another.
pub uninterp spec fn color_contrasts_to(p: Picture, amount: u8, q: Picture) -> bool;

/// Whether encoding a picture as JPEG may give the outcome.
pub uninterp spec fn encodes_to(p: Picture, quality: u8, outcome: Result<Seq<u8>, Seq<char>>) -> bool;

/// Whether a picture can come of the bytes: it keeps just its pixels and has the
/// dimensions that the header gives.
pub open spec fn comes_of(raw: Seq<u8>, p: Picture) -> bool {
    is_full(p) && header_dimensions(raw) == Some((p.width, p.height))
}

/// `ImageReader::with_guessed_format` and `ImageReader::decode` over a cursor:
/// decodes a picture of any known format. Looking for the format only reads the
/// first bytes, which does not fail in memory. The picture is read into a buffer
/// of just its size, and has the dimensions that the same decoder gives to
/// `ImageReader::into_dimensions`.
#[verifier::external_body]
fn decode(raw: &[u8]) -> (r: Result<DynamicImage, DecodeFailure>)
    ensures
        decodes(raw@, decode_view(r)),
        decode_view(r) !is NoFormat,
        r is Ok ==> comes_of(raw@, picture(r->Ok_0)),
{
    image::ImageReader::new(Cursor::new(raw))
        .with_guessed_format()
        .map_err(|e| DecodeFailure::Format(e.to_string()))?
        .decode()
        .map_err(|e| DecodeFailure::Decode(e.to_string()))
}

/// `ImageReader::into_dimensions`: the dimensions in the header of an encoded
/// picture, which depend on nothing but its bytes.
#[verifier::external_body]
pub(crate) fn read_dimensions(raw: &[u8]) -> (r: Option<(u32, u32)>)
    ensures
        r == header_dimensions(raw@),
{
    image::ImageReader::new(Cursor::new(raw)).with_guessed_format().ok()?.into_dimensions().ok()
}

/// `DynamicImage::width` and `DynamicImage::height`.
#[verifier::external_body]
pub(crate) fn dimensions(img: &DynamicImage) -> (r: (u32, u32))
    ensures
        r == (picture(*img).width, picture(*img).height),
{
    (img.width(), img.height())
}

/// How much of a stretch lies inside a length.
pub open spec fn inside(start: u32, stretch: u32, length: u32) -> int {
    if start >= length {
        0
    } else if start + stretch <= length {
        stretch as int
    } else {
        length - start
    }
}

/// `DynamicImage::crop_imm`: copies a piece, as far as it lies inside.
#[verifier::external_body]
fn crop(img: &DynamicImage, x: u32, y: u32, width: u32, height: u32) -> (r: DynamicImage)
    ensures
        picture(r) == cropped(picture(*img), x, y, width, height),
        picture(r).width == inside(x, width, picture(*img).width),
        picture(r).height == inside(y, height, picture(*img).height),
        picture(r).layout == picture(*img).layout,
        is_full(picture(r)),
{
    img.crop_imm(x, y, width, height)
}

/// Whether a side differs from `whole * part / of` by no more than a pixel.
pub open spec fn in_proportion(side: u32, whole: u32, part: u32, of: u32) -> bool {
    -(of as int) <= side * of - whole * part <= of
}

/// `q` fits into the width and height, fills one of them, and has the shape of
/// `p` up to a pixel.
pub open spec fn fills(p: Picture, width: u32, height: u32, q: Picture) -> bool {
    &&& q.width >= 1 && q.height >= 1
    &&& width >= 1 && height >= 1 ==> q.width <= width && q.height <= height
    &&& width >= 1 && height >= 1 && p.width >= 1 && p.height >= 1 ==> {
        ||| q.width == width && in_proportion(q.height, p.height, width, p.width)
        ||| q.height == height && in_proportion(q.width, p.width, height, p.height)
    }
}

/// `DynamicImage::resize`: scales to the largest size of the same shape that
/// fits, rounded to whole pixels and to no less than one, in a buffer of just
/// that size. How pixels are stored stays as it was. It is used only to make
/// pictures smaller.
#[verifier::external_body]
fn shrink(img: &DynamicImage, width: u32, height: u32, filter: Filter) -> (r: DynamicImage)
    requires
        picture(*img).width > width || picture(*img).height > height,
    ensures
        shrinks_to(picture(*img), width, height, filter, picture(r)),
        fills(picture(*img), width, height, picture(r)),
        picture(r).layout == picture(*img).layout,
        is_full(picture(r)),
{
    let filter = match filter {
        Filter::Triangle => image::imageops::FilterType::Triangle,
        Filter::CatmullRom => image::imageops::FilterType::CatmullRom,
    };
    img.resize(width, height, filter)
}

/// `q` has the size of `p`.
pub open spec fn same_size(p: Picture, q: Picture) -> bool {
    p.width == q.width && p.height == q.height
}

/// `DynamicImage::to_luma8`: the gray form of a picture. A gray picture is copied
/// with its buffer as it is.
#[verifier::external_body]
fn gray(img: &DynamicImage) -> (r: DynamicImage)
    ensures
        grays_to(picture(*img), picture(r)),
        same_size(picture(*img), picture(r)),
        picture(r).layout is Gray8,
        is_full(picture(*img)) ==> is_full(picture(r)),
{
    DynamicImage::ImageLuma8(img.to_luma8())
}

/// `image::imageops::contrast` on `DynamicImage::to_luma8`: the gray form of a
/// picture with more contrast, by `amount` percent.
#[verifier::external_body]
fn contrast_gray(img: &DynamicImage, amount: u8) -> (r: DynamicImage)
    ensures
        gray_contrasts_to(picture(*img), amount, picture(r)),
        same_size(picture(*img), picture(r)),
        picture(r).layout is Gray8,
        is_full(picture(r)),
{
    DynamicImage::ImageLuma8(image::imageops::contrast(&img.to_luma8(), amount.into()))
}

/// `image::imageops::contrast` on `DynamicImage::to_rgba8`: the colored form of
/// a picture with more contrast, by `amount` percent.
#[verifier::external_body]
fn contrast_color(img: &DynamicImage, amount: u8) -> (r: DynamicImage)
    ensures
        color_contrasts_to(picture(*img), amount, picture(r)),
        same_size(picture(*img), picture(r)),
        picture(r).layout is Rgba8,
        is_full(picture(r)),
{
    DynamicImage::ImageRgba8(image::imageops::contrast(&img.to_rgba8(), amount.into()))
}

/// JPEG files have a side of 1 to 65535 pixels.
pub open spec fn fits_jpeg(p: Picture) -> bool {
    1 <= p.width <= 65535 && 1 <= p.height <= 65535
}

/// What starts a JPEG file.
pub open spec fn jpeg_mark() -> Seq<u8> {
    seq![0xFFu8, 0xD8, 0xFF]
}

/// `outcome` is a JPEG file with the dimensions of the picture where its sides
/// allow one, else an error.
pub open spec fn jpeg_or_error(p: Picture, outcome: Result<Seq<u8>, Seq<char>>) -> bool {
    &&& outcome is Ok <==> fits_jpeg(p)
    &&& outcome is Ok ==> jpeg_mark().is_prefix_of(outcome->Ok_0)
    &&& outcome is Ok ==> header_dimensions(outcome->Ok_0) == Some((p.width, p.height))
}

/// `JpegEncoder::new_with_quality` and `DynamicImage::write_with_encoder` into
/// memory. The encoder takes a quality below 1 for 1 and above 100 for 100, and
/// panics where the buffer of an image is longer than its pixels. The frame
/// header that it writes holds the sides of the picture, where
/// `ImageReader::into_dimensions` finds them.
#[verifier::external_body]
pub(crate) fn encode_jpeg(img: &DynamicImage, quality: u8) -> (r: Result<Vec<u8>, String>)
    requires
        is_full(picture(*img)),
    ensures
        encodes_to(picture(*img), quality, bytes_view(r)),
        jpeg_or_error(picture(*img), bytes_view(r)),
{
    let mut buf = Cursor::new(Vec::new());
    let encoder = image::codecs::jpeg::JpegEncoder::new_with_quality(&mut buf, quality);
    img.write_with_encoder(encoder).map_err(|e| e.to_string())?;
    Ok(buf.into_inner())
}

/// `RgbImage::from_raw`: takes three samples for each pixel, row by row; none
/// where there are too few.
#[verifier::external_body]
pub(crate) fn rgb_image(width: u32, height: u32, samples: Vec<u8>) -> (r: Option<DynamicImage>)
    ensures
        samples@.len() < width * height * 3 ==> r is None,
        samples@.len() == width * height * 3 ==> r is Some && picture(r->0) == (Picture {
            width,
            height,
            layout: Layout::Rgb8,
            samples: samples@,
        }),
{
    image::RgbImage::from_raw(width, height, samples).map(DynamicImage::ImageRgb8)
}

/// `GrayImage::from_raw`: takes one sample for each pixel, row by row; none
/// where there are too few.
#[verifier::external_body]
pub(crate) fn gray_image(width: u32, height: u32, samples: Vec<u8>) -> (r: Option<DynamicImage>)
    ensures
        samples@.len() < width * height ==> r is None,
        samples@.len() == width * height ==> r is Some && picture(r->0) == (Picture {
            width,
            height,
            layout: Layout::Gray8,
            samples: samples@,
        }),
{
    image::GrayImage::from_raw(width, height, samples).map(DynamicImage::ImageLuma8)
}

// ---------------------------------------------------------------------------
// Encoding a page
// ---------------------------------------------------------------------------

/// A result with bytes, as plain values.
pub open spec fn bytes_view(r: Result<Vec<u8>, String>) -> Result<Seq<u8>, Seq<char>> {
    match r {
        Ok(v) => Ok(v@),
        Err(e) => Err(e@),
    }
}

/// How pages are made.
#[derive(Debug, Clone, Copy)]
pub struct PageStyle {
    pub width: u32,
    pub height: u32,
    pub quality: u8,
    pub contrast: bool,
    pub grayscale: bool,
    pub resize: bool,
}

/// The percentage by which contrast is raised.
pub const CONTRAST: u8 = 20;

/// The filter for pages of a width: a faster one for wide pages.
pub open spec fn filter_for(width: u32) -> Filter {
    if width >= 2048 {
        Filter::Triangle
    } else {
        Filter::CatmullRom
    }
}

/// Whether a picture does not fit into a width and height.
pub open spec fn exceeds(p: Picture, width: u32, height: u32) -> bool {
    p.width > width || p.height > height
}

/// `q` is `p` fitted to the page.
pub open spec fn fitted(p: Picture, style: PageStyle, q: Picture) -> bool {
    if style.resize && exceeds(p, style.width, style.height) {
        &&& shrinks_to(p, style.width, style.height, filter_for(style.width), q)
        &&& fills(p, style.width, style.height, q)
        &&& q.layout == p.layout
    } else {
        q == p
    }
}

/// `q` is `p`, in gray where that is wanted.
pub open spec fn shaded(p: Picture, style: PageStyle, q: Picture) -> bool {
    if style.grayscale {
        grays_to(p, q) && same_size(p, q) && q.layout is Gray8
    } else {
        q == p
    }
}

/// `q` is `p`, with more contrast where that is wanted.
pub open spec fn enhanced(p: Picture, style: PageStyle, q: Picture) -> bool {
    if !style.contrast {
        q == p
    } else if style.grayscale {
        gray_contrasts_to(p, CONTRAST, q) && same_size(p, q) && q.layout is Gray8
    } else {
        color_contrasts_to(p, CONTRAST, q) && same_size(p, q) && q.layout is Rgba8
    }
}

/// `q` is `p` made ready for a page: fitted, then shaded, then enhanced.
pub open spec fn prepared(p: Picture, style: PageStyle, q: Picture) -> bool {
    exists|a: Picture, b: Picture| #[trigger]
        fitted(p, style, a) && #[trigger] shaded(a, style, b) && enhanced(b, style, q)
}

/// A failure to encode in words.
pub open spec fn encode_failure(outcome: Result<Seq<u8>, Seq<char>>) -> Result<Seq<u8>, Seq<char>> {
    match outcome {
        Ok(v) => Ok(v),
        Err(e) => Err("JPEG encode error: "@ + e),
    }
}

/// `outcome` is what making a page of `p` may give.
pub open spec fn page_outcome(
    p: Picture,
    style: PageStyle,
    outcome: Result<Seq<u8>, Seq<char>>,
) -> bool {
    exists|q: Picture, encoded: Result<Seq<u8>, Seq<char>>| #[trigger]
        prepared(p, style, q) && #[trigger] encodes_to(q, style.quality, encoded) && jpeg_or_error(
            q,
            encoded,
        ) && outcome == encode_failure(encoded)
}

/// A page that is to be fitted never exceeds the device, whatever the picture.
pub proof fn fitted_pages_fit(p: Picture, style: PageStyle, q: Picture)
    requires
        style.resize,
        style.width >= 1,
        style.height >= 1,
        prepared(p, style, q),
    ensures
        !exceeds(q, style.width, style.height),
{
}

/// A picture that fits the device, or is not to be fitted, keeps its size.
pub proof fn small_pages_keep_their_size(p: Picture, style: PageStyle, q: Picture)
    requires
        !style.resize || !exceeds(p, style.width, style.height),
        prepared(p, style, q),
    ensures
        same_size(p, q),
{
}

/// A picture that is fitted fills the width or the height of the device, and the
/// other side follows its shape up to a pixel.
pub proof fn fitted_pages_keep_their_shape(p: Picture, style: PageStyle, q: Picture)
    requires
        style.resize,
        exceeds(p, style.width, style.height),
        style.width >= 1,
        style.height >= 1,
        p.width >= 1,
        p.height >= 1,
        prepared(p, style, q),
    ensures
        fills(p, style.width, style.height, q),
{
}

/// A page that is to keep its colors is encoded from a picture that stores them
/// as the source does, or with full color where the contrast is raised.
pub proof fn colored_pages_keep_their_colors(p: Picture, style: PageStyle, q: Picture)
    requires
        !style.grayscale,
        prepared(p, style, q),
    ensures
        q.layout == (if style.contrast {
            Layout::Rgba8
        } else {
            p.layout
        }),
{
}

/// A page in gray is encoded from a picture that holds no colors.
pub proof fn gray_pages_hold_no_colors(p: Picture, style: PageStyle, q: Picture)
    requires
        style.grayscale,
        prepared(p, style, q),
    ensures
        q.layout is Gray8,
{
}

/// Every page has the dimensions of the picture that it is made of, prepared for
/// the device: it is never enlarged, and where it is to be fitted it fits.
pub proof fn pages_measure_up(p: Picture, style: PageStyle, bytes: Seq<u8>)
    requires
        page_outcome(p, style, Ok(bytes)),
    ensures
        header_dimensions(bytes) is Some,
        !style.resize || !exceeds(p, style.width, style.height) ==> header_dimensions(bytes) == Some(
            (p.width, p.height),
        ),
        style.resize && style.width >= 1 && style.height >= 1 ==> match header_dimensions(bytes) {
            Some((w, h)) => w <= style.width && h <= style.height,
            None => false,
        },
{
}

/// Every page is a JPEG file.
pub proof fn pages_are_jpeg(p: Picture, style: PageStyle, bytes: Seq<u8>)
    requires
        page_outcome(p, style, Ok(bytes)),
    ensures
        sniff::picture_format(bytes) == "jpg"@,
{
}

/// Making a page never fails for a picture with pixels that is fitted to a
/// device with sides of up to 65535.
pub proof fn fitted_pages_succeed(
    p: Picture,
    style: PageStyle,
    outcome: Result<Seq<u8>, Seq<char>>,
)
    requires
        page_outcome(p, style, outcome),
        p.width >= 1,
        p.height >= 1,
        style.resize,
        1 <= style.width <= 65535,
        1 <= style.height <= 65535,
    ensures
        outcome is Ok,
{
}

/// What decoding came to, in words.
pub open spec fn decode_text(d: Decoded) -> Result<Picture, Seq<char>> {
    match d {
        Decoded::Picture(p) => Ok(p),
        Decoded::NoFormat(e) => Err("Image format error: "@ + e),
        Decoded::Broken(e) => Err("Decode error: "@ + e),
    }
}

/// `outcome` is what decoding the bytes may give.
pub open spec fn decode_outcome(raw: Seq<u8>, outcome: Result<Picture, Seq<char>>) -> bool {
    &&& exists|d: Decoded| #[trigger]
        decodes(raw, d) && d !is NoFormat && outcome == decode_text(d)
    &&& outcome is Ok ==> comes_of(raw, outcome->Ok_0)
}

/// A decoded picture, as plain values.
pub open spec fn picture_view(r: Result<DynamicImage, String>) -> Result<Picture, Seq<char>> {
    match r {
        Ok(img) => Ok(picture(img)),
        Err(e) => Err(e@),
    }
}

/// Decodes a picture.
pub fn decode_image(raw: &[u8]) -> (r: Result<DynamicImage, String>)
    ensures
        decode_outcome(raw@, picture_view(r)),
{
    let r = decode(raw);
    assert(decodes(raw@, decode_view(r)));
    match r {
        Ok(img) => Ok(img),
        Err(DecodeFailure::Format(e)) => Err(join("Image format error: ", e.as_str())),
        Err(DecodeFailure::Decode(e)) => Err(join("Decode error: ", e.as_str())),
    }
}

/// The dimensions in the header of an encoded picture.
pub fn peek_image_dimensions(raw: &[u8]) -> (r: Option<(u32, u32)>)
    ensures
        r == header_dimensions(raw@),
{
    read_dimensions(raw)
}

/// Fits, shades and enhances a picture.
pub fn prepare_image(img: DynamicImage, style: PageStyle) -> (r: DynamicImage)
    requires
        is_full(picture(img)),
    ensures
        prepared(picture(img), style, picture(r)),
        is_full(picture(r)),
{
    let (w, h) = dimensions(&img);
    let filter = if style.width >= 2048 {
        Filter::Triangle
    } else {
        Filter::CatmullRom
    };
    let ghost p = picture(img);
    let fit = if style.resize && (w > style.width || h > style.height) {
        shrink(&img, style.width, style.height, filter)
    } else {
        img
    };
    assert(fitted(p, style, picture(fit)));
    let ghost a = picture(fit);
    let shade = if style.grayscale {
        gray(&fit)
    } else {
        fit
    };
    assert(shaded(a, style, picture(shade)));
    if style.contrast {
        if style.grayscale {
            contrast_gray(&shade, CONTRAST)
        } else {
            contrast_color(&shade, CONTRAST)
        }
    } else {
        shade
    }
}

/// Makes a page of a picture: fitted to the width and height where `resize` is
/// set, in gray and with more contrast where that is wanted, as JPEG.
pub fn encode_image(
    img: DynamicImage,
    width: u32,
    height: u32,
    quality: u8,
    contrast: bool,
    grayscale: bool,
    resize: bool,
) -> (r: Result<Vec<u8>, String>)
    requires
        is_full(picture(img)),
    ensures
        page_outcome(
            picture(img),
            (PageStyle { width, height, quality, contrast, grayscale, resize }),
            bytes_view(r),
        ),
{
    let style = PageStyle { width, height, quality, contrast, grayscale, resize };
    let ready = prepare_image(img, style);
    let encoded = encode_jpeg(&ready, quality);
    assert(encodes_to(picture(ready), style.quality, bytes_view(encoded)));
    match encoded {
        Ok(v) => Ok(v),
        Err(e) => Err(join("JPEG encode error: ", e.as_str())),
    }
}

// ---------------------------------------------------------------------------
// Double pages
// ---------------------------------------------------------------------------

/// Whether a page of a size is cut in two: where it is wider than five quarters
/// of its height.
pub open spec fn splits(width: u32, height: u32, split: bool) -> bool {
    split && width > (height * 5) / 4
}

/// Whether a page of a size is cut in two.
pub fn is_double(width: u32, height: u32, split: bool) -> (r: bool)
    ensures
        r == splits(width, height, split),
{
    split && width as u64 > height as u64 * 5 / 4
}

/// Where the left and the right half of a page start, and how wide they are.
pub open spec fn half_spans(width: u32) -> Seq<(u32, u32)> {
    seq![(0u32, width / 2), (width / 2, (width - width / 2) as u32)]
}

/// The pages of a picture: the picture, or its left and its right half.
pub open spec fn halves(p: Picture, split: bool) -> Seq<Picture> {
    if splits(p.width, p.height, split) {
        half_spans(p.width).map_values(
            |span: (u32, u32)| cropped(p, span.0, 0, span.1, p.height),
        )
    } else {
        seq![p]
    }
}

/// Every column of a double page is in exactly one of its halves.
pub proof fn halves_cover_the_page(width: u32, column: int)
    requires
        0 <= column < width,
    ensures
        exists|k: int|
            0 <= k < 2 && (#[trigger] half_spans(width)[k]).0 <= column < half_spans(width)[k].0
                + half_spans(width)[k].1,
        forall|k: int, l: int|
            0 <= k < l < 2 ==> !({
                &&& (#[trigger] half_spans(width)[k]).0 <= column < half_spans(width)[k].0
                    + half_spans(width)[k].1
                &&& (#[trigger] half_spans(width)[l]).0 <= column < half_spans(width)[l].0
                    + half_spans(width)[l].1
            }),
{
    let k = if column < width / 2 {
        0int
    } else {
        1
    };
    assert(half_spans(width)[k].0 <= column < half_spans(width)[k].0 + half_spans(width)[k].1);
}

/// `outcome` is what making all pages may give: each page, or the failure of
/// the first that fails.
pub open spec fn pages_outcome(
    pages: Seq<Picture>,
    style: PageStyle,
    outcome: Result<Seq<Seq<u8>>, Seq<char>>,
) -> bool {
    match outcome {
        Ok(made) => made.len() == pages.len() && forall|i: int|
            0 <= i < pages.len() ==> page_outcome(#[trigger] pages[i], style, Ok(made[i])),
        Err(e) => exists|k: int|
            0 <= k < pages.len() && page_outcome(#[trigger] pages[k], style, Err(e))
                && forall|i: int|
                0 <= i < k ==> exists|v: Seq<u8>| page_outcome(#[trigger] pages[i], style, Ok(v)),
    }
}

/// `outcome` is what splitting and making the pages of encoded bytes may give.
pub open spec fn split_outcome(
    raw: Seq<u8>,
    style: PageStyle,
    split: bool,
    outcome: Result<Seq<Seq<u8>>, Seq<char>>,
) -> bool {
    exists|d: Result<Picture, Seq<char>>| #[trigger]
        decode_outcome(raw, d) && match d {
            Ok(p) => pages_outcome(halves(p, split), style, outcome) && halves_measure_up(p, split),
            Err(e) => outcome == Err::<Seq<Seq<u8>>, Seq<char>>(e),
        }
}

/// Splitting gives one page or two, and never two where it is off.
pub proof fn splitting_gives_one_or_two_pages(
    raw: Seq<u8>,
    style: PageStyle,
    split: bool,
    made: Seq<Seq<u8>>,
)
    requires
        split_outcome(raw, style, split, Ok(made)),
    ensures
        made.len() == 1 || made.len() == 2,
        !split ==> made.len() == 1,
        forall|i: int| 0 <= i < made.len() ==> sniff::picture_format(#[trigger] made[i]) == "jpg"@,
{
    let d = choose|d: Result<Picture, Seq<char>>| #[trigger]
        decode_outcome(raw, d) && match d {
            Ok(p) => pages_outcome(halves(p, split), style, Ok(made)) && halves_measure_up(p, split),
            Err(e) => Ok::<Seq<Seq<u8>>, Seq<char>>(made) == Err::<Seq<Seq<u8>>, Seq<char>>(e),
        };
    let p = d->Ok_0;
    let pages = halves(p, split);
    assert forall|i: int| 0 <= i < made.len() implies sniff::picture_format(#[trigger] made[i]) == "jpg"@ by {
        pages_are_jpeg(pages[i], style, made[i]);
    }
}

/// Whether the halves of a double page are as wide as their spans and as high as
/// the page.
pub open spec fn halves_measure_up(p: Picture, split: bool) -> bool {
    splits(p.width, p.height, split) ==> forall|k: int|
        0 <= k < 2 ==> (#[trigger] halves(p, split)[k]).width == half_spans(p.width)[k].1 && halves(
            p,
            split,
        )[k].height == p.height && halves(p, split)[k].layout == p.layout
}

/// Makes the pages of a decoded picture.
pub fn encode_pages(img: DynamicImage, style: PageStyle, split: bool) -> (r: Result<
    Vec<Vec<u8>>,
    String,
>)
    requires
        is_full(picture(img)),
    ensures
        pages_outcome(halves(picture(img), split), style, archive::contents_view(r)),
        halves_measure_up(picture(img), split),
{
    let ghost pages = halves(picture(img), split);
    let (w, h) = dimensions(&img);
    let mut made: Vec<Vec<u8>> = Vec::new();
    if !is_double(w, h, split) {
        let first = encode_image(
            img,
            style.width,
            style.height,
            style.quality,
            style.contrast,
            style.grayscale,
            style.resize,
        );
        assert(page_outcome(pages[0], style, bytes_view(first)));
        match first {
            Ok(v) => {
                made.push(v);
                assert(bytes::contents(made@) =~= seq![v@]);
                Ok(made)
            },
            Err(e) => Err(e),
        }
    } else {
        let mid: u32 = w / 2;
        let left = crop(&img, 0, 0, mid, h);
        let right = crop(&img, mid, 0, w - mid, h);
        assert(pages[0] == picture(left) && pages[1] == picture(right));
        let first = encode_image(
            left,
            style.width,
            style.height,
            style.quality,
            style.contrast,
            style.grayscale,
            style.resize,
        );
        assert(page_outcome(pages[0], style, bytes_view(first)));
        match first {
            Ok(v) => {
                let second = encode_image(
                    right,
                    style.width,
                    style.height,
                    style.quality,
                    style.contrast,
                    style.grayscale,
                    style.resize,
                );
                assert(page_outcome(pages[1], style, bytes_view(second)));
                match second {
                    Ok(u) => {
                        made.push(v);
                        made.push(u);
                        assert(bytes::contents(made@) =~= seq![v@, u@]);
                        Ok(made)
                    },
                    Err(e) => Err(e),
                }
            },
            Err(e) => Err(e),
        }
    }
}

/// Makes the pages of an encoded picture: one, or two where it is a double page
/// and these are to be split. The first failure is the result.
pub fn process_image_split(
    raw: &[u8],
    width: u32,
    height: u32,
    quality: u8,
    contrast: bool,
    grayscale: bool,
    resize: bool,
    split: bool,
) -> (r: Result<Vec<Vec<u8>>, String>)
    ensures
        split_outcome(
            raw@,
            (PageStyle { width, height, quality, contrast, grayscale, resize }),
            split,
            archive::contents_view(r),
        ),
{
    let style = PageStyle { width, height, quality, contrast, grayscale, resize };
    match decode_image(raw) {
        Ok(img) => {
            let ghost p = picture(img);
            let r = encode_pages(img, style, split);
            assert(decode_outcome(raw@, Ok(p)));
            r
        },
        Err(e) => {
            assert(decode_outcome(raw@, Err(e@)));
            Err(e)
        },
    }
}

// ---------------------------------------------------------------------------
// Laws of pages
// ---------------------------------------------------------------------------


/// A page is cut in two just where that is wanted and four times its width is more
/// than five times its height.
pub proof fn wide_pages_are_split(width: u32, height: u32, split: bool)
    ensures
        splits(width, height, split) <==> split && 4 * width > 5 * height,
{
}

/// The halves of a double page lie side by side from the first column to the last,
/// and are as wide as each other; a column that is left over is on the right.
pub proof fn halves_are_as_wide_as_each_other(width: u32)
    ensures
        half_spans(width).len() == 2,
        half_spans(width)[0].0 == 0,
        half_spans(width)[1].0 == half_spans(width)[0].0 + half_spans(width)[0].1,
        half_spans(width)[1].0 + half_spans(width)[1].1 == width,
        0 <= half_spans(width)[1].1 - half_spans(width)[0].1 <= 1,
{
}

/// What pages are made of: all of the picture, or of a double page what lies left
/// and right of its middle. `r` is the picture and the column of its middle.
pub proof fn double_pages_are_cut_in_the_middle(
    raw: Seq<u8>,
    style: PageStyle,
    split: bool,
    made: Seq<Seq<u8>>,
) -> (r: (Picture, u32))
    requires
        split_outcome(raw, style, split, Ok(made)),
    ensures
        decodes(raw, Decoded::Picture(r.0)),
        header_dimensions(raw) == Some((r.0.width, r.0.height)),
        2 * r.1 <= r.0.width <= 2 * r.1 + 1,
        split && 4 * r.0.width > 5 * r.0.height ==> {
            let left = cropped(r.0, 0, 0, r.1, r.0.height);
            let right = cropped(r.0, r.1, 0, (r.0.width - r.1) as u32, r.0.height);
            &&& made.len() == 2
            &&& left.width == r.1 && left.height == r.0.height
            &&& right.width == r.0.width - r.1 && right.height == r.0.height
            &&& page_outcome(left, style, Ok(made[0]))
            &&& page_outcome(right, style, Ok(made[1]))
        },
        !(split && 4 * r.0.width > 5 * r.0.height) ==> made.len() == 1 && page_outcome(
            r.0,
            style,
            Ok(made[0]),
        ),
{
    let d = choose|d: Result<Picture, Seq<char>>| #[trigger]
        decode_outcome(raw, d) && match d {
            Ok(p) => pages_outcome(halves(p, split), style, Ok(made)) && halves_measure_up(p, split),
            Err(e) => Ok::<Seq<Seq<u8>>, Seq<char>>(made) == Err::<Seq<Seq<u8>>, Seq<char>>(e),
        };
    let p = d->Ok_0;
    let pages = halves(p, split);
    assert(page_outcome(pages[0], style, Ok(made[0])));
    if splits(p.width, p.height, split) {
        assert(page_outcome(pages[1], style, Ok(made[1])));
        assert(halves(p, split)[0].width == half_spans(p.width)[0].1);
        assert(halves(p, split)[1].width == half_spans(p.width)[1].1);
    }
    (p, half_spans(p.width)[0].1)
}

/// A picture is made ready in three steps, each left out where it is not wanted: it
/// is fitted where it exceeds the page, made gray, and its contrast is raised by a
/// fifth. `r` is the picture after the first and after the second step.
pub proof fn pictures_are_fitted_shaded_and_enhanced(p: Picture, style: PageStyle, q: Picture) -> (r: (
    Picture,
    Picture,
))
    requires
        prepared(p, style, q),
    ensures
        style.resize && (p.width > style.width || p.height > style.height) ==> shrinks_to(
            p,
            style.width,
            style.height,
            if style.width < 2048 {
                Filter::CatmullRom
            } else {
                Filter::Triangle
            },
            r.0,
        ),
        !style.resize || (p.width <= style.width && p.height <= style.height) ==> r.0 == p,
        style.grayscale ==> grays_to(r.0, r.1),
        !style.grayscale ==> r.1 == r.0,
        style.contrast && style.grayscale ==> gray_contrasts_to(r.1, 20, q),
        style.contrast && !style.grayscale ==> color_contrasts_to(r.1, 20, q),
        !style.contrast ==> q == r.1,
{
    let (a, b) = choose|a: Picture, b: Picture| #[trigger]
        fitted(p, style, a) && #[trigger] shaded(a, style, b) && enhanced(b, style, q);
    (a, b)
}

/// A page is what encoding the picture that was made ready gives, at the quality
/// that is wanted; a failure to encode is told in words. `r` is that picture and
/// what encoding gave.
pub proof fn pages_are_encoded_at_the_wanted_quality(
    p: Picture,
    style: PageStyle,
    outcome: Result<Seq<u8>, Seq<char>>,
) -> (r: (Picture, Result<Seq<u8>, Seq<char>>))
    requires
        page_outcome(p, style, outcome),
    ensures
        prepared(p, style, r.0),
        encodes_to(r.0, style.quality, r.1),
        outcome is Ok <==> r.1 is Ok,
        outcome is Ok <==> 1 <= r.0.width <= 65535 && 1 <= r.0.height <= 65535,
        outcome is Ok ==> outcome->Ok_0 == r.1->Ok_0,
        outcome is Err ==> outcome->Err_0 == "JPEG encode error: "@ + r.1->Err_0,
{
    let (q, encoded) = choose|q: Picture, encoded: Result<Seq<u8>, Seq<char>>| #[trigger]
        prepared(p, style, q) && #[trigger] encodes_to(q, style.quality, encoded) && jpeg_or_error(
            q,
            encoded,
        ) && outcome == encode_failure(encoded);
    (q, encoded)
}

/// Of several pages each is made of its own picture, and the first that fails is
/// the failure of all.
pub proof fn pages_fail_with_the_first(
    pages: Seq<Picture>,
    style: PageStyle,
    outcome: Result<Seq<Seq<u8>>, Seq<char>>,
)
    requires
        pages_outcome(pages, style, outcome),
    ensures
        outcome is Ok ==> outcome->Ok_0.len() == pages.len() && forall|i: int|
            0 <= i < pages.len() ==> page_outcome(pages[i], style, Ok(#[trigger] outcome->Ok_0[i])),
        outcome is Err ==> exists|k: int|
            0 <= k < pages.len() && page_outcome(#[trigger] pages[k], style, Err(outcome->Err_0)),
        pages.len() == 0 ==> outcome is Ok,
{
    if outcome is Ok {
        assert forall|i: int| 0 <= i < pages.len() implies page_outcome(
            pages[i],
            style,
            Ok(#[trigger] outcome->Ok_0[i]),
        ) by {
            assert(page_outcome(pages[i], style, Ok(outcome->Ok_0[i])));
        }
    }
}

/// What decoding says: the picture, or why there is none, in words that tell where
/// it went wrong.
pub proof fn decoding_gives_the_picture(raw: Seq<u8>, outcome: Result<Picture, Seq<char>>)
    requires
        decode_outcome(raw, outcome),
    ensures
        outcome is Ok ==> decodes(raw, Decoded::Picture(outcome->Ok_0)) && header_dimensions(raw)
            == Some((outcome->Ok_0.width, outcome->Ok_0.height)),
        outcome is Err ==> exists|e: Seq<char>|
            #![trigger decodes(raw, Decoded::Broken(e))]
            decodes(raw, Decoded::Broken(e)) && outcome->Err_0 == "Decode error: "@ + e,
{
    let d = choose|d: Decoded| #[trigger]
        decodes(raw, d) && d !is NoFormat && outcome == decode_text(d);
    if outcome is Err {
        assert(decodes(raw, Decoded::Broken(d->Broken_0)));
    }
}

} // verus!
