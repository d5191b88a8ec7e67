//! The transform pipeline: decoding and resampling a source raster (through
//! the `image` crate), and wrapping a tiny WebP raster in an SVG that blurs it.
use crate::b64::{base64_standard, encode_standard, is_standard_char};
use crate::request::Blur;
use crate::text::{all_ascii, append_bytes, decimal, lemma_ascii_utf8, push_decimal, string_from_utf8};
use image::imageops::FilterType;
use image::{DynamicImage, ImageError};
use vstd::prelude::*;
use vstd::utf8::*;

verus! {

broadcast use vstd::utf8::group_utf8_lib;

/// A decoded raster of the `image` crate, carried through without looking inside.
#[verifier::external_type_specification]
#[verifier::external_body]
pub struct ExDynamicImage(DynamicImage);

/// The `image` crate's decoding error, mapped to `TransformError::Decode`.
#[verifier::external_type_specification]
#[verifier::external_body]
pub struct ExImageError(ImageError);

/// Why a transform produced no artifact.
#[derive(Clone, Copy, Debug, PartialEq, Eq, Structural)]
pub enum TransformError {
    /// A target dimension is zero, or the target box holds too many pixels.
    InvalidDimensions,
    /// The source bytes are not an image the decoder reads.
    Decode,
    /// The encoder refused the raster.
    Encode,
}

/// How a raster is resampled.
#[derive(Clone, Copy, Debug, PartialEq, Eq, Structural)]
pub enum Resampling {
    /// Bicubic (Catmull-Rom): smooth, for derivatives that are shown as they are.
    CatmullRom,
    /// Nearest neighbour: cheap, for placeholders that are blurred anyway.
    Nearest,
}

/// Most pixels a target box may hold (a square of 8192 on a side).
///
/// The resized raster fills up to the whole box, and the `image` crate
/// allocates its buffer in one piece: a box of `u32::MAX` on each side would
/// overflow the buffer length, and far smaller ones already exhaust memory.
/// This bound keeps the largest raster (16 bytes a pixel) at 1 GiB; a larger
/// box is refused with `InvalidDimensions` instead of aborting the process.
pub const MAX_RASTER_PIXELS: u64 = 67_108_864;

/// A target box that can be rastered: both sides positive, area bounded.
pub open spec fn box_ok(width: u32, height: u32) -> bool {
    width > 0 && height > 0 && width as int * height as int <= MAX_RASTER_PIXELS as int
}

/// Whether the `image` crate decodes these bytes into an image.
pub uninterp spec fn decodes_as_image(b: Seq<u8>) -> bool;

/// The image the `image` crate decodes from these bytes.
pub uninterp spec fn decoded_of(b: Seq<u8>) -> DynamicImage;

/// What the `image` crate's aspect-preserving resize makes of `img` for the
/// box `w × h` and the filter `f`.
pub uninterp spec fn resized_of(img: DynamicImage, w: u32, h: u32, f: Resampling) -> DynamicImage;

/// Relies on `image::load_from_memory`: guesses the format from the bytes and
/// decodes them, failing on bytes it cannot read.
#[verifier::external_body]
fn load_image(b: &[u8]) -> (r: Result<DynamicImage, ImageError>)
    ensures
        r is Ok <==> decodes_as_image(b@),
        r matches Ok(img) ==> img == decoded_of(b@),
{
    image::load_from_memory(b)
}

/// Relies on `DynamicImage::resize`: scales the image, keeping its aspect
/// ratio, to the largest size that fits the box. The output never exceeds the
/// box, so bounding the box's area bounds the buffer the crate allocates.
#[verifier::external_body]
fn resize_image(img: &DynamicImage, width: u32, height: u32, filter: Resampling) -> (r: DynamicImage)
    requires
        box_ok(width, height),
    ensures
        r == resized_of(*img, width, height, filter),
{
    let filter = match filter {
        Resampling::CatmullRom => FilterType::CatmullRom,
        Resampling::Nearest => FilterType::Nearest,
    };
    img.resize(width, height, filter)
}

/// Checks a target box.
pub fn check_box(width: u32, height: u32) -> (r: Result<(), TransformError>)
    ensures
        box_ok(width, height) ==> r is Ok,
        !box_ok(width, height) ==> r == Err::<(), TransformError>(
            TransformError::InvalidDimensions,
        ),
{
    if width == 0 || height == 0 {
        return Err(TransformError::InvalidDimensions);
    }
    let (w, h) = (width as u64, height as u64);
    assert(w * h <= u32::MAX as u64 * u32::MAX as u64) by (nonlinear_arith)
        requires
            w <= u32::MAX,
            h <= u32::MAX,
    ;
    if w * h > MAX_RASTER_PIXELS {
        Err(TransformError::InvalidDimensions)
    } else {
        Ok(())
    }
}

/// Decodes `source` and fits it into `width × height` with `filter`.
pub fn decode_and_fit(source: &[u8], width: u32, height: u32, filter: Resampling) -> (r: Result<
    DynamicImage,
    TransformError,
>)
    ensures
        !box_ok(width, height) ==> r matches Err(TransformError::InvalidDimensions),
        box_ok(width, height) && !decodes_as_image(source@) ==> r matches Err(
            TransformError::Decode,
        ),
        box_ok(width, height) && decodes_as_image(source@) ==> r is Ok,
        r matches Ok(img) ==> img == resized_of(decoded_of(source@), width, height, filter),
{
    if let Err(e) = check_box(width, height) {
        return Err(e);
    }
    match load_image(source) {
        Ok(img) => Ok(resize_image(&img, width, height, filter)),
        Err(_) => Err(TransformError::Decode),
    }
}

/// The raster of a resize: the source fitted into `width × height` with a
/// bicubic filter, ready for the WebP encoder.
pub fn resize(source: &[u8], width: u32, height: u32) -> (r: Result<DynamicImage, TransformError>)
    ensures
        !box_ok(width, height) ==> r matches Err(TransformError::InvalidDimensions),
        box_ok(width, height) && !decodes_as_image(source@) ==> r matches Err(
            TransformError::Decode,
        ),
        box_ok(width, height) && decodes_as_image(source@) ==> r is Ok,
        r matches Ok(img) ==> img == resized_of(
            decoded_of(source@),
            width,
            height,
            Resampling::CatmullRom,
        ),
{
    decode_and_fit(source, width, height, Resampling::CatmullRom)
}

/// The tiny raster of a placeholder: the source fitted into the blur's
/// `width × height` with a nearest-neighbour filter.
pub fn placeholder_raster(source: &[u8], blur: &Blur) -> (r: Result<DynamicImage, TransformError>)
    ensures
        !box_ok(blur.width, blur.height) ==> r matches Err(TransformError::InvalidDimensions),
        box_ok(blur.width, blur.height) && !decodes_as_image(source@) ==> r matches Err(
            TransformError::Decode,
        ),
        box_ok(blur.width, blur.height) && decodes_as_image(source@) ==> r is Ok,
        r matches Ok(img) ==> img == resized_of(
            decoded_of(source@),
            blur.width,
            blur.height,
            Resampling::Nearest,
        ),
{
    decode_and_fit(source, blur.width, blur.height, Resampling::Nearest)
}

// ---------------------------------------------------------------------------
// The SVG wrapper
// ---------------------------------------------------------------------------
/// Up to the viewport's width.
pub const SVG_OPEN: &'static str = "<svg xmlns=\"http://www.w3.org/2000/svg\" xmlns:xlink=\"http://www.w3.org/1999/xlink\" width=\"100%\" height=\"100%\" viewBox=\"0 0 ";

/// Between the viewport's width and height.
pub const SVG_SPACE: &'static str = " ";

/// From the viewport's height up to the blur's deviation.
pub const SVG_FILTER: &'static str = "\" preserveAspectRatio=\"none\">\n    <filter id=\"a\" filterUnits=\"userSpaceOnUse\" color-interpolation-filters=\"sRGB\">\n        <feGaussianBlur stdDeviation=\"";

/// From the deviation up to the base64 payload.
pub const SVG_IMAGE: &'static str = "\" edgeMode=\"duplicate\"/>\n        <feComponentTransfer>\n            <feFuncA type=\"discrete\" tableValues=\"1 1\"/>\n        </feComponentTransfer>\n    </filter>\n    <image filter=\"url(#a)\" x=\"0\" y=\"0\" height=\"100%\" width=\"100%\" href=\"data:image/webp;base64,";

/// After the payload.
pub const SVG_CLOSE: &'static str = "\"/>\n</svg>\n";

/// The placeholder document, as bytes, for a base64 payload and the blur's parameters.
pub open spec fn svg_bytes(payload: Seq<u8>, svg_width: u32, svg_height: u32, sigma: u8) -> Seq<u8> {
    encode_utf8(SVG_OPEN@) + decimal(svg_width as nat) + encode_utf8(SVG_SPACE@) + decimal(
        svg_height as nat,
    ) + encode_utf8(SVG_FILTER@) + decimal(sigma as nat) + encode_utf8(SVG_IMAGE@) + payload
        + encode_utf8(SVG_CLOSE@)
}

/// The placeholder document for a WebP raster: an SVG of the blur's declared
/// size whose one `<image>` shows the raster as a base64 data URI, stretched,
/// through a Gaussian blur of deviation `sigma` and an alpha-flattening step.
pub fn placeholder_svg(webp: &[u8], blur: &Blur) -> (r: String)
    requires
        webp@.len() <= usize::MAX / 4,
    ensures
        encode_utf8(r@) == svg_bytes(
            base64_standard(webp@),
            blur.svg_width,
            blur.svg_height,
            blur.sigma,
        ),
{
    let payload = encode_standard(webp);
    let mut out: Vec<u8> = Vec::new();
    append_bytes(&mut out, SVG_OPEN.as_bytes());
    push_decimal(&mut out, blur.svg_width);
    append_bytes(&mut out, SVG_SPACE.as_bytes());
    push_decimal(&mut out, blur.svg_height);
    append_bytes(&mut out, SVG_FILTER.as_bytes());
    push_decimal(&mut out, blur.sigma as u32);
    append_bytes(&mut out, SVG_IMAGE.as_bytes());
    append_bytes(&mut out, payload.as_slice());
    append_bytes(&mut out, SVG_CLOSE.as_bytes());
    proof {
        let d1 = decimal(blur.svg_width as nat);
        let d2 = decimal(blur.svg_height as nat);
        let d3 = decimal(blur.sigma as nat);
        crate::text::lemma_decimal_value(blur.svg_width as nat);
        crate::text::lemma_decimal_value(blur.svg_height as nat);
        crate::text::lemma_decimal_value(blur.sigma as nat);
        lemma_ascii_utf8(d1);
        lemma_ascii_utf8(d2);
        lemma_ascii_utf8(d3);
        assert(all_ascii(payload@)) by {
            assert forall|i: int| 0 <= i < payload@.len() implies payload@[i] < 128 by {
                assert(is_standard_char(payload@[i]));
            }
        }
        lemma_ascii_utf8(payload@);
        let a = encode_utf8(SVG_OPEN@) + d1;
        let b = a + encode_utf8(SVG_SPACE@);
        let c = b + d2;
        let d = c + encode_utf8(SVG_FILTER@);
        let e = d + d3;
        let f = e + encode_utf8(SVG_IMAGE@);
        let g = f + payload@;
        valid_utf8_concat(encode_utf8(SVG_OPEN@), d1);
        valid_utf8_concat(a, encode_utf8(SVG_SPACE@));
        valid_utf8_concat(b, d2);
        valid_utf8_concat(c, encode_utf8(SVG_FILTER@));
        valid_utf8_concat(d, d3);
        valid_utf8_concat(e, encode_utf8(SVG_IMAGE@));
        valid_utf8_concat(f, payload@);
        valid_utf8_concat(g, encode_utf8(SVG_CLOSE@));
        assert(out@ == g + encode_utf8(SVG_CLOSE@));
    }
    match string_from_utf8(out) {
        Some(s) => s,
        None => String::new(),
    }
}

/// The placeholder text is a function of the raster and the blur's parameters:
/// two documents made from the same WebP bytes and parameters are the same text.
pub proof fn lemma_placeholder_deterministic(
    webp: Seq<u8>,
    blur: Blur,
    first: Seq<char>,
    second: Seq<char>,
)
    requires
        encode_utf8(first) == svg_bytes(base64_standard(webp), blur.svg_width, blur.svg_height, blur.sigma),
        encode_utf8(second) == svg_bytes(base64_standard(webp), blur.svg_width, blur.svg_height, blur.sigma),
    ensures
        first == second,
{
    encode_utf8_decode_utf8(first);
    encode_utf8_decode_utf8(second);
}

} // verus!
