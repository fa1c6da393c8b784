use vstd::prelude::*;

use crate::color::Rgb;

verus! {

/// Width and height of the square the image is resampled to.
pub const SAMPLE_SIDE: u32 = 256;

/// Name for the pixels, row by row, that the `image` crate gives for an
/// encoded image: decoded in the format that `ImageFormat::from_extension`
/// picks for `extension`, resampled to `side` x `side` with
/// `FilterType::Nearest` and converted to 8-bit RGB; `None` where no format
/// matches the extension or the decoder refuses the bytes.
pub uninterp spec fn decoded_pixels(bytes: Seq<u8>, extension: Seq<char>, side: u32) -> Option<Seq<Rgb>>;

/// `image::ImageFormat::from_extension`, `image::load_from_memory_with_format`,
/// `DynamicImage::resize_exact(side, side, FilterType::Nearest)` and
/// `DynamicImage::into_rgb8`, read out pixel by pixel.
/// Claimed: the outcome is `decoded_pixels` of the arguments, and a decoded
/// image has `side * side` pixels (`resize_exact` returns a buffer of exactly
/// the requested dimensions, also for an empty source).
#[verifier::external_body]
fn decode_resized_nearest(bytes: &[u8], extension: &str, side: u32) -> (res: Option<Vec<Rgb>>)
    ensures
        res is Some <==> decoded_pixels(bytes@, extension@, side) is Some,
        res matches Some(v) ==> decoded_pixels(bytes@, extension@, side) == Some(v@) && v@.len()
            == side * side,
{
    let format = image::ImageFormat::from_extension(extension)?;
    let decoded = image::load_from_memory_with_format(bytes, format).ok()?;
    let rgb = decoded.resize_exact(side, side, image::imageops::FilterType::Nearest).into_rgb8();
    Some(rgb.pixels().map(|p| Rgb { r: p[0], g: p[1], b: p[2] }).collect())
}

/// Why an image could not be turned into pixels.
#[derive(Clone, Copy, Debug, PartialEq, Eq, Structural)]
pub enum LoadError {
    /// No format matches the extension, or the bytes do not decode in it.
    Decode,
}

/// The 256 x 256 sample of an encoded image, row by row: the image is
/// decoded in the format its file extension names and resampled to the
/// nearest pixel.
pub fn load_pixels(bytes: &[u8], extension: &str) -> (res: Result<Vec<Rgb>, LoadError>)
    ensures
        res is Ok <==> decoded_pixels(bytes@, extension@, SAMPLE_SIDE) is Some,
        res matches Ok(v) ==> decoded_pixels(bytes@, extension@, SAMPLE_SIDE) == Some(v@)
            && v@.len() == SAMPLE_SIDE * SAMPLE_SIDE,
        res matches Err(e) ==> e == LoadError::Decode,
{
    match decode_resized_nearest(bytes, extension, SAMPLE_SIDE) {
        Some(pixels) => Ok(pixels),
        None => Err(LoadError::Decode),
    }
}

} // verus!
