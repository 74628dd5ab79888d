//! The calls into the `image` crate: decoding a file held in memory and
//! resampling to a raster of given size.
use vstd::prelude::*;
use image::imageops::FilterType;
use image::{DynamicImage, ImageError};

verus! {

#[verifier::external_type_specification]
#[verifier::external_body]
pub struct ExDynamicImage(DynamicImage);

#[verifier::external_type_specification]
#[verifier::external_body]
pub struct ExImageError(ImageError);

/// Whether `image::load_from_memory` decodes the bytes `b`.
pub uninterp spec fn decodes(b: Seq<u8>) -> bool;

/// The image that `image::load_from_memory` decodes from the bytes `b`.
pub uninterp spec fn image_of(b: Seq<u8>) -> DynamicImage;

/// The RGB raster, three bytes per pixel and row-major, that resampling
/// `img` to `w` × `h` pixels with the triangle filter gives.
pub uninterp spec fn raster_of(img: DynamicImage, w: u32, h: u32) -> Seq<u8>;

/// Relies on `image::load_from_memory`: decodes an image file held in
/// memory, its format guessed from its first bytes; the outcome depends on
/// the bytes alone.
#[verifier::external_body]
pub(crate) fn load_from_memory(bytes: &[u8]) -> (r: Result<DynamicImage, ImageError>)
    ensures
        r is Ok <==> decodes(bytes@),
        r matches Ok(img) ==> img == image_of(bytes@),
{
    image::load_from_memory(bytes)
}

/// Relies on `DynamicImage::resize_exact` with the triangle filter, which
/// gives an image of exactly `w` × `h` pixels; `to_rgb8` and `into_raw`
/// turn it into three bytes per pixel, row-major.
#[verifier::external_body]
pub(crate) fn resize_rgb(img: &DynamicImage, w: u32, h: u32) -> (r: Vec<u8>)
    requires
        1 <= w,
        1 <= h,
        3 * w * h <= usize::MAX,
    ensures
        r@ == raster_of(*img, w, h),
        r@.len() == 3 * w * h,
{
    img.resize_exact(w, h, FilterType::Triangle).to_rgb8().into_raw()
}

} // verus!
