//! Turning an uploaded image into the network's input layout.
use vstd::prelude::*;
use crate::compute::tensor::{Tensor, shape_vec4, lemma_shape4};

verus! {

#[verifier::external_type_specification]
#[verifier::external_body]
pub struct ExImageError(image::ImageError);

/// Whether `image::load_from_memory` reads `bytes` as an image: a property of the bytes alone
/// (the format is guessed from the content).
pub uninterp spec fn image_decodes(bytes: Seq<u8>) -> bool;

/// Decodes `bytes` with `image::load_from_memory` (format guessed from the content), resizes
/// the result to exactly `width x height` with `DynamicImage::resize_exact` and the Lanczos3
/// filter, and returns the pixels of `DynamicImage::to_rgb8` as raw bytes.
///
/// Trusted: the call succeeds exactly when the bytes decode (resizing and the RGB conversion
/// do not fail), and an RGB image of the requested size has three bytes per pixel. Which pixel
/// values come out is not stated: the filter evaluates floating-point `sin`, and decoders pick
/// machine-specific code paths, so the same bytes need not give the same pixels everywhere.
#[verifier::external_body]
fn decode_resize_rgb8(bytes: &[u8], width: u32, height: u32) -> (r: Result<Vec<u8>, image::ImageError>)
    ensures
        r is Ok <==> image_decodes(bytes@),
        r matches Ok(px) ==> px@.len() == 3 * width * height,
{
    let image = image::load_from_memory(bytes)?;
    Ok(image.resize_exact(width, height, image::imageops::FilterType::Lanczos3).to_rgb8().into_raw())
}

/// The message of an `image::ImageError`, from its `Display` implementation.
#[verifier::external_body]
fn image_error_message(error: &image::ImageError) -> String {
    error.to_string()
}

/// Why an uploaded image could not be used.
#[derive(Clone, Debug)]
pub struct ImageInputError {
    pub message: String,
}

/// Channel-major layout of `h x w` pixels with `c` interleaved channels each: element
/// `ch * (h * w) + p` is channel `ch` of pixel `p`.
pub open spec fn interleaved_to_planar(raw: Seq<u8>, c: int, h: int, w: int) -> Seq<u8> {
    Seq::new((c * (h * w)) as nat, |i: int| raw[(i % (h * w)) * c + i / (h * w)])
}

/// In the planar layout of a 32x32 RGB image, element `ch * 1024 + y * 32 + x` is channel `ch`
/// of the pixel in row `y`, column `x`, which the interleaved bytes hold at
/// `(y * 32 + x) * 3 + ch`.
pub proof fn lemma_planar_pixel(raw: Seq<u8>, ch: int, y: int, x: int)
    requires
        raw.len() == 3 * 32 * 32,
        0 <= ch < 3,
        0 <= y < 32,
        0 <= x < 32,
    ensures
        interleaved_to_planar(raw, 3, 32, 32).len() == 3072,
        interleaved_to_planar(raw, 3, 32, 32)[ch * 1024 + y * 32 + x] == raw[(y * 32 + x) * 3 + ch],
{
    let i = ch * 1024 + y * 32 + x;
    vstd::arithmetic::div_mod::lemma_fundamental_div_mod_converse(i, 1024, ch, y * 32 + x);
}

/// The `[1, 3, 32, 32]` tensor of a 32x32 RGB image given as interleaved bytes (three per
/// pixel, row by row): the red plane, then the green plane, then the blue plane.
pub fn rgb32_to_planar(raw: &[u8]) -> (t: Tensor<u8>)
    requires
        raw@.len() == 3 * 32 * 32,
    ensures
        t.wf(),
        t.shape@ == seq![1usize, 3, 32, 32],
        t.data@ == interleaved_to_planar(raw@, 3, 32, 32),
{
    let plane: usize = 32 * 32;
    let mut data: Vec<u8> = Vec::with_capacity(3 * plane);
    let mut i: usize = 0;
    while i < 3 * plane
        invariant
            plane == 1024,
            raw@.len() == 3072,
            i <= 3 * plane,
            data@ == interleaved_to_planar(raw@, 3, 32, 32).take(i as int),
        decreases 3 * plane - i,
    {
        let ch = i / plane;
        let p = i % plane;
        data.push(raw[p * 3 + ch]);
        proof {
            assert(data@ =~= interleaved_to_planar(raw@, 3, 32, 32).take(i + 1));
        }
        i = i + 1;
    }
    proof {
        assert(data@ =~= interleaved_to_planar(raw@, 3, 32, 32));
        lemma_shape4(1, 3, 32, 32);
    }
    Tensor::from_data(data, shape_vec4(1, 3, 32, 32))
}

/// The image encoded in `bytes`, resized to 32x32, as a `[1, 3, 32, 32]` tensor of raw
/// channel bytes (red plane, green plane, blue plane). Fails exactly when the bytes do not
/// decode as an image; on success the tensor is `rgb32_to_planar` of the 3072 RGB bytes the
/// decoder produced.
pub fn image_bytes_to_tensor(bytes: &[u8]) -> (r: Result<Tensor<u8>, ImageInputError>)
    ensures
        r is Ok <==> image_decodes(bytes@),
        r matches Ok(t) ==> {
            &&& t.wf()
            &&& t.shape@ == seq![1usize, 3, 32, 32]
            &&& exists|raw: Seq<u8>| raw.len() == 3 * 32 * 32 && t.data@ == interleaved_to_planar(raw, 3, 32, 32)
        },
{
    let raw = match decode_resize_rgb8(bytes, 32, 32) {
        Ok(raw) => raw,
        Err(e) => {
            return Err(ImageInputError { message: image_error_message(&e) });
        },
    };
    Ok(rgb32_to_planar(raw.as_slice()))
}

} // verus!
