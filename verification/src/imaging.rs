//! Image preparation for the import pipeline: decoding uploaded bytes and
//! downscaling them with a fixed long-edge scale policy, re-encoded as JPEG.

use vstd::prelude::*;

use crate::errors::StoreError;

verus! {

#[verifier::external_type_specification]
#[verifier::external_body]
pub struct ExDynamicImage(image::DynamicImage);

/// Whether `image::load_from_memory` decodes these bytes.
pub uninterp spec fn image_ok(data: Seq<u8>) -> bool;

/// The width `image::load_from_memory` decodes from these bytes.
pub uninterp spec fn image_width(data: Seq<u8>) -> nat;

/// The height `image::load_from_memory` decodes from these bytes.
pub uninterp spec fn image_height(data: Seq<u8>) -> nat;

/// Relies on `image::load_from_memory` (with `DynamicImage::width` and
/// `height` reading the decoded dimensions): whether the bytes decode, and
/// to which dimensions, depends on the bytes alone.
#[verifier::external_body]
pub(crate) fn decode_image(data: &Vec<u8>) -> (r: Result<(image::DynamicImage, u32, u32), ()>)
    ensures
        r is Ok <==> image_ok(data@),
        (r matches Ok(t) ==> t.1 as nat == image_width(data@) && t.2 as nat == image_height(
            data@,
        )),
{
    match image::load_from_memory(data.as_slice()) {
        Ok(img) => {
            let w = img.width();
            let h = img.height();
            Ok((img, w, h))
        },
        Err(_) => Err(()),
    }
}

/// `side` scaled by `maxd / long`, rounded to the nearest whole number
/// (halves away from zero).
pub open spec fn rounded_scale(side: int, maxd: int, long: int) -> int {
    (2 * side * maxd + long) / (2 * long)
}

/// The dimensions after downscaling so that the long edge becomes exactly
/// `max_dimension`: both axes are scaled by `max_dimension / max(width,
/// height)`, the short edge rounding to the nearest whole number.
pub fn calculate_new_dimensions(width: u32, height: u32, max_dimension: u32) -> (r: (u32, u32))
    requires
        1 <= width,
        1 <= height,
        1 <= max_dimension <= 0x4000_0000,
    ensures
        r.0 as int == target_width(width as int, height as int, max_dimension as int),
        r.1 as int == target_height(width as int, height as int, max_dimension as int),
{
    if width > height {
        proof {
            assert(2 * (height as u64 as int) * (max_dimension as u64 as int) + (
            width as u64 as int) <= u64::MAX as int) by (nonlinear_arith)
                requires
                    height as u64 as int <= 0xFFFF_FFFF,
                    width as u64 as int <= 0xFFFF_FFFF,
                    0 <= height as u64 as int,
                    0 <= max_dimension as u64 as int <= 0x4000_0000,
            ;
        }
        let num: u64 = 2 * (height as u64) * (max_dimension as u64) + (width as u64);
        let den: u64 = 2 * (width as u64);
        let nh: u64 = num / den;
        proof {
            assert(num as int == 2 * (height as int) * (max_dimension as int) + width as int)
                by (nonlinear_arith)
                requires
                    num as int == 2 * (height as u64 as int) * (max_dimension as u64 as int) + (
                    width as u64 as int),
                    height as u64 as int == height as int,
                    width as u64 as int == width as int,
                    max_dimension as u64 as int == max_dimension as int,
            ;
            assert(num < (max_dimension as u64 + 1) * den) by (nonlinear_arith)
                requires
                    num as int == 2 * (height as int) * (max_dimension as int) + width as int,
                    den as int == 2 * (width as int),
                    height as int <= width as int - 1,
                    1 <= width as int,
                    1 <= max_dimension as int,
            ;
            assert(nh <= max_dimension) by (nonlinear_arith)
                requires
                    nh == num / den,
                    num < (max_dimension as u64 + 1) * den,
                    den >= 2,
            ;
        }
        (max_dimension, nh as u32)
    } else {
        proof {
            assert(2 * (width as u64 as int) * (max_dimension as u64 as int) + (
            height as u64 as int) <= u64::MAX as int) by (nonlinear_arith)
                requires
                    width as u64 as int <= 0xFFFF_FFFF,
                    height as u64 as int <= 0xFFFF_FFFF,
                    0 <= width as u64 as int,
                    0 <= max_dimension as u64 as int <= 0x4000_0000,
            ;
        }
        let num: u64 = 2 * (width as u64) * (max_dimension as u64) + (height as u64);
        let den: u64 = 2 * (height as u64);
        let nw: u64 = num / den;
        proof {
            assert(num < (max_dimension as u64 + 1) * den) by (nonlinear_arith)
                requires
                    num as int == 2 * (width as int) * (max_dimension as int) + height as int,
                    den as int == 2 * (height as int),
                    width as int <= height as int,
                    1 <= height as int,
                    1 <= max_dimension as int,
            ;
            assert(nw <= max_dimension) by (nonlinear_arith)
                requires
                    nw == num / den,
                    num < (max_dimension as u64 + 1) * den,
                    den >= 2,
            ;
        }
        (nw as u32, max_dimension)
    }
}

/// The target dimensions of a downscale: the long edge becomes exactly
/// `maxd`, the short edge scales by the same factor, rounded.
pub open spec fn target_width(w: int, h: int, maxd: int) -> int {
    if w > h {
        maxd
    } else {
        rounded_scale(w, maxd, h)
    }
}

pub open spec fn target_height(w: int, h: int, maxd: int) -> int {
    if w > h {
        rounded_scale(h, maxd, w)
    } else {
        maxd
    }
}

/// The target dimensions of a rendition of decodable bytes.
pub open spec fn rendition_width(data: Seq<u8>, maxd: int) -> int {
    target_width(image_width(data) as int, image_height(data) as int, maxd)
}

pub open spec fn rendition_height(data: Seq<u8>, maxd: int) -> int {
    target_height(image_width(data) as int, image_height(data) as int, maxd)
}

/// Whether decoding these bytes, resizing to exactly `w` by `h` and
/// re-encoding as JPEG succeeds.
pub uninterp spec fn scaled_jpeg_ok(data: Seq<u8>, w: int, h: int) -> bool;

/// The JPEG bytes that decode-resize-reencode produces then; a function of
/// the bytes and the target dimensions alone.
pub uninterp spec fn scaled_jpeg_of(data: Seq<u8>, w: int, h: int) -> Seq<u8>;

/// Whether re-encoding these bytes as JPEG at their own size succeeds.
pub uninterp spec fn reencoded_jpeg_ok(data: Seq<u8>) -> bool;

/// The JPEG bytes of that full-size re-encode; a function of the bytes
/// alone.
pub uninterp spec fn reencoded_jpeg_of(data: Seq<u8>) -> Seq<u8>;

/// Relies on `image::load_from_memory`, `DynamicImage::resize_exact`
/// (Triangle filter), `to_rgb8` and the JPEG `write_to`: for fixed bytes
/// and target dimensions, the outcome and the produced bytes depend on the
/// arguments alone.
#[verifier::external_body]
fn resize_jpeg(data: &Vec<u8>, w: u32, h: u32) -> (r: Result<Vec<u8>, ()>)
    requires
        1 <= w,
        1 <= h,
    ensures
        r is Ok <==> scaled_jpeg_ok(data@, w as int, h as int),
        (r matches Ok(v) ==> v@ == scaled_jpeg_of(data@, w as int, h as int)),
{
    let img = match image::load_from_memory(data.as_slice()) {
        Ok(img) => img,
        Err(_) => return Err(()),
    };
    let resized = img.resize_exact(w, h, image::imageops::FilterType::Triangle);
    let mut out: Vec<u8> = Vec::new();
    match resized.to_rgb8().write_to(&mut std::io::Cursor::new(&mut out), image::ImageFormat::Jpeg)
    {
        Ok(()) => Ok(out),
        Err(_) => Err(()),
    }
}

/// Relies on `image::load_from_memory`, `DynamicImage::to_rgb8` and the
/// JPEG `write_to`: the full-size re-encode, alpha stripped, a function of
/// the bytes alone.
#[verifier::external_body]
pub(crate) fn reencode_jpeg(data: &Vec<u8>) -> (r: Result<Vec<u8>, ()>)
    ensures
        r is Ok <==> reencoded_jpeg_ok(data@),
        (r matches Ok(v) ==> v@ == reencoded_jpeg_of(data@)),
{
    let img = match image::load_from_memory(data.as_slice()) {
        Ok(img) => img,
        Err(_) => return Err(()),
    };
    let mut out: Vec<u8> = Vec::new();
    match img.to_rgb8().write_to(&mut std::io::Cursor::new(&mut out), image::ImageFormat::Jpeg) {
        Ok(()) => Ok(out),
        Err(_) => Err(()),
    }
}

/// Downscales an image of the given dimensions so that its long edge is
/// exactly `max_dim`, re-encoded as JPEG, and returns exactly the bytes of
/// that rendition. An extreme aspect ratio whose short edge rounds to zero
/// is rejected as `InvalidInput`; a failing resize or re-encode surfaces as
/// `Storage`.
pub fn downscale_image(data: &Vec<u8>, width: u32, height: u32, max_dim: u32) -> (r: Result<
    Vec<u8>,
    StoreError,
>)
    requires
        1 <= width,
        1 <= height,
        1 <= max_dim <= 0x4000_0000,
    ensures
        ({
            let nw = target_width(width as int, height as int, max_dim as int);
            let nh = target_height(width as int, height as int, max_dim as int);
            &&& (r is Ok <==> (nw >= 1 && nh >= 1 && scaled_jpeg_ok(data@, nw, nh)))
            &&& (r matches Ok(v) ==> v@ == scaled_jpeg_of(data@, nw, nh))
            &&& (r matches Err(e) ==> ((e == StoreError::InvalidInput <==> (nw == 0 || nh == 0))
                && (e == StoreError::Storage <==> (nw >= 1 && nh >= 1 && !scaled_jpeg_ok(
                data@,
                nw,
                nh,
            )))))
        }),
{
    let (nw, nh) = calculate_new_dimensions(width, height, max_dim);
    if nw == 0 || nh == 0 {
        return Err(StoreError::InvalidInput);
    }
    match resize_jpeg(data, nw, nh) {
        Ok(v) => Ok(v),
        Err(()) => Err(StoreError::Storage),
    }
}

} // verus!
