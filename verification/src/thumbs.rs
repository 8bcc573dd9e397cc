//! Thumbnail decisions: container detection and downscale geometry.
//!
//! The codec itself (decode, resample, encode) is an external
//! collaborator; this module holds what the core decides: which
//! container a byte buffer is in, whether a downscale is due, and to
//! which dimensions.

use vstd::prelude::*;
use crate::errors::AppError;

verus! {

/// Width of a generated thumbnail; sources narrower than this are
/// kept verbatim.
pub const THUMB_WIDTH: u32 = 512;

/// The image containers the indexer accepts.
#[derive(PartialEq, Eq, Structural, Clone, Copy, Debug)]
pub enum ImageFormat {
    Png,
    Jpeg,
    Webp,
}

/// PNG signature: eight fixed bytes.
pub open spec fn is_png(b: Seq<u8>) -> bool {
    &&& b.len() >= 8
    &&& b[0] == 0x89u8
    &&& b[1] == 0x50u8
    &&& b[2] == 0x4eu8
    &&& b[3] == 0x47u8
    &&& b[4] == 0x0du8
    &&& b[5] == 0x0au8
    &&& b[6] == 0x1au8
    &&& b[7] == 0x0au8
}

/// JPEG signature: SOI marker followed by a marker byte.
pub open spec fn is_jpeg(b: Seq<u8>) -> bool {
    &&& b.len() >= 3
    &&& b[0] == 0xffu8
    &&& b[1] == 0xd8u8
    &&& b[2] == 0xffu8
}

/// WebP signature: a RIFF container whose form type is `WEBP`.
pub open spec fn is_webp(b: Seq<u8>) -> bool {
    &&& b.len() >= 12
    &&& b[0] == 0x52u8
    &&& b[1] == 0x49u8
    &&& b[2] == 0x46u8
    &&& b[3] == 0x46u8
    &&& b[8] == 0x57u8
    &&& b[9] == 0x45u8
    &&& b[10] == 0x42u8
    &&& b[11] == 0x50u8
}

/// Container detection from magic bytes. Buffers that are none of
/// the accepted containers are an `ImgFormat` error.
pub fn guess_format(buf: &Vec<u8>) -> (r: Result<ImageFormat, AppError>)
    ensures
        is_png(buf@) ==> r == Result::<ImageFormat, AppError>::Ok(ImageFormat::Png),
        is_jpeg(buf@) ==> r == Result::<ImageFormat, AppError>::Ok(ImageFormat::Jpeg),
        is_webp(buf@) ==> r == Result::<ImageFormat, AppError>::Ok(ImageFormat::Webp),
        !(is_png(buf@) || is_jpeg(buf@) || is_webp(buf@)) ==> (r matches Result::Err(e)
            && e matches AppError::ImgFormat(_)),
{
    let n = buf.len();
    if n >= 8 && *buf.get(0).unwrap() == 0x89 && *buf.get(1).unwrap() == 0x50 && *buf.get(
        2,
    ).unwrap() == 0x4e && *buf.get(3).unwrap() == 0x47 && *buf.get(4).unwrap() == 0x0d && *buf.get(
        5,
    ).unwrap() == 0x0a && *buf.get(6).unwrap() == 0x1a && *buf.get(7).unwrap() == 0x0a {
        return Ok(ImageFormat::Png);
    }
    if n >= 3 && *buf.get(0).unwrap() == 0xff && *buf.get(1).unwrap() == 0xd8 && *buf.get(
        2,
    ).unwrap() == 0xff {
        return Ok(ImageFormat::Jpeg);
    }
    if n >= 12 && *buf.get(0).unwrap() == 0x52 && *buf.get(1).unwrap() == 0x49 && *buf.get(
        2,
    ).unwrap() == 0x46 && *buf.get(3).unwrap() == 0x46 && *buf.get(8).unwrap() == 0x57 && *buf.get(
        9,
    ).unwrap() == 0x45 && *buf.get(10).unwrap() == 0x42 && *buf.get(11).unwrap() == 0x50 {
        return Ok(ImageFormat::Webp);
    }
    Err(AppError::ImgFormat(String::from_str("unrecognised image container")))
}

/// Thumbnail geometry. Sources narrower than [`THUMB_WIDTH`] are kept
/// verbatim (`None`); all others are scaled to exactly that width,
/// the height following proportionally, rounded down.
pub fn downscale_dims(width: u32, height: u32) -> (r: Option<(u32, u32)>)
    ensures
        width < THUMB_WIDTH ==> r is None,
        width >= THUMB_WIDTH ==> r == Some(
            (THUMB_WIDTH, ((THUMB_WIDTH as int * height as int) / width as int) as u32),
        ),
{
    if width < THUMB_WIDTH {
        return None;
    }
    let w64: u64 = 512u64 * height as u64;
    let h64: u64 = w64 / width as u64;
    proof {
        assert(w64 == THUMB_WIDTH as int * height as int);
        assert(h64 == (THUMB_WIDTH as int * height as int) / width as int);
        assert(h64 <= height as int) by (nonlinear_arith)
            requires
                h64 == (512 * height as int) / width as int,
                width as int >= 512,
                height as int >= 0,
        ;
    }
    Some((THUMB_WIDTH, h64 as u32))
}

} // verus!
