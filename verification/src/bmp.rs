//! Basic BMP image format decoder and encoder.
//!
//! Supports uncompressed BMP with 24-bit (RGB) and 32-bit (RGBA) pixel
//! data. RLE, indexed color and advanced header versions are not
//! supported. This module is never auto-detected: the generic decode entry
//! points reject BMP data, and these explicit entry points must be used.

pub mod decode;
pub mod encode;

pub use decode::{BmpDecoder, bmp_decode_matches_spec, bmp_decode_spec, bmp_header_spec};
pub use encode::{BmpEncoder, bmp_encode_matches_spec, bmp_encode_spec};

use vstd::prelude::*;

use crate::decode::DecodeOutput;
use crate::error::{err_kind, ErrKind, PnmError};
use crate::info::{BitmapFormat, ImageInfo};
use crate::limits::Limits;
use crate::pixel::PixelLayout;
use crate::stop::Stop;

verus! {

/// Probe a BMP header for dimensions and layout without decoding pixels.
pub fn probe(data: &[u8]) -> (r: Result<ImageInfo, PnmError>)
    ensures
        match r {
            Ok(info) => {
                &&& bmp_header_spec(data@) is Ok
                &&& {
                    let h = bmp_header_spec(data@)->Ok_0;
                    &&& info.width == h.width
                    &&& info.height == h.height
                    &&& info.format == BitmapFormat::Bmp
                    &&& info.native_layout == h.layout
                }
            },
            Err(e) => {
                &&& bmp_header_spec(data@) is Err
                &&& err_kind(e) == bmp_header_spec(data@)->Err_0
            },
        },
{
    let h = decode::parse_bmp_header(data)?;
    Ok(
        ImageInfo {
            width: h.width,
            height: h.height,
            format: BitmapFormat::Bmp,
            native_layout: h.layout,
        },
    )
}

/// Decode BMP data to pixels.
///
/// BMP always allocates (BGR to RGB conversion plus a row flip).
pub fn decode_bmp<'a, S: Stop>(data: &'a [u8], stop: &S) -> (r: Result<
    DecodeOutput<'a>,
    PnmError,
>)
    ensures
        bmp_decode_matches_spec(data@, None, stop.stop_requested(), r),
{
    decode::decode_bmp_inner(data, None, stop)
}

/// Decode BMP data with resource limits.
pub fn decode_bmp_with_limits<'a, S: Stop>(
    data: &'a [u8],
    limits: Option<&Limits>,
    stop: &S,
) -> (r: Result<DecodeOutput<'a>, PnmError>)
    ensures
        bmp_decode_matches_spec(
            data@,
            crate::pnm::decode::opt_limits(limits),
            stop.stop_requested(),
            r,
        ),
{
    decode::decode_bmp_inner(data, limits, stop)
}

/// Encode pixels as 24-bit BMP (RGB, no alpha).
pub fn encode_bmp<S: Stop>(
    pixels: &[u8],
    width: u32,
    height: u32,
    layout: PixelLayout,
    stop: &S,
) -> (r: Result<Vec<u8>, PnmError>)
    ensures
        bmp_encode_matches_spec(pixels@, width, height, layout, false, stop.stop_requested(), r),
{
    encode::encode_bmp_inner(pixels, width, height, layout, false, stop)
}

/// Encode pixels as 32-bit BMP (RGBA with alpha).
pub fn encode_bmp_rgba<S: Stop>(
    pixels: &[u8],
    width: u32,
    height: u32,
    layout: PixelLayout,
    stop: &S,
) -> (r: Result<Vec<u8>, PnmError>)
    ensures
        bmp_encode_matches_spec(pixels@, width, height, layout, true, stop.stop_requested(), r),
{
    encode::encode_bmp_inner(pixels, width, height, layout, true, stop)
}

} // verus!
