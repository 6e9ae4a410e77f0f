//! Decoder and encoder for the binary PNM family (PGM, PPM, PAM, PFM) with
//! optional uncompressed 24/32-bit BMP support, designed for untrusted
//! input: header parsing, size arithmetic and pixel transcoding are
//! verified to return typed errors rather than panic on any byte sequence.
//!
//! Decoding a PNM image whose stored samples already are the canonical
//! packed representation (8-bit samples at maxval 255) returns a borrowed
//! view of the input: zero-copy. Every other path allocates.
//!
//! BMP is never auto-detected; use the explicit `decode_bmp` and
//! `encode_bmp` entry points.

use vstd::prelude::*;

pub mod bmp;
mod decode;
mod encode;
mod error;
mod info;
pub mod laws;
mod limits;
mod pixel;
pub mod pnm;
mod stop;
mod text;

pub use decode::{DecodeOutput, DecodeRequest};
pub use encode::EncodeRequest;
pub use error::{ErrKind, PnmError};
pub use info::{BitmapFormat, ImageInfo};
pub use limits::Limits;
pub use pixel::PixelLayout;
pub use stop::{Stop, Stopped, Unstoppable};

verus! {

/// Decode any PNM format (auto-detected from the magic bytes).
///
/// Zero-copy when possible: the returned [`DecodeOutput`] then borrows
/// from `data`. Does **not** auto-detect BMP; for BMP use [`decode_bmp`].
pub fn decode<'a, S: Stop>(data: &'a [u8], stop: &S) -> (r: Result<DecodeOutput<'a>, PnmError>)
    ensures
        pnm::decode_matches_spec(data@, None, stop.stop_requested(), r),
{
    pnm::decode(data, None, stop)
}

/// Decode any PNM format with resource limits.
pub fn decode_with_limits<'a, S: Stop>(
    data: &'a [u8],
    limits: &Limits,
    stop: &S,
) -> (r: Result<DecodeOutput<'a>, PnmError>)
    ensures
        pnm::decode_matches_spec(data@, Some(*limits), stop.stop_requested(), r),
{
    pnm::decode(data, Some(limits), stop)
}

/// Encode pixels as PPM (P6, binary RGB).
pub fn encode_ppm<S: Stop>(
    pixels: &[u8],
    width: u32,
    height: u32,
    layout: PixelLayout,
    stop: &S,
) -> (r: Result<Vec<u8>, PnmError>)
    ensures
        pnm::encode_matches_spec(
            pixels@,
            width,
            height,
            layout,
            pnm::PnmFormat::Ppm,
            stop.stop_requested(),
            r,
        ),
{
    pnm::encode(pixels, width, height, layout, pnm::PnmFormat::Ppm, stop)
}

/// Encode pixels as PGM (P5, binary grayscale).
pub fn encode_pgm<S: Stop>(
    pixels: &[u8],
    width: u32,
    height: u32,
    layout: PixelLayout,
    stop: &S,
) -> (r: Result<Vec<u8>, PnmError>)
    ensures
        pnm::encode_matches_spec(
            pixels@,
            width,
            height,
            layout,
            pnm::PnmFormat::Pgm,
            stop.stop_requested(),
            r,
        ),
{
    pnm::encode(pixels, width, height, layout, pnm::PnmFormat::Pgm, stop)
}

/// Encode pixels as PAM (P7, arbitrary channels).
pub fn encode_pam<S: Stop>(
    pixels: &[u8],
    width: u32,
    height: u32,
    layout: PixelLayout,
    stop: &S,
) -> (r: Result<Vec<u8>, PnmError>)
    ensures
        pnm::encode_matches_spec(
            pixels@,
            width,
            height,
            layout,
            pnm::PnmFormat::Pam,
            stop.stop_requested(),
            r,
        ),
{
    pnm::encode(pixels, width, height, layout, pnm::PnmFormat::Pam, stop)
}

/// Encode pixels as PFM (floating-point samples, stored little-endian with
/// a unit scale).
pub fn encode_pfm<S: Stop>(
    pixels: &[u8],
    width: u32,
    height: u32,
    layout: PixelLayout,
    stop: &S,
) -> (r: Result<Vec<u8>, PnmError>)
    ensures
        pnm::encode_matches_spec(
            pixels@,
            width,
            height,
            layout,
            pnm::PnmFormat::Pfm,
            stop.stop_requested(),
            r,
        ),
{
    pnm::encode(pixels, width, height, layout, pnm::PnmFormat::Pfm, stop)
}

/// Decode BMP data to pixels (explicit, never auto-detected).
///
/// BMP always allocates (BGR to RGB conversion plus a row flip).
pub fn decode_bmp<'a, S: Stop>(data: &'a [u8], stop: &S) -> (r: Result<
    DecodeOutput<'a>,
    PnmError,
>)
    ensures
        bmp::bmp_decode_matches_spec(data@, None, stop.stop_requested(), r),
{
    bmp::decode_bmp(data, stop)
}

/// Decode BMP with resource limits.
pub fn decode_bmp_with_limits<'a, S: Stop>(
    data: &'a [u8],
    limits: &Limits,
    stop: &S,
) -> (r: Result<DecodeOutput<'a>, PnmError>)
    ensures
        bmp::bmp_decode_matches_spec(data@, Some(*limits), stop.stop_requested(), r),
{
    bmp::decode_bmp_with_limits(data, Some(limits), stop)
}

/// Encode pixels as 24-bit BMP (RGB, no alpha).
pub fn encode_bmp<S: Stop>(
    pixels: &[u8],
    width: u32,
    height: u32,
    layout: PixelLayout,
    stop: &S,
) -> (r: Result<Vec<u8>, PnmError>)
    ensures
        bmp::bmp_encode_matches_spec(
            pixels@,
            width,
            height,
            layout,
            false,
            stop.stop_requested(),
            r,
        ),
{
    bmp::encode_bmp(pixels, width, height, layout, stop)
}

/// Encode pixels as 32-bit BMP (RGBA with alpha).
pub fn encode_bmp_rgba<S: Stop>(
    pixels: &[u8],
    width: u32,
    height: u32,
    layout: PixelLayout,
    stop: &S,
) -> (r: Result<Vec<u8>, PnmError>)
    ensures
        bmp::bmp_encode_matches_spec(
            pixels@,
            width,
            height,
            layout,
            true,
            stop.stop_requested(),
            r,
        ),
{
    bmp::encode_bmp_rgba(pixels, width, height, layout, stop)
}

} // verus!
