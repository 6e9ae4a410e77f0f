//! The PNM family: P5 (PGM), P6 (PPM), P7 (PAM) and PFM.

use vstd::prelude::*;

pub mod decode;
pub mod encode;
pub mod parse;
pub mod scale;

pub use decode::{decode, decode_matches_spec, decode_spec, opt_limits, OutSpec, PnmDecoder};
pub use encode::{encode, encode_matches_spec, encode_spec, PnmEncoder};
pub use parse::{header_spec, header_wf, parse_header};

use crate::info::BitmapFormat;
use crate::pixel::PixelLayout;

verus! {

/// Which PNM sub-format a header declares.
#[derive(Clone, Copy, Debug, PartialEq, Eq, Structural)]
pub enum PnmFormat {
    Pgm,
    Ppm,
    Pam,
    Pfm,
}

/// The container tag of a PNM sub-format.
pub open spec fn format_tag(f: PnmFormat) -> BitmapFormat {
    match f {
        PnmFormat::Pgm => BitmapFormat::Pgm,
        PnmFormat::Ppm => BitmapFormat::Ppm,
        PnmFormat::Pam => BitmapFormat::Pam,
        PnmFormat::Pfm => BitmapFormat::Pfm,
    }
}

/// The container tag of a PNM sub-format.
pub fn format_tag_exec(f: PnmFormat) -> (r: BitmapFormat)
    ensures
        r == format_tag(f),
{
    match f {
        PnmFormat::Pgm => BitmapFormat::Pgm,
        PnmFormat::Ppm => BitmapFormat::Ppm,
        PnmFormat::Pam => BitmapFormat::Pam,
        PnmFormat::Pfm => BitmapFormat::Pfm,
    }
}

/// A parsed PNM header: dimensions, sample metadata, derived layout, and
/// the offset where pixel data begins.
#[derive(Clone, Copy, Debug, PartialEq, Eq, Structural)]
pub struct PnmHeader {
    pub format: PnmFormat,
    /// Image width; always positive.
    pub width: u32,
    /// Image height; always positive.
    pub height: u32,
    /// Maximum sample value, in `[1, 65535]`; zero for PFM, which carries a
    /// scale factor instead.
    pub maxval: u32,
    /// Channel count.
    pub depth: u32,
    /// Layout of the decoded pixel buffer.
    pub layout: PixelLayout,
    /// PFM only: samples are stored little-endian (the header's scale was
    /// negative).
    pub little_endian: bool,
    /// Byte offset where pixel data begins, at most the input length.
    pub data_offset: usize,
}

} // verus!
