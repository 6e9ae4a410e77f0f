use vstd::prelude::*;

use crate::error::PnmError;
use crate::pixel::PixelLayout;

verus! {

/// Image container format identified from magic bytes.
#[non_exhaustive]
#[derive(Clone, Copy, Debug, PartialEq, Eq, Structural)]
pub enum BitmapFormat {
    /// P5, binary grayscale (PGM).
    Pgm,
    /// P6, binary RGB (PPM).
    Ppm,
    /// P7, PAM (arbitrary channels).
    Pam,
    /// PFM, floating-point samples.
    Pfm,
    /// BMP, Windows bitmap.
    Bmp,
}

/// Lightweight image metadata parsed from header bytes only, without
/// touching pixel data.
#[derive(Clone, Debug)]
pub struct ImageInfo {
    pub width: u32,
    pub height: u32,
    pub format: BitmapFormat,
    pub native_layout: PixelLayout,
}

impl ImageInfo {
    /// Parse image metadata from header bytes without decoding pixels.
    ///
    /// Auto-detects the PNM family only; BMP is probed through the explicit
    /// `bmp::probe` entry point and is rejected here.
    pub fn from_bytes(data: &[u8]) -> (r: Result<Self, PnmError>)
        ensures
            match r {
                Ok(info) => {
                    &&& crate::pnm::parse::header_spec(data@) is Ok
                    &&& {
                        let h = crate::pnm::parse::header_spec(data@)->Ok_0;
                        &&& info.width == h.width
                        &&& info.height == h.height
                        &&& info.format == crate::pnm::format_tag(h.format)
                        &&& info.native_layout == h.layout
                    }
                },
                Err(e) => {
                    &&& crate::pnm::parse::header_spec(data@) is Err
                    &&& crate::error::err_kind(e) == crate::pnm::parse::header_spec(data@)->Err_0
                },
            },
    {
        let h = crate::pnm::parse::parse_header(data)?;
        Ok(
            ImageInfo {
                width: h.width,
                height: h.height,
                format: crate::pnm::format_tag_exec(h.format),
                native_layout: h.layout,
            },
        )
    }
}

} // verus!
