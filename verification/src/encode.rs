use vstd::prelude::*;

use crate::error::PnmError;
use crate::pixel::PixelLayout;
use crate::pnm::PnmFormat;
use crate::stop::Stop;

verus! {

/// Unified encode request for all supported bitmap formats.
pub enum EncodeRequest {
    /// Encode to a PNM format.
    Pnm(PnmFormat),
    /// Encode to BMP.
    Bmp {
        /// Include an alpha channel (32-bit BMP); otherwise 24-bit.
        alpha: bool,
    },
}

impl EncodeRequest {
    /// Encode to a PNM format (P5/P6/P7/PFM).
    pub fn pnm(format: PnmFormat) -> (r: Self)
        ensures
            r == EncodeRequest::Pnm(format),
    {
        EncodeRequest::Pnm(format)
    }

    /// Encode to 24-bit BMP (RGB, no alpha).
    pub fn bmp() -> (r: Self)
        ensures
            r == (EncodeRequest::Bmp { alpha: false }),
    {
        EncodeRequest::Bmp { alpha: false }
    }

    /// Encode to 32-bit BMP (RGBA with alpha).
    pub fn bmp_with_alpha() -> (r: Self)
        ensures
            r == (EncodeRequest::Bmp { alpha: true }),
    {
        EncodeRequest::Bmp { alpha: true }
    }

    /// Encode pixels to bytes in the requested format.
    pub fn encode<S: Stop>(
        &self,
        pixels: &[u8],
        width: u32,
        height: u32,
        layout: PixelLayout,
        stop: &S,
    ) -> (r: Result<Vec<u8>, PnmError>)
        ensures
            match self {
                EncodeRequest::Pnm(format) => crate::pnm::encode_matches_spec(
                    pixels@,
                    width,
                    height,
                    layout,
                    *format,
                    stop.stop_requested(),
                    r,
                ),
                EncodeRequest::Bmp { alpha } => crate::bmp::bmp_encode_matches_spec(
                    pixels@,
                    width,
                    height,
                    layout,
                    *alpha,
                    stop.stop_requested(),
                    r,
                ),
            },
    {
        match self {
            EncodeRequest::Pnm(format) => crate::pnm::encode(
                pixels,
                width,
                height,
                layout,
                *format,
                stop,
            ),
            EncodeRequest::Bmp { alpha } => crate::bmp::encode::encode_bmp_inner(
                pixels,
                width,
                height,
                layout,
                *alpha,
                stop,
            ),
        }
    }
}

} // verus!
