use vstd::prelude::*;

use crate::pixel::PixelLayout;

verus! {

/// Errors from PNM/BMP decoding and encoding.
///
/// Every failure is reported through this closed taxonomy; the verified
/// functions of this crate never panic.
#[derive(Debug, Clone, PartialEq, Eq)]
pub enum PnmError {
    /// The magic bytes match no supported format.
    UnrecognizedFormat,
    /// The header violates the format's grammar or numeric ranges.
    InvalidHeader(String),
    /// The container is recognized but uses a variant this crate does not
    /// implement.
    UnsupportedVariant(String),
    /// The pixel payload is malformed.
    InvalidData(String),
    /// A size computation on the claimed dimensions would overflow.
    DimensionsTooLarge { width: u32, height: u32 },
    /// The input ended before the structure it promised.
    UnexpectedEof,
    /// A typed-pixel caller asked for a layout other than the decoded one.
    LayoutMismatch { expected: PixelLayout, actual: PixelLayout },
    /// An encoder was handed fewer pixel bytes than the dimensions require.
    BufferTooSmall { needed: usize, actual: usize },
    /// A caller-supplied resource ceiling was exceeded.
    LimitExceeded(String),
    /// The caller-supplied stop token requested cancellation.
    Cancelled,
}

/// The identity of an error, with its numeric payload but without the
/// human-readable reason text. Contracts speak of this.
pub enum ErrKind {
    UnrecognizedFormat,
    InvalidHeader,
    UnsupportedVariant,
    InvalidData,
    DimensionsTooLarge { width: u32, height: u32 },
    UnexpectedEof,
    LayoutMismatch { expected: PixelLayout, actual: PixelLayout },
    BufferTooSmall { needed: usize, actual: usize },
    LimitExceeded,
    Cancelled,
}

/// Maps an error value to its kind.
pub open spec fn err_kind(e: PnmError) -> ErrKind {
    match e {
        PnmError::UnrecognizedFormat => ErrKind::UnrecognizedFormat,
        PnmError::InvalidHeader(_) => ErrKind::InvalidHeader,
        PnmError::UnsupportedVariant(_) => ErrKind::UnsupportedVariant,
        PnmError::InvalidData(_) => ErrKind::InvalidData,
        PnmError::DimensionsTooLarge { width, height } => ErrKind::DimensionsTooLarge {
            width,
            height,
        },
        PnmError::UnexpectedEof => ErrKind::UnexpectedEof,
        PnmError::LayoutMismatch { expected, actual } => ErrKind::LayoutMismatch {
            expected,
            actual,
        },
        PnmError::BufferTooSmall { needed, actual } => ErrKind::BufferTooSmall { needed, actual },
        PnmError::LimitExceeded(_) => ErrKind::LimitExceeded,
        PnmError::Cancelled => ErrKind::Cancelled,
    }
}

impl PnmError {
    /// A short human-readable description of the error.
    pub fn describe(&self) -> String {
        match self {
            PnmError::UnrecognizedFormat => "unrecognized format magic bytes".to_owned(),
            PnmError::InvalidHeader(_) => "invalid header".to_owned(),
            PnmError::UnsupportedVariant(_) => "unsupported format variant".to_owned(),
            PnmError::InvalidData(_) => "invalid pixel data".to_owned(),
            PnmError::DimensionsTooLarge { .. } => "dimensions too large".to_owned(),
            PnmError::UnexpectedEof => "unexpected end of input".to_owned(),
            PnmError::LayoutMismatch { .. } => "pixel layout mismatch".to_owned(),
            PnmError::BufferTooSmall { .. } => "buffer too small".to_owned(),
            PnmError::LimitExceeded(_) => "resource limit exceeded".to_owned(),
            PnmError::Cancelled => "operation cancelled".to_owned(),
        }
    }
}

} // verus!
