use vstd::prelude::*;

verus! {

/// Pixel memory layout of a decoded buffer.
#[non_exhaustive]
#[derive(Clone, Copy, Debug, PartialEq, Eq, Structural)]
pub enum PixelLayout {
    /// Single channel, 8-bit grayscale.
    Gray8,
    /// Single channel, 16-bit grayscale (big-endian sample pairs, as stored).
    Gray16,
    /// 3 channels, 8-bit RGB.
    Rgb8,
    /// 4 channels, 8-bit RGBA.
    Rgba8,
    /// 3 channels, 8-bit BGR.
    Bgr8,
    /// 4 channels, 8-bit BGRA.
    Bgra8,
    /// Single channel, 32-bit float grayscale (little-endian sample bytes).
    GrayF32,
    /// 3 channels, 32-bit float RGB (little-endian sample bytes).
    RgbF32,
}

/// Bytes per pixel of a layout, as a mathematical integer.
pub open spec fn bpp_spec(l: PixelLayout) -> int {
    match l {
        PixelLayout::Gray8 => 1,
        PixelLayout::Gray16 => 2,
        PixelLayout::Rgb8 => 3,
        PixelLayout::Rgba8 => 4,
        PixelLayout::Bgr8 => 3,
        PixelLayout::Bgra8 => 4,
        PixelLayout::GrayF32 => 4,
        PixelLayout::RgbF32 => 12,
    }
}

/// Channel count of a layout, as a mathematical integer.
pub open spec fn channels_spec(l: PixelLayout) -> int {
    match l {
        PixelLayout::Gray8 => 1,
        PixelLayout::Gray16 => 1,
        PixelLayout::Rgb8 => 3,
        PixelLayout::Rgba8 => 4,
        PixelLayout::Bgr8 => 3,
        PixelLayout::Bgra8 => 4,
        PixelLayout::GrayF32 => 1,
        PixelLayout::RgbF32 => 3,
    }
}

impl PixelLayout {
    /// Bytes per pixel for this layout.
    pub fn bytes_per_pixel(&self) -> (r: usize)
        ensures
            r == bpp_spec(*self),
    {
        match self {
            Self::Gray8 => 1,
            Self::Gray16 => 2,
            Self::Rgb8 | Self::Bgr8 => 3,
            Self::Rgba8 | Self::Bgra8 => 4,
            Self::GrayF32 => 4,
            Self::RgbF32 => 12,
        }
    }

    /// Number of channels.
    pub fn channels(&self) -> (r: usize)
        ensures
            r == channels_spec(*self),
    {
        match self {
            Self::Gray8 | Self::Gray16 | Self::GrayF32 => 1,
            Self::Rgb8 | Self::Bgr8 | Self::RgbF32 => 3,
            Self::Rgba8 | Self::Bgra8 => 4,
        }
    }
}

} // verus!
