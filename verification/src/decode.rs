use vstd::prelude::*;

use crate::error::PnmError;
use crate::info::BitmapFormat;
use crate::limits::Limits;
use crate::pixel::PixelLayout;
use crate::pnm::OutSpec;
use crate::stop::Stop;

verus! {

/// Pixel storage of a decode result: either a view aliasing the caller's
/// input buffer (zero-copy) or an independently allocated buffer.
#[derive(Debug)]
enum PixelSource<'a> {
    View(&'a [u8]),
    Owned(Vec<u8>),
}

/// Decoded image output. Pixels may be borrowed (zero-copy) or owned.
#[derive(Debug)]
pub struct DecodeOutput<'a> {
    pixels: PixelSource<'a>,
    pub width: u32,
    pub height: u32,
    pub layout: PixelLayout,
    pub format: BitmapFormat,
}

impl<'a> DecodeOutput<'a> {
    /// Everything this output holds, as a specification value: the pixel
    /// bytes, the dimensions, layout and format, and whether the bytes
    /// alias the caller's input.
    pub closed spec fn out_spec(&self) -> OutSpec {
        OutSpec {
            bytes: match self.pixels {
                PixelSource::View(s) => s@,
                PixelSource::Owned(v) => v@,
            },
            width: self.width,
            height: self.height,
            layout: self.layout,
            format: self.format,
            borrowed: self.pixels is View,
        }
    }

    /// The pixel bytes this output holds, as a mathematical sequence.
    pub open spec fn bytes(&self) -> Seq<u8> {
        self.out_spec().bytes
    }

    /// Whether the pixel bytes alias the caller's input buffer.
    pub open spec fn borrows(&self) -> bool {
        self.out_spec().borrowed
    }

    /// Access the pixel data.
    pub fn pixels(&self) -> (r: &[u8])
        ensures
            r@ == self.bytes(),
    {
        match &self.pixels {
            PixelSource::View(s) => s,
            PixelSource::Owned(v) => v.as_slice(),
        }
    }

    /// Take ownership of the pixel data (copies once if borrowed).
    pub fn into_owned(self) -> (r: DecodeOutput<'static>)
        ensures
            r.out_spec() == (OutSpec { borrowed: false, ..self.out_spec() }),
    {
        let pixels: Vec<u8> = match self.pixels {
            PixelSource::View(s) => slice_to_vec(s),
            PixelSource::Owned(v) => v,
        };
        DecodeOutput {
            pixels: PixelSource::Owned(pixels),
            width: self.width,
            height: self.height,
            layout: self.layout,
            format: self.format,
        }
    }

    /// Whether the pixel data is borrowed (zero-copy from the input).
    pub fn is_borrowed(&self) -> (r: bool)
        ensures
            r == self.borrows(),
    {
        match &self.pixels {
            PixelSource::View(_) => true,
            PixelSource::Owned(_) => false,
        }
    }

    /// Wraps a view into the caller's input buffer.
    pub(crate) fn borrowed(
        data: &'a [u8],
        width: u32,
        height: u32,
        layout: PixelLayout,
        format: BitmapFormat,
    ) -> (r: Self)
        ensures
            r.out_spec() == (OutSpec {
                bytes: data@,
                width,
                height,
                layout,
                format,
                borrowed: true,
            }),
    {
        DecodeOutput { pixels: PixelSource::View(data), width, height, layout, format }
    }

    /// Wraps a freshly allocated buffer.
    pub(crate) fn owned(
        data: Vec<u8>,
        width: u32,
        height: u32,
        layout: PixelLayout,
        format: BitmapFormat,
    ) -> (r: Self)
        ensures
            r.out_spec() == (OutSpec {
                bytes: data@,
                width,
                height,
                layout,
                format,
                borrowed: false,
            }),
    {
        DecodeOutput { pixels: PixelSource::Owned(data), width, height, layout, format }
    }
}

/// Whether a decode output carries exactly what a spec-level output says.
pub open spec fn out_matches<'a>(x: DecodeOutput<'a>, o: OutSpec) -> bool {
    x.out_spec() == o
}

/// Copies a slice into a fresh vector.
fn slice_to_vec(s: &[u8]) -> (r: Vec<u8>)
    ensures
        r@ == s@,
{
    let mut out: Vec<u8> = Vec::new();
    out.extend_from_slice(s);
    proof {
        assert(out@ =~= s@);
    }
    out
}

/// Unified decode request for the auto-detected PNM family.
///
/// BMP is never auto-detected; use the explicit BMP entry points.
pub struct DecodeRequest<'a> {
    data: &'a [u8],
    limits: Option<&'a Limits>,
}

impl<'a> DecodeRequest<'a> {
    /// The input bytes of this request.
    pub closed spec fn data_spec(&self) -> Seq<u8> {
        self.data@
    }

    /// The configured limits of this request, if any.
    pub closed spec fn limits_spec(&self) -> Option<Limits> {
        match self.limits {
            Some(l) => Some(*l),
            None => None,
        }
    }

    /// Create a decode request for the given data. The PNM sub-format is
    /// auto-detected from magic bytes.
    pub fn new(data: &'a [u8]) -> (r: Self)
        ensures
            r.data_spec() == data@,
            r.limits_spec() is None,
    {
        DecodeRequest { data, limits: None }
    }

    /// Set resource limits.
    pub fn with_limits(self, limits: &'a Limits) -> (r: Self)
        ensures
            r.data_spec() == self.data_spec(),
            r.limits_spec() == Some(*limits),
    {
        DecodeRequest { data: self.data, limits: Some(limits) }
    }

    /// Decode the image. Returns zero-copy output when possible.
    pub fn decode<S: Stop>(self, stop: &S) -> (r: Result<DecodeOutput<'a>, PnmError>)
        ensures
            crate::pnm::decode_matches_spec(
                self.data_spec(),
                self.limits_spec(),
                stop.stop_requested(),
                r,
            ),
    {
        crate::pnm::decode(self.data, self.limits, stop)
    }
}

} // verus!
