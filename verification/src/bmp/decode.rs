//! BMP decoding: uncompressed 24-bit (BGR) and 32-bit (BGRA) bitmaps,
//! reordered to RGB(A) and flipped to top-down row order. Never zero-copy.

use vstd::prelude::*;
use vstd::bytes::{spec_u16_from_le_bytes, spec_u32_from_le_bytes, u16_from_le_bytes, u32_from_le_bytes};

use crate::decode::DecodeOutput;
use crate::error::{err_kind, ErrKind, PnmError};
use crate::info::BitmapFormat;
use crate::limits::Limits;
use crate::pixel::PixelLayout;
use crate::pnm::decode::{dims_ok, mem_ok, opt_limits, OutSpec};
use crate::stop::Stop;

verus! {

/// A parsed BMP file-plus-DIB header.
#[derive(Clone, Copy, Debug, PartialEq, Eq, Structural)]
pub struct BmpHeader {
    /// Image width; always positive.
    pub width: u32,
    /// Image height with the sign stripped; always positive.
    pub height: u32,
    /// Bits per pixel: 24 or 32.
    pub bits: u16,
    /// The stored height was negative: rows are stored top-down.
    pub top_down: bool,
    /// Byte offset of the pixel data, in `[54, input length]`.
    pub data_offset: u32,
    /// `Rgb8` for 24-bit input, `Rgba8` for 32-bit.
    pub layout: PixelLayout,
}

/// A little-endian 32-bit field at `off`.
pub open spec fn le32(d: Seq<u8>, off: int) -> u32 {
    spec_u32_from_le_bytes(d.subrange(off, off + 4))
}

/// A little-endian 16-bit field at `off`.
pub open spec fn le16(d: Seq<u8>, off: int) -> u16 {
    spec_u16_from_le_bytes(d.subrange(off, off + 2))
}

/// The signed reading of a stored 32-bit field.
pub open spec fn as_i32(u: u32) -> int {
    if u < 0x8000_0000 {
        u as int
    } else {
        u as int - 0x1_0000_0000
    }
}

/// Grammar of the fixed 54-byte BMP header: `BM`, pixel-data offset at 10,
/// signed width at 18 (must be positive) and height at 22 (negative means
/// top-down), bits per pixel at 28 (24 or 32), compression at 30 (must be
/// none).
pub open spec fn bmp_header_spec(d: Seq<u8>) -> Result<BmpHeader, ErrKind> {
    if d.len() < 54 {
        Err(ErrKind::UnexpectedEof)
    } else if !(d[0] == 66 && d[1] == 77) {
        Err(ErrKind::UnrecognizedFormat)
    } else {
        let off = le32(d, 10);
        let wu = le32(d, 18);
        let hu = le32(d, 22);
        let bits = le16(d, 28);
        let comp = le32(d, 30);
        if as_i32(wu) <= 0 {
            Err(ErrKind::InvalidHeader)
        } else if as_i32(hu) == 0 {
            Err(ErrKind::InvalidHeader)
        } else if !(bits == 24 || bits == 32) {
            Err(ErrKind::UnsupportedVariant)
        } else if comp != 0 {
            Err(ErrKind::UnsupportedVariant)
        } else if off < 54 {
            Err(ErrKind::InvalidHeader)
        } else if off > d.len() {
            Err(ErrKind::UnexpectedEof)
        } else {
            Ok(
                BmpHeader {
                    width: wu,
                    height: if hu >= 0x8000_0000 {
                        (0x1_0000_0000 - hu as int) as u32
                    } else {
                        hu
                    },
                    bits,
                    top_down: hu >= 0x8000_0000,
                    data_offset: off,
                    layout: if bits == 24 {
                        PixelLayout::Rgb8
                    } else {
                        PixelLayout::Rgba8
                    },
                },
            )
        }
    }
}

/// One decoded row: `w` pixels of `bpp` stored bytes each, starting at
/// `base`, each pixel's first three channels reversed (BGR to RGB) and a
/// fourth channel kept in place.
pub open spec fn bmp_row(src: Seq<u8>, base: int, w: int, bpp: int) -> Seq<u8> {
    Seq::new(
        (w * bpp) as nat,
        |j: int|
            {
                let c = j / bpp;
                let o = j % bpp;
                src[base + c * bpp + (if o == 3 {
                    3int
                } else {
                    2 - o
                })]
            },
    )
}

/// Decoded rows `r..h`: stored bottom-up by default, top-down when the
/// header says so.
pub open spec fn bmp_rows(
    src: Seq<u8>,
    w: int,
    h: int,
    stride: int,
    bpp: int,
    top_down: bool,
    r: int,
) -> Seq<u8>
    decreases h - r,
{
    if r >= h {
        Seq::empty()
    } else {
        bmp_row(
            src,
            (if top_down {
                r
            } else {
                h - 1 - r
            }) * stride,
            w,
            bpp,
        ) + bmp_rows(src, w, h, stride, bpp, top_down, r + 1)
    }
}

/// The 24-bit row stride: rows padded to a four-byte boundary.
pub open spec fn stride24(w: int) -> int {
    ((w * 3 + 3) / 4) * 4
}

/// The 24-bit stride covers the row and pads under four bytes.
pub proof fn lemma_stride24_bounds(w: int)
    requires
        w >= 0,
    ensures
        w * 3 <= stride24(w) <= w * 3 + 3,
        stride24(w) % 4 == 0,
{
    vstd::arithmetic::div_mod::lemma_fundamental_div_mod(w * 3 + 3, 4);
    assert(stride24(w) == (w * 3 + 3) - (w * 3 + 3) % 4);
    assert(0 <= (w * 3 + 3) % 4 < 4);
    assert(((w * 3 + 3) / 4) * 4 % 4 == 0) by (nonlinear_arith);
}

/// The verdict of decoding BMP data `d` under optional limits, with the
/// given cancellation state.
pub open spec fn bmp_decode_spec(d: Seq<u8>, limits: Option<Limits>, stopped: bool) -> Result<
    OutSpec,
    ErrKind,
> {
    match bmp_header_spec(d) {
        Err(k) => Err(k),
        Ok(h) => {
            if !dims_ok(limits, h.width, h.height) {
                Err(ErrKind::LimitExceeded)
            } else if stopped {
                Err(ErrKind::Cancelled)
            } else {
                let w = h.width as int;
                let ht = h.height as int;
                let bpp: int = if h.bits == 24 {
                    3
                } else {
                    4
                };
                let out_len = w * ht * bpp;
                if out_len > usize::MAX {
                    Err(ErrKind::DimensionsTooLarge { width: h.width, height: h.height })
                } else if !mem_ok(limits, out_len) {
                    Err(ErrKind::LimitExceeded)
                } else {
                    let stride = if h.bits == 24 {
                        stride24(w)
                    } else {
                        w * 4
                    };
                    let needed = stride * ht;
                    if needed > usize::MAX {
                        Err(ErrKind::DimensionsTooLarge { width: h.width, height: h.height })
                    } else if d.len() - h.data_offset < needed {
                        Err(ErrKind::UnexpectedEof)
                    } else {
                        Ok(
                            OutSpec {
                                bytes: bmp_rows(
                                    d.subrange(h.data_offset as int, d.len() as int),
                                    w,
                                    ht,
                                    stride,
                                    bpp,
                                    h.top_down,
                                    0,
                                ),
                                width: h.width,
                                height: h.height,
                                layout: h.layout,
                                format: BitmapFormat::Bmp,
                                borrowed: false,
                            },
                        )
                    }
                }
            }
        },
    }
}

/// Whether an execution result agrees with `bmp_decode_spec`.
pub open spec fn bmp_decode_matches_spec<'a>(
    d: Seq<u8>,
    limits: Option<Limits>,
    stopped: bool,
    r: Result<DecodeOutput<'a>, PnmError>,
) -> bool {
    match bmp_decode_spec(d, limits, stopped) {
        Ok(o) => r is Ok && crate::decode::out_matches(r->Ok_0, o),
        Err(k) => r is Err && err_kind(r->Err_0) == k,
    }
}

/// Parse the fixed 54-byte BMP header.
pub fn parse_bmp_header(data: &[u8]) -> (r: Result<BmpHeader, PnmError>)
    ensures
        match r {
            Ok(h) => bmp_header_spec(data@) == Ok::<BmpHeader, ErrKind>(h),
            Err(e) => bmp_header_spec(data@) is Err && err_kind(e) == bmp_header_spec(
                data@,
            )->Err_0,
        },
        r is Ok ==> {
            let h = r->Ok_0;
            &&& h.width >= 1
            &&& h.height >= 1
            &&& 54 <= h.data_offset <= data@.len()
            &&& (h.bits == 24 || h.bits == 32)
            &&& as_i32(le32(data@, 18)) == h.width as int
        },
{
    if data.len() < 54 {
        return Err(PnmError::UnexpectedEof);
    }
    if !(data[0] == 66 && data[1] == 77) {
        return Err(PnmError::UnrecognizedFormat);
    }
    let off = read_le32(data, 10);
    let wu = read_le32(data, 18);
    let hu = read_le32(data, 22);
    let bits = read_le16(data, 28);
    let comp = read_le32(data, 30);
    if wu == 0 || wu >= 0x8000_0000 {
        return Err(PnmError::InvalidHeader("width must be positive".to_owned()));
    }
    if hu == 0 {
        return Err(PnmError::InvalidHeader("height must be nonzero".to_owned()));
    }
    if !(bits == 24 || bits == 32) {
        return Err(
            PnmError::UnsupportedVariant("only 24-bit and 32-bit BMP are supported".to_owned()),
        );
    }
    if comp != 0 {
        return Err(PnmError::UnsupportedVariant("BMP compression is not supported".to_owned()));
    }
    if off < 54 {
        return Err(PnmError::InvalidHeader("pixel data offset inside header".to_owned()));
    }
    if off as usize > data.len() {
        return Err(PnmError::UnexpectedEof);
    }
    let top_down = hu >= 0x8000_0000;
    let height = if top_down {
        (0xffff_ffffu32 - hu) + 1
    } else {
        hu
    };
    Ok(
        BmpHeader {
            width: wu,
            height,
            bits,
            top_down,
            data_offset: off,
            layout: if bits == 24 {
                PixelLayout::Rgb8
            } else {
                PixelLayout::Rgba8
            },
        },
    )
}

/// Read a little-endian 32-bit field.
fn read_le32(data: &[u8], off: usize) -> (r: u32)
    requires
        off + 4 <= data@.len(),
    ensures
        r == le32(data@, off as int),
{
    let _n = data.len();
    let s = vstd::slice::slice_subrange(data, off, off + 4);
    u32_from_le_bytes(s)
}

/// Read a little-endian 16-bit field.
fn read_le16(data: &[u8], off: usize) -> (r: u16)
    requires
        off + 2 <= data@.len(),
    ensures
        r == le16(data@, off as int),
{
    let _n = data.len();
    let s = vstd::slice::slice_subrange(data, off, off + 2);
    u16_from_le_bytes(s)
}

/// Decode BMP data under optional limits and a stop token.
pub fn decode_bmp_inner<'a, S: Stop>(
    data: &'a [u8],
    limits: Option<&Limits>,
    stop: &S,
) -> (r: Result<DecodeOutput<'a>, PnmError>)
    ensures
        bmp_decode_matches_spec(data@, opt_limits(limits), stop.stop_requested(), r),
{
    let header = match parse_bmp_header(data) {
        Ok(h) => h,
        Err(e) => {
            return Err(e);
        },
    };
    if let Some(l) = limits {
        match l.check(header.width, header.height) {
            Ok(()) => {},
            Err(e) => {
                return Err(e);
            },
        }
    }
    if stop.check() {
        return Err(PnmError::Cancelled);
    }
    let w64 = header.width as u64;
    let h64 = header.height as u64;
    let bpp: u64 = if header.bits == 24 {
        3
    } else {
        4
    };
    proof {
        assert(w64 * h64 <= 0xffff_ffffu64 * 0xffff_ffffu64) by (nonlinear_arith)
            requires
                w64 <= 0xffff_ffffu64,
                h64 <= 0xffff_ffffu64,
        ;
    }
    let out_len = match (w64 * h64).checked_mul(bpp) {
        Some(v) => v,
        None => {
            return Err(
                PnmError::DimensionsTooLarge { width: header.width, height: header.height },
            );
        },
    };
    if out_len > usize::MAX as u64 {
        return Err(PnmError::DimensionsTooLarge { width: header.width, height: header.height });
    }
    if let Some(l) = limits {
        match l.check_memory(out_len) {
            Ok(()) => {},
            Err(e) => {
                return Err(e);
            },
        }
    }
    let stride: u64 = if header.bits == 24 {
        ((w64 * 3 + 3) / 4) * 4
    } else {
        w64 * 4
    };
    let needed = match stride.checked_mul(h64) {
        Some(v) => v,
        None => {
            return Err(
                PnmError::DimensionsTooLarge { width: header.width, height: header.height },
            );
        },
    };
    if needed > usize::MAX as u64 {
        return Err(PnmError::DimensionsTooLarge { width: header.width, height: header.height });
    }
    let off = header.data_offset as usize;
    let avail = data.len() - off;
    if (avail as u64) < needed {
        return Err(PnmError::UnexpectedEof);
    }
    proof {
        if header.bits == 24 {
            lemma_stride24_bounds(header.width as int);
        }
        assert(stride * 1 <= stride * h64) by (nonlinear_arith)
            requires
                h64 >= 1,
                stride >= 0,
        ;
    }
    let pix = vstd::slice::slice_subrange(data, off, data.len());
    let out = bmp_transform(
        pix,
        header.width as usize,
        header.height as usize,
        stride as usize,
        if header.bits == 24 {
            3
        } else {
            4
        },
        header.top_down,
    );
    Ok(
        DecodeOutput::owned(
            out,
            header.width,
            header.height,
            header.layout,
            BitmapFormat::Bmp,
        ),
    )
}

/// Assemble the decoded pixel rows.
fn bmp_transform(src: &[u8], w: usize, h: usize, stride: usize, bpp: usize, top_down: bool) -> (r:
    Vec<u8>)
    requires
        w >= 1,
        h >= 1,
        bpp == 3 || bpp == 4,
        w as int * bpp <= stride,
        stride as int * h as int <= src@.len(),
    ensures
        r@ == bmp_rows(src@, w as int, h as int, stride as int, bpp as int, top_down, 0),
{
    let src_n = src.len();
    proof {
        assert(stride as int <= stride as int * h as int) by (nonlinear_arith)
            requires
                h >= 1,
                stride >= 0,
        ;
    }
    let mut out: Vec<u8> = Vec::new();
    let mut r: usize = 0;
    while r < h
        invariant
            r <= h,
            w >= 1,
            bpp == 3 || bpp == 4,
            w as int * bpp <= stride,
            stride as int * h as int <= src@.len(),
            src@.len() == src_n,
            bmp_rows(src@, w as int, h as int, stride as int, bpp as int, top_down, 0) == out@
                + bmp_rows(src@, w as int, h as int, stride as int, bpp as int, top_down, r as int),
        decreases h - r,
    {
        proof {
            let sr = if top_down {
                r as int
            } else {
                h as int - 1 - r as int
            };
            assert(sr * stride as int >= 0 && sr * stride as int + stride as int <= stride as int
                * h as int) by (nonlinear_arith)
                requires
                    0 <= sr < h as int,
                    stride >= 0,
            ;
        }
        let src_row = if top_down {
            r
        } else {
            h - 1 - r
        };
        let base = src_row * stride;
        let ghost before = out@;
        push_bmp_row(&mut out, src, base, w, bpp);
        proof {
            let ghost tail = bmp_rows(
                src@,
                w as int,
                h as int,
                stride as int,
                bpp as int,
                top_down,
                r as int + 1,
            );
            assert(bmp_rows(src@, w as int, h as int, stride as int, bpp as int, top_down, r as int)
                == bmp_row(src@, base as int, w as int, bpp as int) + tail);
            assert((before + bmp_row(src@, base as int, w as int, bpp as int)) + tail =~= before
                + (bmp_row(src@, base as int, w as int, bpp as int) + tail));
        }
        r = r + 1;
    }
    proof {
        assert(bmp_rows(src@, w as int, h as int, stride as int, bpp as int, top_down, h as int)
            =~= Seq::<u8>::empty());
        assert(out@ + Seq::<u8>::empty() =~= out@);
    }
    out
}

/// Append one decoded row: each stored pixel's BGR(A) becomes RGB(A).
fn push_bmp_row(out: &mut Vec<u8>, src: &[u8], base: usize, w: usize, bpp: usize)
    requires
        bpp == 3 || bpp == 4,
        base + w as int * bpp <= src@.len(),
    ensures
        final(out)@ == old(out)@ + bmp_row(src@, base as int, w as int, bpp as int),
{
    let src_n = src.len();
    let ghost target = bmp_row(src@, base as int, w as int, bpp as int);
    let mut c: usize = 0;
    while c < w
        invariant
            c <= w,
            bpp == 3 || bpp == 4,
            base + w as int * bpp <= src@.len(),
            src@.len() == src_n,
            target == bmp_row(src@, base as int, w as int, bpp as int),
            out@ == old(out)@ + target.subrange(0, c as int * bpp),
        decreases w - c,
    {
        proof {
            assert(c as int * bpp >= 0 && c as int * bpp + bpp <= w as int * bpp)
                by (nonlinear_arith)
                requires
                    0 <= c < w,
                    bpp >= 1,
            ;
            lemma_idx_div_mod(c as int, bpp as int);
        }
        let off = base + c * bpp;
        let ghost before = out@;
        out.push(src[off + 2]);
        out.push(src[off + 1]);
        out.push(src[off]);
        if bpp == 4 {
            out.push(src[off + 3]);
        }
        proof {
            assert((c + 1) as int * bpp == c as int * bpp + bpp) by (nonlinear_arith);
            assert(target[c as int * bpp + 0] == src@[off + 2]);
            assert(target[c as int * bpp + 1] == src@[off + 1]);
            assert(target[c as int * bpp + 2] == src@[off as int]);
            if bpp == 4 {
                assert(target[c as int * bpp + 3] == src@[off + 3]);
            }
            assert(out@ =~= old(out)@ + target.subrange(0, (c + 1) as int * bpp));
        }
        c = c + 1;
    }
    proof {
        assert(target.subrange(0, w as int * bpp) =~= target);
    }
}

/// Division and remainder of the stored positions of pixel `c`.
proof fn lemma_idx_div_mod(c: int, bpp: int)
    requires
        c >= 0,
        bpp == 3 || bpp == 4,
    ensures
        (c * bpp) / bpp == c && (c * bpp) % bpp == 0,
        (c * bpp + 1) / bpp == c && (c * bpp + 1) % bpp == 1,
        (c * bpp + 2) / bpp == c && (c * bpp + 2) % bpp == 2,
        bpp == 4 ==> (c * bpp + 3) / bpp == c && (c * bpp + 3) % bpp == 3,
{
    assert((c * bpp) / bpp == c && (c * bpp) % bpp == 0 && (c * bpp + 1) / bpp == c && (c * bpp
        + 1) % bpp == 1 && (c * bpp + 2) / bpp == c && (c * bpp + 2) % bpp == 2 && (bpp == 4 ==> (c
        * bpp + 3) / bpp == c && (c * bpp + 3) % bpp == 3)) by (nonlinear_arith)
        requires
            c >= 0,
            bpp == 3 || bpp == 4,
    ;
}

/// BMP decoder over a borrowed byte buffer. Supports uncompressed 24-bit
/// (RGB) and 32-bit (RGBA) bitmaps.
pub struct BmpDecoder<'a> {
    data: &'a [u8],
}

impl<'a> BmpDecoder<'a> {
    /// The bytes this decoder reads.
    pub closed spec fn data_spec(&self) -> Seq<u8> {
        self.data@
    }

    /// Wrap a buffer holding a BMP image.
    pub fn new(data: &'a [u8]) -> (r: Self)
        ensures
            r.data_spec() == data@,
    {
        BmpDecoder { data }
    }

    /// Probe: dimensions and layout without decoding pixels.
    pub fn info(&self) -> (r: Result<(u32, u32, PixelLayout), PnmError>)
        ensures
            match r {
                Ok((w, h, l)) => {
                    &&& bmp_header_spec(self.data_spec()) is Ok
                    &&& {
                        let hd = bmp_header_spec(self.data_spec())->Ok_0;
                        w == hd.width && h == hd.height && l == hd.layout
                    }
                },
                Err(e) => {
                    &&& bmp_header_spec(self.data_spec()) is Err
                    &&& err_kind(e) == bmp_header_spec(self.data_spec())->Err_0
                },
            },
    {
        let h = parse_bmp_header(self.data)?;
        Ok((h.width, h.height, h.layout))
    }

    /// Decode to pixels (top-to-bottom, `Rgb8` or `Rgba8`).
    pub fn decode(self) -> (r: Result<DecodeOutput<'a>, PnmError>)
        ensures
            bmp_decode_matches_spec(self.data_spec(), None, false, r),
    {
        decode_bmp_inner(self.data, None, &crate::stop::Unstoppable)
    }
}

} // verus!
