//! BMP encoding: a fixed 54-byte header (bottom-up, uncompressed), then
//! RGB(A)-family pixels reordered to BGR(A), 24-bit rows padded to a
//! four-byte boundary.

use vstd::prelude::*;
use vstd::bytes::{spec_u16_to_le_bytes, spec_u32_to_le_bytes, u16_to_le_bytes, u32_to_le_bytes};

use crate::error::{err_kind, ErrKind, PnmError};
use crate::pixel::{bpp_spec, PixelLayout};
use crate::stop::Stop;
use super::decode::{lemma_stride24_bounds, stride24};

verus! {

/// Whether the BMP encoder accepts a layout.
pub open spec fn bmp_enc_supports(layout: PixelLayout) -> bool {
    match layout {
        PixelLayout::Rgb8 | PixelLayout::Bgr8 | PixelLayout::Rgba8 | PixelLayout::Bgra8
            | PixelLayout::Gray8 => true,
        _ => false,
    }
}

/// The red, green and blue channels of pixel `i` of a packed buffer.
pub open spec fn src_rgb(p: Seq<u8>, i: int, layout: PixelLayout) -> (u8, u8, u8) {
    match layout {
        PixelLayout::Rgb8 => (p[3 * i], p[3 * i + 1], p[3 * i + 2]),
        PixelLayout::Bgr8 => (p[3 * i + 2], p[3 * i + 1], p[3 * i]),
        PixelLayout::Rgba8 => (p[4 * i], p[4 * i + 1], p[4 * i + 2]),
        PixelLayout::Bgra8 => (p[4 * i + 2], p[4 * i + 1], p[4 * i]),
        PixelLayout::Gray8 => (p[i], p[i], p[i]),
        _ => (0, 0, 0),
    }
}

/// The alpha channel of pixel `i`; opaque for layouts without one.
pub open spec fn src_alpha(p: Seq<u8>, i: int, layout: PixelLayout) -> u8 {
    match layout {
        PixelLayout::Rgba8 | PixelLayout::Bgra8 => p[4 * i + 3],
        _ => 255,
    }
}

/// One encoded 24-bit row of pixels `pixbase..pixbase + w`, stored BGR,
/// padded with zeros to the stride.
pub open spec fn bmp_enc_row24(p: Seq<u8>, pixbase: int, w: int, layout: PixelLayout) -> Seq<u8> {
    Seq::new(
        stride24(w) as nat,
        |j: int|
            if j >= w * 3 {
                0u8
            } else {
                let c = j / 3;
                let rgb = src_rgb(p, pixbase + c, layout);
                if j % 3 == 0 {
                    rgb.2
                } else if j % 3 == 1 {
                    rgb.1
                } else {
                    rgb.0
                }
            },
    )
}

/// One encoded 32-bit row, stored BGRA.
pub open spec fn bmp_enc_row32(p: Seq<u8>, pixbase: int, w: int, layout: PixelLayout) -> Seq<u8> {
    Seq::new(
        (w * 4) as nat,
        |j: int|
            {
                let c = j / 4;
                let rgb = src_rgb(p, pixbase + c, layout);
                if j % 4 == 0 {
                    rgb.2
                } else if j % 4 == 1 {
                    rgb.1
                } else if j % 4 == 2 {
                    rgb.0
                } else {
                    src_alpha(p, pixbase + c, layout)
                }
            },
    )
}

/// Encoded pixel rows `r..h`, written bottom-up.
pub open spec fn bmp_enc_rows(
    p: Seq<u8>,
    w: int,
    h: int,
    layout: PixelLayout,
    alpha: bool,
    r: int,
) -> Seq<u8>
    decreases h - r,
{
    if r >= h {
        Seq::empty()
    } else {
        (if alpha {
            bmp_enc_row32(p, (h - 1 - r) * w, w, layout)
        } else {
            bmp_enc_row24(p, (h - 1 - r) * w, w, layout)
        }) + bmp_enc_rows(p, w, h, layout, alpha, r + 1)
    }
}

/// The fixed 54-byte header: `BM`, file size, pixel-data offset 54, a
/// 40-byte DIB block with positive (bottom-up) height, the bit depth, no
/// compression, and 72 DPI resolution fields.
pub open spec fn bmp_enc_header(alpha: bool, w: u32, h: u32, pds: u32) -> Seq<u8> {
    seq![66u8, 77u8] + spec_u32_to_le_bytes((54 + pds) as u32) + seq![0u8, 0u8, 0u8, 0u8]
        + spec_u32_to_le_bytes(54u32) + spec_u32_to_le_bytes(40u32) + spec_u32_to_le_bytes(w)
        + spec_u32_to_le_bytes(h) + spec_u16_to_le_bytes(1u16) + spec_u16_to_le_bytes(
        if alpha {
            32u16
        } else {
            24u16
        },
    ) + spec_u32_to_le_bytes(0u32) + spec_u32_to_le_bytes(pds) + spec_u32_to_le_bytes(2835u32)
        + spec_u32_to_le_bytes(2835u32) + spec_u32_to_le_bytes(0u32) + spec_u32_to_le_bytes(0u32)
}

/// The verdict of encoding pixels as BMP.
pub open spec fn bmp_encode_spec(
    p: Seq<u8>,
    w: u32,
    h: u32,
    layout: PixelLayout,
    alpha: bool,
    stopped: bool,
) -> Result<Seq<u8>, ErrKind> {
    let needed = w as int * h as int * bpp_spec(layout);
    if needed > usize::MAX {
        Err(ErrKind::DimensionsTooLarge { width: w, height: h })
    } else if p.len() < needed {
        Err(ErrKind::BufferTooSmall { needed: needed as usize, actual: p.len() as usize })
    } else if stopped {
        Err(ErrKind::Cancelled)
    } else if !bmp_enc_supports(layout) {
        Err(ErrKind::UnsupportedVariant)
    } else {
        let stride = if alpha {
            w as int * 4
        } else {
            stride24(w as int)
        };
        let pds = stride * h as int;
        if 54 + pds > u32::MAX {
            Err(ErrKind::DimensionsTooLarge { width: w, height: h })
        } else {
            Ok(bmp_enc_header(alpha, w, h, pds as u32) + bmp_enc_rows(p, w as int, h as int, layout, alpha, 0))
        }
    }
}

/// Whether an execution result agrees with `bmp_encode_spec`.
pub open spec fn bmp_encode_matches_spec(
    p: Seq<u8>,
    w: u32,
    h: u32,
    layout: PixelLayout,
    alpha: bool,
    stopped: bool,
    r: Result<Vec<u8>, PnmError>,
) -> bool {
    match bmp_encode_spec(p, w, h, layout, alpha, stopped) {
        Ok(bytes) => r is Ok && r->Ok_0@ == bytes,
        Err(k) => r is Err && err_kind(r->Err_0) == k,
    }
}

/// Append a little-endian 32-bit field.
fn push_le32(out: &mut Vec<u8>, v: u32)
    ensures
        final(out)@ == old(out)@ + spec_u32_to_le_bytes(v),
{
    let bytes = u32_to_le_bytes(v);
    out.extend_from_slice(bytes.as_slice());
    proof {
        assert(final(out)@ =~= old(out)@ + spec_u32_to_le_bytes(v));
    }
}

/// Append a little-endian 16-bit field.
fn push_le16(out: &mut Vec<u8>, v: u16)
    ensures
        final(out)@ == old(out)@ + spec_u16_to_le_bytes(v),
{
    let bytes = u16_to_le_bytes(v);
    out.extend_from_slice(bytes.as_slice());
    proof {
        assert(final(out)@ =~= old(out)@ + spec_u16_to_le_bytes(v));
    }
}

/// The red, green, blue and alpha of pixel `i`.
fn get_rgba_exec(p: &[u8], i: usize, layout: PixelLayout) -> (r: (u8, u8, u8, u8))
    requires
        bmp_enc_supports(layout),
        i as int * bpp_spec(layout) + bpp_spec(layout) <= p@.len(),
        i as int * bpp_spec(layout) >= 0,
    ensures
        (r.0, r.1, r.2) == src_rgb(p@, i as int, layout),
        r.3 == src_alpha(p@, i as int, layout),
{
    let _pn = p.len();
    match layout {
        PixelLayout::Rgb8 => {
            let off = i * 3;
            (p[off], p[off + 1], p[off + 2], 255)
        },
        PixelLayout::Bgr8 => {
            let off = i * 3;
            (p[off + 2], p[off + 1], p[off], 255)
        },
        PixelLayout::Rgba8 => {
            let off = i * 4;
            (p[off], p[off + 1], p[off + 2], p[off + 3])
        },
        PixelLayout::Bgra8 => {
            let off = i * 4;
            (p[off + 2], p[off + 1], p[off], p[off + 3])
        },
        _ => {
            let g = p[i];
            (g, g, g, 255)
        },
    }
}

/// Encode pixels as BMP: 24-bit BGR by default, 32-bit BGRA with `alpha`.
#[verifier::rlimit(100)]
#[verifier::spinoff_prover]
pub fn encode_bmp_inner<S: Stop>(
    pixels: &[u8],
    width: u32,
    height: u32,
    layout: PixelLayout,
    alpha: bool,
    stop: &S,
) -> (r: Result<Vec<u8>, PnmError>)
    ensures
        bmp_encode_matches_spec(
            pixels@,
            width,
            height,
            layout,
            alpha,
            stop.stop_requested(),
            r,
        ),
{
    let w64 = width as u64;
    let h64 = height as u64;
    let bpp = layout.bytes_per_pixel();
    proof {
        assert(w64 * h64 <= 0xffff_ffffu64 * 0xffff_ffffu64) by (nonlinear_arith)
            requires
                w64 <= 0xffff_ffffu64,
                h64 <= 0xffff_ffffu64,
        ;
    }
    let wh = w64 * h64;
    let needed64 = match wh.checked_mul(bpp as u64) {
        Some(v) => v,
        None => {
            return Err(PnmError::DimensionsTooLarge { width, height });
        },
    };
    if needed64 > usize::MAX as u64 {
        return Err(PnmError::DimensionsTooLarge { width, height });
    }
    let needed = needed64 as usize;
    if pixels.len() < needed {
        return Err(PnmError::BufferTooSmall { needed, actual: pixels.len() });
    }
    if stop.check() {
        return Err(PnmError::Cancelled);
    }
    match layout {
        PixelLayout::Rgb8 | PixelLayout::Bgr8 | PixelLayout::Rgba8 | PixelLayout::Bgra8
            | PixelLayout::Gray8 => {},
        _ => {
            return Err(
                PnmError::UnsupportedVariant("cannot encode this layout as BMP".to_owned()),
            );
        },
    }
    let stride: u64 = if alpha {
        w64 * 4
    } else {
        ((w64 * 3 + 3) / 4) * 4
    };
    let pds = match stride.checked_mul(h64) {
        Some(v) => v,
        None => {
            return Err(PnmError::DimensionsTooLarge { width, height });
        },
    };
    if pds > u32::MAX as u64 - 54 {
        return Err(PnmError::DimensionsTooLarge { width, height });
    }
    proof {
        if !alpha {
            lemma_stride24_bounds(width as int);
            if h64 >= 1 {
                assert(stride * 1 <= stride * h64) by (nonlinear_arith)
                    requires
                        h64 >= 1,
                        stride >= 0,
                ;
            }
        }
    }
    let mut out: Vec<u8> = Vec::new();
    out.push(66);
    out.push(77);
    push_le32(&mut out, 54 + pds as u32);
    out.push(0);
    out.push(0);
    out.push(0);
    out.push(0);
    push_le32(&mut out, 54);
    push_le32(&mut out, 40);
    push_le32(&mut out, width);
    push_le32(&mut out, height);
    push_le16(&mut out, 1);
    push_le16(
        &mut out,
        if alpha {
            32
        } else {
            24
        },
    );
    push_le32(&mut out, 0);
    push_le32(&mut out, pds as u32);
    push_le32(&mut out, 2835);
    push_le32(&mut out, 2835);
    push_le32(&mut out, 0);
    push_le32(&mut out, 0);
    proof {
        assert(out@ =~= bmp_enc_header(alpha, width, height, pds as u32));
    }
    let ghost header = out@;
    let w = width as usize;
    let h = height as usize;
    proof {
        assert(wh as int * 1 <= wh as int * bpp as int) by (nonlinear_arith)
            requires
                bpp >= 1,
                wh >= 0,
        ;
    }
    let mut r: usize = 0;
    while r < h
        invariant
            r <= h,
            w == width as int,
            h == height as int,
            bmp_enc_supports(layout),
            w as int * h as int * bpp_spec(layout) <= pixels@.len(),
            pixels@.len() <= usize::MAX,
            !alpha && h >= 1 ==> w as int * 3 + 3 <= usize::MAX,
            bmp_enc_rows(pixels@, w as int, h as int, layout, alpha, 0) == out@.subrange(
                header.len() as int,
                out@.len() as int,
            ) + bmp_enc_rows(pixels@, w as int, h as int, layout, alpha, r as int),
            out@.subrange(0, header.len() as int) == header,
            out@.len() >= header.len(),
        decreases h - r,
    {
        proof {
            assert((h as int - 1 - r as int) * w as int >= 0 && ((h as int - 1 - r as int)
                * w as int + w as int) * bpp_spec(layout) <= w as int * h as int * bpp_spec(
                layout,
            ) && (h as int - 1 - r as int) * w as int + w as int <= ((h as int - 1 - r as int)
                * w as int + w as int) * bpp_spec(layout)) by (nonlinear_arith)
                requires
                    0 <= r < h,
                    w >= 0,
                    bpp_spec(layout) >= 1,
            ;
        }
        let pixbase = (h - 1 - r) * w;
        let ghost before = out@;
        if alpha {
            push_bmp_enc_row32(&mut out, pixels, pixbase, w, layout);
        } else {
            push_bmp_enc_row24(&mut out, pixels, pixbase, w, layout);
        }
        proof {
            let rowseq = if alpha {
                bmp_enc_row32(pixels@, pixbase as int, w as int, layout)
            } else {
                bmp_enc_row24(pixels@, pixbase as int, w as int, layout)
            };
            assert(bmp_enc_rows(pixels@, w as int, h as int, layout, alpha, r as int) == rowseq
                + bmp_enc_rows(pixels@, w as int, h as int, layout, alpha, r as int + 1));
            assert(out@ =~= before + rowseq);
            assert(out@.subrange(0, header.len() as int) =~= header);
            assert(out@.subrange(header.len() as int, out@.len() as int) =~= before.subrange(
                header.len() as int,
                before.len() as int,
            ) + rowseq);
            assert(before.subrange(header.len() as int, before.len() as int) + (rowseq
                + bmp_enc_rows(pixels@, w as int, h as int, layout, alpha, r as int + 1)) =~= (
            before.subrange(header.len() as int, before.len() as int) + rowseq) + bmp_enc_rows(
                pixels@,
                w as int,
                h as int,
                layout,
                alpha,
                r as int + 1,
            ));
        }
        r = r + 1;
    }
    proof {
        assert(bmp_enc_rows(pixels@, w as int, h as int, layout, alpha, h as int) =~= Seq::<
            u8,
        >::empty());
        let tail = out@.subrange(header.len() as int, out@.len() as int);
        assert(tail + Seq::<u8>::empty() =~= tail);
        assert(out@ =~= header + tail);
    }
    Ok(out)
}

/// Append one 24-bit BGR row with its padding.
fn push_bmp_enc_row24(out: &mut Vec<u8>, p: &[u8], pixbase: usize, w: usize, layout: PixelLayout)
    requires
        bmp_enc_supports(layout),
        (pixbase + w) as int * bpp_spec(layout) <= p@.len(),
        w as int * 3 + 3 <= usize::MAX,
    ensures
        final(out)@ == old(out)@ + bmp_enc_row24(p@, pixbase as int, w as int, layout),
{
    let p_n = p.len();
    let ghost target = bmp_enc_row24(p@, pixbase as int, w as int, layout);
    proof {
        lemma_stride24_bounds(w as int);
    }
    let mut c: usize = 0;
    while c < w
        invariant
            c <= w,
            bmp_enc_supports(layout),
            (pixbase + w) as int * bpp_spec(layout) <= p@.len(),
            p@.len() == p_n,
            target == bmp_enc_row24(p@, pixbase as int, w as int, layout),
            target.len() == stride24(w as int),
            w as int * 3 <= stride24(w as int),
            out@ == old(out)@ + target.subrange(0, 3 * c as int),
        decreases w - c,
    {
        proof {
            assert((pixbase + c) as int * bpp_spec(layout) + bpp_spec(layout) <= (pixbase
                + w) as int * bpp_spec(layout) && (pixbase + c) as int * bpp_spec(layout) >= 0)
                by (nonlinear_arith)
                requires
                    0 <= c < w,
                    pixbase >= 0,
                    bpp_spec(layout) >= 1,
            ;
            lemma_idx3(c as int);
        }
        let (r0, g0, b0, _a0) = get_rgba_exec(p, pixbase + c, layout);
        let ghost before = out@;
        out.push(b0);
        out.push(g0);
        out.push(r0);
        proof {
            assert(3 * c as int + 2 < w as int * 3) by (nonlinear_arith)
                requires
                    0 <= c < w,
            ;
            assert(target[3 * c as int] == b0);
            assert(target[3 * c as int + 1] == g0);
            assert(target[3 * c as int + 2] == r0);
            assert(out@ =~= old(out)@ + target.subrange(0, 3 * (c + 1)));
        }
        c = c + 1;
    }
    let pad = stride_pad(w);
    let mut k: usize = 0;
    while k < pad
        invariant
            k <= pad,
            pad == stride24(w as int) - w as int * 3,
            target == bmp_enc_row24(p@, pixbase as int, w as int, layout),
            target.len() == stride24(w as int),
            w as int * 3 <= stride24(w as int),
            out@ == old(out)@ + target.subrange(0, w as int * 3 + k as int),
        decreases pad - k,
    {
        let ghost before = out@;
        out.push(0);
        proof {
            assert(target[w as int * 3 + k as int] == 0u8);
            assert(before + seq![0u8] =~= old(out)@ + target.subrange(0, w as int * 3 + k + 1));
        }
        k = k + 1;
    }
    proof {
        assert(target.subrange(0, stride24(w as int)) =~= target);
    }
}

/// The padding bytes of a 24-bit row.
fn stride_pad(w: usize) -> (r: usize)
    requires
        w as int * 3 + 3 <= usize::MAX,
    ensures
        r == stride24(w as int) - w as int * 3,
        r <= 3,
{
    proof {
        lemma_stride24_bounds(w as int);
    }
    ((w * 3 + 3) / 4) * 4 - w * 3
}

/// Append one 32-bit BGRA row.
fn push_bmp_enc_row32(out: &mut Vec<u8>, p: &[u8], pixbase: usize, w: usize, layout: PixelLayout)
    requires
        bmp_enc_supports(layout),
        (pixbase + w) as int * bpp_spec(layout) <= p@.len(),
    ensures
        final(out)@ == old(out)@ + bmp_enc_row32(p@, pixbase as int, w as int, layout),
{
    let p_n = p.len();
    let ghost target = bmp_enc_row32(p@, pixbase as int, w as int, layout);
    let mut c: usize = 0;
    while c < w
        invariant
            c <= w,
            bmp_enc_supports(layout),
            (pixbase + w) as int * bpp_spec(layout) <= p@.len(),
            p@.len() == p_n,
            target == bmp_enc_row32(p@, pixbase as int, w as int, layout),
            target.len() == w as int * 4,
            out@ == old(out)@ + target.subrange(0, 4 * c as int),
        decreases w - c,
    {
        proof {
            assert((pixbase + c) as int * bpp_spec(layout) + bpp_spec(layout) <= (pixbase
                + w) as int * bpp_spec(layout) && (pixbase + c) as int * bpp_spec(layout) >= 0)
                by (nonlinear_arith)
                requires
                    0 <= c < w,
                    pixbase >= 0,
                    bpp_spec(layout) >= 1,
            ;
            lemma_idx4(c as int);
        }
        let (r0, g0, b0, a0) = get_rgba_exec(p, pixbase + c, layout);
        let ghost before = out@;
        out.push(b0);
        out.push(g0);
        out.push(r0);
        out.push(a0);
        proof {
            assert(4 * c as int + 3 < w as int * 4) by (nonlinear_arith)
                requires
                    0 <= c < w,
            ;
            assert(target[4 * c as int] == b0);
            assert(target[4 * c as int + 1] == g0);
            assert(target[4 * c as int + 2] == r0);
            assert(target[4 * c as int + 3] == a0);
            assert(out@ =~= old(out)@ + target.subrange(0, 4 * (c + 1)));
        }
        c = c + 1;
    }
    proof {
        assert(target.subrange(0, w as int * 4) =~= target);
    }
}

/// Division and remainder of the three positions of pixel `c`.
proof fn lemma_idx3(c: int)
    requires
        c >= 0,
    ensures
        (3 * c) / 3 == c && (3 * c) % 3 == 0,
        (3 * c + 1) / 3 == c && (3 * c + 1) % 3 == 1,
        (3 * c + 2) / 3 == c && (3 * c + 2) % 3 == 2,
{
    assert((3 * c) / 3 == c && (3 * c) % 3 == 0 && (3 * c + 1) / 3 == c && (3 * c + 1) % 3 == 1
        && (3 * c + 2) / 3 == c && (3 * c + 2) % 3 == 2) by (nonlinear_arith)
        requires
            c >= 0,
    ;
}

/// Division and remainder of the four positions of pixel `c`.
proof fn lemma_idx4(c: int)
    requires
        c >= 0,
    ensures
        (4 * c) / 4 == c && (4 * c) % 4 == 0,
        (4 * c + 1) / 4 == c && (4 * c + 1) % 4 == 1,
        (4 * c + 2) / 4 == c && (4 * c + 2) % 4 == 2,
        (4 * c + 3) / 4 == c && (4 * c + 3) % 4 == 3,
{
    assert((4 * c) / 4 == c && (4 * c) % 4 == 0 && (4 * c + 1) / 4 == c && (4 * c + 1) % 4 == 1
        && (4 * c + 2) / 4 == c && (4 * c + 2) % 4 == 2 && (4 * c + 3) / 4 == c && (4 * c + 3) % 4
        == 3) by (nonlinear_arith)
        requires
            c >= 0,
    ;
}

/// BMP encoder. Produces uncompressed bottom-up BMP files.
pub struct BmpEncoder {
    /// Include an alpha channel (32-bit BGRA); otherwise 24-bit BGR.
    include_alpha: bool,
}

impl BmpEncoder {
    /// Whether this encoder writes 32-bit output.
    pub closed spec fn alpha_spec(&self) -> bool {
        self.include_alpha
    }

    /// Create an encoder that produces 24-bit RGB BMP.
    pub fn new() -> (r: Self)
        ensures
            !r.alpha_spec(),
    {
        BmpEncoder { include_alpha: false }
    }

    /// Include an alpha channel (32-bit BMP).
    pub fn with_alpha(self, alpha: bool) -> (r: Self)
        ensures
            r.alpha_spec() == alpha,
    {
        BmpEncoder { include_alpha: alpha }
    }

    /// Encode pixels to BMP bytes.
    pub fn encode(&self, pixels: &[u8], width: u32, height: u32, layout: PixelLayout) -> (r:
        Result<Vec<u8>, PnmError>)
        ensures
            bmp_encode_matches_spec(
                pixels@,
                width,
                height,
                layout,
                self.alpha_spec(),
                false,
                r,
            ),
    {
        encode_bmp_inner(
            pixels,
            width,
            height,
            layout,
            self.include_alpha,
            &crate::stop::Unstoppable,
        )
    }
}

} // verus!
