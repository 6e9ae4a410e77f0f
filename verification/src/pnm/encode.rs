//! PNM encoding: serializes packed pixel bytes into P5/P6/P7/PFM
//! containers, converting layouts the target format cannot represent
//! natively (luma derivation for PGM, channel reordering for PPM).

use vstd::prelude::*;

use super::PnmFormat;
use crate::error::{err_kind, ErrKind, PnmError};
use crate::pixel::{bpp_spec, PixelLayout};
use crate::stop::Stop;

verus! {

/// Decimal digits of a nonnegative integer, most significant first.
pub open spec fn dec_u32(n: int) -> Seq<u8>
    decreases n,
{
    if n < 0 {
        Seq::empty()
    } else if n < 10 {
        seq![(48 + n) as u8]
    } else {
        dec_u32(n / 10) + seq![(48 + n % 10) as u8]
    }
}

/// Append the decimal digits of `n`.
fn push_decimal(out: &mut Vec<u8>, n: u32)
    ensures
        final(out)@ == old(out)@ + dec_u32(n as int),
    decreases n,
{
    if n < 10 {
        out.push(48 + n as u8);
        proof {
            assert(final(out)@ =~= old(out)@ + dec_u32(n as int));
        }
    } else {
        push_decimal(out, n / 10);
        out.push(48 + (n % 10) as u8);
        proof {
            assert(final(out)@ =~= old(out)@ + dec_u32(n as int));
        }
    }
}

/// ITU-R BT.601 integer luma with rounding.
pub open spec fn luma(r: int, g: int, b: int) -> int {
    (299 * r + 587 * g + 114 * b + 500) / 1000
}

/// Luma of one pixel, channels at most 255.
fn luma_exec(r: u8, g: u8, b: u8) -> (y: u8)
    ensures
        y as int == luma(r as int, g as int, b as int),
{
    (((r as u32) * 299 + (g as u32) * 587 + (b as u32) * 114 + 500) / 1000) as u8
}

/// `P5\n` or `P6\n`, the dimensions, and `255\n`.
pub open spec fn p5p6_header_bytes(six: bool, w: u32, h: u32) -> Seq<u8> {
    seq![80u8, if six { 54u8 } else { 53u8 }, 10u8] + dec_u32(w as int) + seq![32u8] + dec_u32(
        h as int,
    ) + seq![10u8, 50u8, 53u8, 53u8, 10u8]
}

/// The PGM payload: one luma byte per pixel.
pub open spec fn pgm_payload(p: Seq<u8>, n: int, layout: PixelLayout) -> Seq<u8> {
    match layout {
        PixelLayout::Gray8 => p.subrange(0, n),
        PixelLayout::Rgb8 => Seq::new(
            n as nat,
            |i: int| luma(p[3 * i] as int, p[3 * i + 1] as int, p[3 * i + 2] as int) as u8,
        ),
        PixelLayout::Bgr8 => Seq::new(
            n as nat,
            |i: int| luma(p[3 * i + 2] as int, p[3 * i + 1] as int, p[3 * i] as int) as u8,
        ),
        PixelLayout::Rgba8 => Seq::new(
            n as nat,
            |i: int| luma(p[4 * i] as int, p[4 * i + 1] as int, p[4 * i + 2] as int) as u8,
        ),
        PixelLayout::Bgra8 => Seq::new(
            n as nat,
            |i: int| luma(p[4 * i + 2] as int, p[4 * i + 1] as int, p[4 * i] as int) as u8,
        ),
        _ => Seq::empty(),
    }
}

/// Whether PGM can encode a layout.
pub open spec fn pgm_supports(layout: PixelLayout) -> bool {
    match layout {
        PixelLayout::Gray8 | PixelLayout::Rgb8 | PixelLayout::Bgr8 | PixelLayout::Rgba8
            | PixelLayout::Bgra8 => true,
        _ => false,
    }
}

/// The PPM payload: three RGB bytes per pixel.
pub open spec fn ppm_payload(p: Seq<u8>, n: int, layout: PixelLayout) -> Seq<u8> {
    match layout {
        PixelLayout::Rgb8 => p.subrange(0, 3 * n),
        PixelLayout::Bgr8 => Seq::new((3 * n) as nat, |j: int| p[(j / 3) * 3 + 2 - (j % 3)]),
        PixelLayout::Rgba8 => Seq::new((3 * n) as nat, |j: int| p[(j / 3) * 4 + (j % 3)]),
        PixelLayout::Bgra8 => Seq::new((3 * n) as nat, |j: int| p[(j / 3) * 4 + 2 - (j % 3)]),
        PixelLayout::Gray8 => Seq::new((3 * n) as nat, |j: int| p[j / 3]),
        _ => Seq::empty(),
    }
}

/// Whether PPM can encode a layout.
pub open spec fn ppm_supports(layout: PixelLayout) -> bool {
    pgm_supports(layout)
}

pub open spec fn tupl_grayscale() -> Seq<u8> {
    seq![71u8, 82u8, 65u8, 89u8, 83u8, 67u8, 65u8, 76u8, 69u8]
}

pub open spec fn tupl_rgb() -> Seq<u8> {
    seq![82u8, 71u8, 66u8]
}

pub open spec fn tupl_rgb_alpha() -> Seq<u8> {
    seq![82u8, 71u8, 66u8, 95u8, 65u8, 76u8, 80u8, 72u8, 65u8]
}

/// The PAM metadata a layout selects: depth, maxval, tuple type.
pub open spec fn pam_meta(layout: PixelLayout) -> (int, int, Seq<u8>) {
    match layout {
        PixelLayout::Gray8 => (1, 255, tupl_grayscale()),
        PixelLayout::Gray16 => (1, 65535, tupl_grayscale()),
        PixelLayout::Rgb8 => (3, 255, tupl_rgb()),
        PixelLayout::Rgba8 => (4, 255, tupl_rgb_alpha()),
        _ => (0, 0, Seq::empty()),
    }
}

/// Whether PAM writes a layout directly.
pub open spec fn pam_supports(layout: PixelLayout) -> bool {
    match layout {
        PixelLayout::Gray8 | PixelLayout::Gray16 | PixelLayout::Rgb8 | PixelLayout::Rgba8 => true,
        _ => false,
    }
}

/// The PAM header: `P7`, the five keys, `ENDHDR`.
pub open spec fn pam_header_bytes(w: u32, h: u32, layout: PixelLayout) -> Seq<u8> {
    let meta = pam_meta(layout);
    seq![80u8, 55u8, 10u8]  // P7
     + super::parse::kw_width() + dec_u32(w as int) + seq![10u8] + super::parse::kw_height()
        + dec_u32(h as int) + seq![10u8] + super::parse::kw_depth() + dec_u32(meta.0) + seq![10u8]
        + super::parse::kw_maxval() + dec_u32(meta.1) + seq![10u8] + seq![
        84u8,
        85u8,
        80u8,
        76u8,
        84u8,
        89u8,
        80u8,
        69u8,
        32u8,
    ]  // TUPLTYPE
     + meta.2 + seq![10u8] + super::parse::kw_endhdr() + seq![10u8]
}

/// Whether PFM accepts a layout.
pub open spec fn pfm_supports(layout: PixelLayout) -> bool {
    layout is GrayF32 || layout is RgbF32
}

/// The PFM header: the magic, the dimensions, and the scale `-1.0`
/// (little-endian samples, unit factor).
pub open spec fn pfm_header_bytes(color: bool, w: u32, h: u32) -> Seq<u8> {
    seq![80u8, if color { 70u8 } else { 102u8 }, 10u8] + dec_u32(w as int) + seq![32u8] + dec_u32(
        h as int,
    ) + seq![10u8, 45u8, 49u8, 46u8, 48u8, 10u8]
}

/// The PFM payload: pixel rows written bottom-to-top, bytes unchanged.
pub open spec fn pfm_enc_rows(p: Seq<u8>, row: int, h: int, r: int) -> Seq<u8>
    decreases h - r,
{
    if r >= h {
        Seq::empty()
    } else {
        p.subrange((h - 1 - r) * row, (h - 1 - r) * row + row) + pfm_enc_rows(p, row, h, r + 1)
    }
}

/// The verdict of encoding pixels as one of the PNM formats.
pub open spec fn encode_spec(
    p: Seq<u8>,
    w: u32,
    h: u32,
    layout: PixelLayout,
    format: PnmFormat,
    stopped: bool,
) -> Result<Seq<u8>, ErrKind> {
    let needed = w as int * h as int * bpp_spec(layout);
    let n = w as int * h as int;
    if needed > usize::MAX {
        Err(ErrKind::DimensionsTooLarge { width: w, height: h })
    } else if p.len() < needed {
        Err(ErrKind::BufferTooSmall { needed: needed as usize, actual: p.len() as usize })
    } else if stopped {
        Err(ErrKind::Cancelled)
    } else {
        match format {
            PnmFormat::Pgm => {
                if pgm_supports(layout) {
                    Ok(p5p6_header_bytes(false, w, h) + pgm_payload(p, n, layout))
                } else {
                    Err(ErrKind::UnsupportedVariant)
                }
            },
            PnmFormat::Ppm => {
                if ppm_supports(layout) {
                    Ok(p5p6_header_bytes(true, w, h) + ppm_payload(p, n, layout))
                } else {
                    Err(ErrKind::UnsupportedVariant)
                }
            },
            PnmFormat::Pam => {
                if pam_supports(layout) {
                    Ok(pam_header_bytes(w, h, layout) + p.subrange(0, needed))
                } else {
                    Err(ErrKind::UnsupportedVariant)
                }
            },
            PnmFormat::Pfm => {
                if pfm_supports(layout) {
                    Ok(
                        pfm_header_bytes(layout is RgbF32, w, h) + pfm_enc_rows(
                            p,
                            w as int * bpp_spec(layout),
                            h as int,
                            0,
                        ),
                    )
                } else {
                    Err(ErrKind::UnsupportedVariant)
                }
            },
        }
    }
}

/// Whether an execution result agrees with `encode_spec`.
pub open spec fn encode_matches_spec(
    p: Seq<u8>,
    w: u32,
    h: u32,
    layout: PixelLayout,
    format: PnmFormat,
    stopped: bool,
    r: Result<Vec<u8>, PnmError>,
) -> bool {
    match encode_spec(p, w, h, layout, format, stopped) {
        Ok(bytes) => r is Ok && r->Ok_0@ == bytes,
        Err(k) => r is Err && err_kind(r->Err_0) == k,
    }
}

/// Encode pixels as one of the PNM formats.
pub fn encode<S: Stop>(
    pixels: &[u8],
    width: u32,
    height: u32,
    layout: PixelLayout,
    format: PnmFormat,
    stop: &S,
) -> (r: Result<Vec<u8>, PnmError>)
    ensures
        encode_matches_spec(pixels@, width, height, layout, format, stop.stop_requested(), r),
{
    let w64 = width as u64;
    let h64 = height as u64;
    let bpp = layout.bytes_per_pixel();
    proof {
        assert(w64 * h64 <= 0xffff_ffffu64 * 0xffff_ffffu64) by (nonlinear_arith)
            requires
                w64 <= 0xffff_ffffu64,
                h64 <= 0xffff_ffffu64,
        ;
    }
    let wh = w64 * h64;
    let needed64 = match wh.checked_mul(bpp as u64) {
        Some(v) => v,
        None => {
            return Err(PnmError::DimensionsTooLarge { width, height });
        },
    };
    if needed64 > usize::MAX as u64 {
        return Err(PnmError::DimensionsTooLarge { width, height });
    }
    let needed = needed64 as usize;
    if pixels.len() < needed {
        return Err(PnmError::BufferTooSmall { needed, actual: pixels.len() });
    }
    if stop.check() {
        return Err(PnmError::Cancelled);
    }
    if wh > usize::MAX as u64 {
        // Unreachable when the layout is supported (every layout has at
        // least one byte per pixel), but kept total for the others.
        return Err(PnmError::DimensionsTooLarge { width, height });
    }
    let n = wh as usize;
    proof {
        assert(wh as int * 1 <= wh as int * bpp as int) by (nonlinear_arith)
            requires
                bpp >= 1,
                wh >= 0,
        ;
    }
    match format {
        PnmFormat::Pgm => encode_pgm(pixels, width, height, n, layout),
        PnmFormat::Ppm => encode_ppm(pixels, width, height, n, layout),
        PnmFormat::Pam => encode_pam(pixels, width, height, needed, layout),
        PnmFormat::Pfm => encode_pfm(pixels, width, height, n, layout),
    }
}

/// P5: grayscale binary; RGB-family input is converted to luma.
fn encode_pgm(pixels: &[u8], width: u32, height: u32, n: usize, layout: PixelLayout) -> (r:
    Result<Vec<u8>, PnmError>)
    requires
        n == width as int * height as int,
        n as int * bpp_spec(layout) <= pixels@.len(),
    ensures
        match r {
            Ok(out) => pgm_supports(layout) && out@ == p5p6_header_bytes(false, width, height)
                + pgm_payload(pixels@, n as int, layout),
            Err(e) => !pgm_supports(layout) && err_kind(e) == ErrKind::UnsupportedVariant,
        },
{
    let mut out: Vec<u8> = Vec::new();
    let bpp: usize = match layout {
        PixelLayout::Gray8 => 1,
        PixelLayout::Rgb8 | PixelLayout::Bgr8 => 3,
        PixelLayout::Rgba8 | PixelLayout::Bgra8 => 4,
        _ => {
            return Err(PnmError::UnsupportedVariant("cannot encode this layout as PGM".to_owned()));
        },
    };
    push_p5p6_header(&mut out, false, width, height);
    let ghost header = out@;
    let ghost target = pgm_payload(pixels@, n as int, layout);
    if matches!(layout, PixelLayout::Gray8) {
        let view = vstd::slice::slice_subrange(pixels, 0, n);
        out.extend_from_slice(view);
        proof {
            assert(out@ =~= header + target);
        }
        return Ok(out);
    }
    let swap = matches!(layout, PixelLayout::Bgr8 | PixelLayout::Bgra8);
    let plen = pixels.len();
    let mut i: usize = 0;
    while i < n
        invariant
            i <= n,
            n as int * bpp <= pixels@.len(),
            pixels@.len() == plen,
            bpp == (if layout is Gray8 {
                1int
            } else if layout is Rgb8 || layout is Bgr8 {
                3int
            } else {
                4int
            }),
            layout is Rgb8 || layout is Bgr8 || layout is Rgba8 || layout is Bgra8,
            swap == (layout is Bgr8 || layout is Bgra8),
            target == pgm_payload(pixels@, n as int, layout),
            out@ == header + target.subrange(0, i as int),
        decreases n - i,
    {
        proof {
            assert(i as int * bpp + bpp <= n as int * bpp) by (nonlinear_arith)
                requires
                    i < n,
                    bpp >= 1,
            ;
            assert(i as int * bpp >= 0) by (nonlinear_arith)
                requires
                    i >= 0,
                    bpp >= 0,
            ;
        }
        let off = i * bpp;
        let c0 = pixels[off];
        let c1 = pixels[off + 1];
        let c2 = pixels[off + 2];
        let y = if swap {
            luma_exec(c2, c1, c0)
        } else {
            luma_exec(c0, c1, c2)
        };
        let ghost before = out@;
        out.push(y);
        proof {
            assert(target[i as int] == y);
            assert(before + seq![y] =~= header + target.subrange(0, i + 1));
        }
        i = i + 1;
    }
    proof {
        assert(target.subrange(0, n as int) =~= target);
    }
    Ok(out)
}

/// Append a P5/P6 header.
fn push_p5p6_header(out: &mut Vec<u8>, six: bool, w: u32, h: u32)
    ensures
        final(out)@ == old(out)@ + p5p6_header_bytes(six, w, h),
{
    out.push(80);
    out.push(if six {
        54
    } else {
        53
    });
    out.push(10);
    push_decimal(out, w);
    out.push(32);
    push_decimal(out, h);
    out.push(10);
    out.push(50);
    out.push(53);
    out.push(53);
    out.push(10);
    proof {
        assert(final(out)@ =~= old(out)@ + p5p6_header_bytes(six, w, h));
    }
}

/// P6: RGB binary; other 8-bit layouts are reordered or broadcast.
fn encode_ppm(pixels: &[u8], width: u32, height: u32, n: usize, layout: PixelLayout) -> (r:
    Result<Vec<u8>, PnmError>)
    requires
        n == width as int * height as int,
        n as int * bpp_spec(layout) <= pixels@.len(),
    ensures
        match r {
            Ok(out) => ppm_supports(layout) && out@ == p5p6_header_bytes(true, width, height)
                + ppm_payload(pixels@, n as int, layout),
            Err(e) => !ppm_supports(layout) && err_kind(e) == ErrKind::UnsupportedVariant,
        },
{
    let mut out: Vec<u8> = Vec::new();
    match layout {
        PixelLayout::Gray8 | PixelLayout::Rgb8 | PixelLayout::Bgr8 | PixelLayout::Rgba8
            | PixelLayout::Bgra8 => {},
        _ => {
            return Err(PnmError::UnsupportedVariant("cannot encode this layout as PPM".to_owned()));
        },
    }
    push_p5p6_header(&mut out, true, width, height);
    let ghost header = out@;
    let ghost target = ppm_payload(pixels@, n as int, layout);
    if matches!(layout, PixelLayout::Rgb8) {
        let plen = pixels.len();
        proof {
            assert(n as int * 3 == 3 * n as int);
        }
        let view = vstd::slice::slice_subrange(pixels, 0, n * 3);
        out.extend_from_slice(view);
        proof {
            assert(out@ =~= header + target);
        }
        return Ok(out);
    }
    let plen = pixels.len();
    let mut i: usize = 0;
    while i < n
        invariant
            i <= n,
            n as int * bpp_spec(layout) <= pixels@.len(),
            pixels@.len() == plen,
            layout is Gray8 || layout is Bgr8 || layout is Rgba8 || layout is Bgra8,
            target == ppm_payload(pixels@, n as int, layout),
            out@ == header + target.subrange(0, 3 * i as int),
            out@.len() == header.len() + 3 * i as int,
        decreases n - i,
    {
        let ghost bpp = bpp_spec(layout);
        proof {
            assert(i as int * bpp + bpp <= n as int * bpp && i as int * bpp >= 0)
                by (nonlinear_arith)
                requires
                    0 <= i < n,
                    bpp >= 1,
            ;
        }
        let (r0, g0, b0) = match layout {
            PixelLayout::Gray8 => {
                let g = pixels[i];
                (g, g, g)
            },
            PixelLayout::Bgr8 => {
                let off = i * 3;
                (pixels[off + 2], pixels[off + 1], pixels[off])
            },
            PixelLayout::Rgba8 => {
                let off = i * 4;
                (pixels[off], pixels[off + 1], pixels[off + 2])
            },
            _ => {
                let off = i * 4;
                (pixels[off + 2], pixels[off + 1], pixels[off])
            },
        };
        let ghost before = out@;
        out.push(r0);
        out.push(g0);
        out.push(b0);
        proof {
            lemma_idx3(i as int);
            assert(target[3 * i as int] == r0);
            assert(target[3 * i as int + 1] == g0);
            assert(target[3 * i as int + 2] == b0);
            assert(before + seq![r0, g0, b0] =~= header + target.subrange(0, 3 * (i + 1)));
        }
        i = i + 1;
    }
    proof {
        assert(target.subrange(0, 3 * n as int) =~= target);
    }
    Ok(out)
}

/// Division and remainder of the three positions of pixel `i`.
proof fn lemma_idx3(i: int)
    requires
        i >= 0,
    ensures
        (3 * i) / 3 == i && (3 * i) % 3 == 0,
        (3 * i + 1) / 3 == i && (3 * i + 1) % 3 == 1,
        (3 * i + 2) / 3 == i && (3 * i + 2) % 3 == 2,
{
    assert((3 * i) / 3 == i && (3 * i) % 3 == 0 && (3 * i + 1) / 3 == i && (3 * i + 1) % 3 == 1
        && (3 * i + 2) / 3 == i && (3 * i + 2) % 3 == 2) by (nonlinear_arith)
        requires
            i >= 0,
    ;
}

/// P7 (PAM): a direct byte copy under a key/value header.
fn encode_pam(pixels: &[u8], width: u32, height: u32, needed: usize, layout: PixelLayout) -> (r:
    Result<Vec<u8>, PnmError>)
    requires
        needed == width as int * height as int * bpp_spec(layout),
        needed <= pixels@.len(),
    ensures
        match r {
            Ok(out) => pam_supports(layout) && out@ == pam_header_bytes(width, height, layout)
                + pixels@.subrange(0, needed as int),
            Err(e) => !pam_supports(layout) && err_kind(e) == ErrKind::UnsupportedVariant,
        },
{
    let (depth, maxval) = match layout {
        PixelLayout::Gray8 => (1u32, 255u32),
        PixelLayout::Gray16 => (1u32, 65535u32),
        PixelLayout::Rgb8 => (3u32, 255u32),
        PixelLayout::Rgba8 => (4u32, 255u32),
        _ => {
            return Err(
                PnmError::UnsupportedVariant(
                    "cannot encode this layout as PAM directly".to_owned(),
                ),
            );
        },
    };
    let mut out: Vec<u8> = Vec::new();
    out.push(80);
    out.push(55);
    out.push(10);
    push_keyword_width(&mut out);
    push_decimal(&mut out, width);
    out.push(10);
    push_keyword_height(&mut out);
    push_decimal(&mut out, height);
    out.push(10);
    push_keyword_depth(&mut out);
    push_decimal(&mut out, depth);
    out.push(10);
    push_keyword_maxval(&mut out);
    push_decimal(&mut out, maxval);
    out.push(10);
    push_keyword_tupltype(&mut out);
    match layout {
        PixelLayout::Gray8 | PixelLayout::Gray16 => push_tupl_grayscale(&mut out),
        PixelLayout::Rgb8 => push_tupl_rgb(&mut out),
        _ => push_tupl_rgb_alpha(&mut out),
    }
    out.push(10);
    push_keyword_endhdr(&mut out);
    out.push(10);
    proof {
        assert(out@ =~= pam_header_bytes(width, height, layout));
    }
    let view = vstd::slice::slice_subrange(pixels, 0, needed);
    let ghost header = out@;
    out.extend_from_slice(view);
    proof {
        assert(out@ =~= pam_header_bytes(width, height, layout) + pixels@.subrange(
            0,
            needed as int,
        ));
    }
    Ok(out)
}

fn push_keyword_width(out: &mut Vec<u8>)
    ensures
        final(out)@ == old(out)@ + super::parse::kw_width(),
{
    out.push(87);
    out.push(73);
    out.push(68);
    out.push(84);
    out.push(72);
    out.push(32);
    proof {
        assert(final(out)@ =~= old(out)@ + super::parse::kw_width());
    }
}

fn push_keyword_height(out: &mut Vec<u8>)
    ensures
        final(out)@ == old(out)@ + super::parse::kw_height(),
{
    out.push(72);
    out.push(69);
    out.push(73);
    out.push(71);
    out.push(72);
    out.push(84);
    out.push(32);
    proof {
        assert(final(out)@ =~= old(out)@ + super::parse::kw_height());
    }
}

fn push_keyword_depth(out: &mut Vec<u8>)
    ensures
        final(out)@ == old(out)@ + super::parse::kw_depth(),
{
    out.push(68);
    out.push(69);
    out.push(80);
    out.push(84);
    out.push(72);
    out.push(32);
    proof {
        assert(final(out)@ =~= old(out)@ + super::parse::kw_depth());
    }
}

fn push_keyword_maxval(out: &mut Vec<u8>)
    ensures
        final(out)@ == old(out)@ + super::parse::kw_maxval(),
{
    out.push(77);
    out.push(65);
    out.push(88);
    out.push(86);
    out.push(65);
    out.push(76);
    out.push(32);
    proof {
        assert(final(out)@ =~= old(out)@ + super::parse::kw_maxval());
    }
}

fn push_keyword_tupltype(out: &mut Vec<u8>)
    ensures
        final(out)@ == old(out)@ + seq![84u8, 85u8, 80u8, 76u8, 84u8, 89u8, 80u8, 69u8, 32u8],
{
    out.push(84);
    out.push(85);
    out.push(80);
    out.push(76);
    out.push(84);
    out.push(89);
    out.push(80);
    out.push(69);
    out.push(32);
    proof {
        assert(final(out)@ =~= old(out)@ + seq![
            84u8,
            85u8,
            80u8,
            76u8,
            84u8,
            89u8,
            80u8,
            69u8,
            32u8,
        ]);
    }
}

fn push_keyword_endhdr(out: &mut Vec<u8>)
    ensures
        final(out)@ == old(out)@ + super::parse::kw_endhdr(),
{
    out.push(69);
    out.push(78);
    out.push(68);
    out.push(72);
    out.push(68);
    out.push(82);
    proof {
        assert(final(out)@ =~= old(out)@ + super::parse::kw_endhdr());
    }
}

fn push_tupl_grayscale(out: &mut Vec<u8>)
    ensures
        final(out)@ == old(out)@ + tupl_grayscale(),
{
    out.push(71);
    out.push(82);
    out.push(65);
    out.push(89);
    out.push(83);
    out.push(67);
    out.push(65);
    out.push(76);
    out.push(69);
    proof {
        assert(final(out)@ =~= old(out)@ + tupl_grayscale());
    }
}

fn push_tupl_rgb(out: &mut Vec<u8>)
    ensures
        final(out)@ == old(out)@ + tupl_rgb(),
{
    out.push(82);
    out.push(71);
    out.push(66);
    proof {
        assert(final(out)@ =~= old(out)@ + tupl_rgb());
    }
}

fn push_tupl_rgb_alpha(out: &mut Vec<u8>)
    ensures
        final(out)@ == old(out)@ + tupl_rgb_alpha(),
{
    out.push(82);
    out.push(71);
    out.push(66);
    out.push(95);
    out.push(65);
    out.push(76);
    out.push(80);
    out.push(72);
    out.push(65);
    proof {
        assert(final(out)@ =~= old(out)@ + tupl_rgb_alpha());
    }
}

/// PFM: floating-point rows written bottom-to-top, bytes unchanged.
#[verifier::rlimit(50)]
fn encode_pfm(pixels: &[u8], width: u32, height: u32, n: usize, layout: PixelLayout) -> (r:
    Result<Vec<u8>, PnmError>)
    requires
        n == width as int * height as int,
        n as int * bpp_spec(layout) <= pixels@.len(),
        width >= 0,
    ensures
        match r {
            Ok(out) => pfm_supports(layout) && out@ == pfm_header_bytes(
                layout is RgbF32,
                width,
                height,
            ) + pfm_enc_rows(pixels@, width as int * bpp_spec(layout), height as int, 0),
            Err(e) => !pfm_supports(layout) && err_kind(e) == ErrKind::UnsupportedVariant,
        },
{
    let color = match layout {
        PixelLayout::GrayF32 => false,
        PixelLayout::RgbF32 => true,
        _ => {
            return Err(
                PnmError::UnsupportedVariant("PFM requires a floating-point layout".to_owned()),
            );
        },
    };
    let bpp = layout.bytes_per_pixel();
    let mut out: Vec<u8> = Vec::new();
    out.push(80);
    out.push(if color {
        70
    } else {
        102
    });
    out.push(10);
    push_decimal(&mut out, width);
    out.push(32);
    push_decimal(&mut out, height);
    out.push(10);
    out.push(45);
    out.push(49);
    out.push(46);
    out.push(48);
    out.push(10);
    proof {
        assert(out@ =~= pfm_header_bytes(color, width, height));
    }
    let ghost header = out@;
    let h = height as usize;
    let plen = pixels.len();
    if height == 0 {
        proof {
            assert(pfm_enc_rows(pixels@, width as int * bpp, 0, 0) =~= Seq::<u8>::empty());
            assert(out@ =~= header + Seq::<u8>::empty());
        }
        return Ok(out);
    }
    proof {
        assert(width as int * height as int * bpp == (width as int * bpp) * height as int)
            by (nonlinear_arith);
        assert(width as int * bpp <= (width as int * bpp) * height as int) by (nonlinear_arith)
            requires
                height >= 1,
                bpp >= 1,
                width >= 0,
        ;
    }
    let row = width as usize * bpp;
    let mut r: usize = 0;
    while r < h
        invariant
            r <= h,
            row == width as int * bpp_spec(layout),
            h == height,
            (row as int) * (h as int) <= pixels@.len(),
            pixels@.len() <= usize::MAX,
            pfm_enc_rows(pixels@, row as int, h as int, 0) == out@.subrange(
                header.len() as int,
                out@.len() as int,
            ) + pfm_enc_rows(pixels@, row as int, h as int, r as int),
            out@.subrange(0, header.len() as int) == header,
            out@.len() >= header.len(),
        decreases h - r,
    {
        proof {
            assert((h as int - 1 - r as int) * row as int >= 0 && (h as int - 1 - r as int)
                * row as int + row as int <= row as int * h as int) by (nonlinear_arith)
                requires
                    0 <= r < h,
                    row >= 0,
            ;
        }
        let base = (h - 1 - r) * row;
        let view = vstd::slice::slice_subrange(pixels, base, base + row);
        let ghost before = out@;
        out.extend_from_slice(view);
        proof {
            assert(pfm_enc_rows(pixels@, row as int, h as int, r as int) == pixels@.subrange(
                base as int,
                base as int + row as int,
            ) + pfm_enc_rows(pixels@, row as int, h as int, r as int + 1));
            assert(out@ =~= before + pixels@.subrange(base as int, base as int + row as int));
            assert(out@.subrange(0, header.len() as int) =~= header);
            assert(out@.subrange(header.len() as int, out@.len() as int) =~= before.subrange(
                header.len() as int,
                before.len() as int,
            ) + pixels@.subrange(base as int, base as int + row as int));
            assert(before.subrange(header.len() as int, before.len() as int) + (pixels@.subrange(
                base as int,
                base as int + row as int,
            ) + pfm_enc_rows(pixels@, row as int, h as int, r as int + 1)) =~= (before.subrange(
                header.len() as int,
                before.len() as int,
            ) + pixels@.subrange(base as int, base as int + row as int)) + pfm_enc_rows(
                pixels@,
                row as int,
                h as int,
                r as int + 1,
            ));
        }
        r = r + 1;
    }
    proof {
        assert(pfm_enc_rows(pixels@, row as int, h as int, h as int) =~= Seq::<u8>::empty());
        let tail = out@.subrange(header.len() as int, out@.len() as int);
        assert(tail + Seq::<u8>::empty() =~= tail);
        assert(out@ =~= header + tail);
    }
    Ok(out)
}

/// PNM encoder for a fixed target format.
pub struct PnmEncoder {
    format: PnmFormat,
}

impl PnmEncoder {
    /// The target format of this encoder.
    pub closed spec fn format_spec(&self) -> PnmFormat {
        self.format
    }

    /// Create an encoder for the given PNM format.
    pub fn new(format: PnmFormat) -> (r: Self)
        ensures
            r.format_spec() == format,
    {
        PnmEncoder { format }
    }

    /// Encode pixels to PNM bytes.
    pub fn encode(&self, pixels: &[u8], width: u32, height: u32, layout: PixelLayout) -> (r:
        Result<Vec<u8>, PnmError>)
        ensures
            encode_matches_spec(
                pixels@,
                width,
                height,
                layout,
                self.format_spec(),
                false,
                r,
            ),
    {
        encode(pixels, width, height, layout, self.format, &crate::stop::Unstoppable)
    }
}

} // verus!
