//! PNM decoding: transforms raw samples into the canonical packed pixel
//! bytes the header's layout declares, with resource limits and
//! cooperative cancellation.
//!
//! The fast path — 8-bit samples at maxval 255 — returns a borrowed view of
//! the input (zero-copy). Every other path allocates: maxval rescaling,
//! 16-bit downscaling, and the PFM row flip and byte-order normalization.

use vstd::prelude::*;
use vstd::arithmetic::mul::{lemma_mul_inequality, lemma_mul_is_commutative};

use super::parse::{header_meta_wf, header_spec, lemma_header_wf, parse_header};
use super::{format_tag, PnmFormat, PnmHeader};
use crate::decode::DecodeOutput;
use crate::error::{err_kind, ErrKind, PnmError};
use crate::info::BitmapFormat;
use crate::limits::{dims_within, memory_within, Limits};
use crate::pixel::{bpp_spec, PixelLayout};
use crate::stop::{Stop, Unstoppable};

verus! {

/// What a successful decode yields, at the specification level.
pub struct OutSpec {
    pub bytes: Seq<u8>,
    pub width: u32,
    pub height: u32,
    pub layout: PixelLayout,
    pub format: BitmapFormat,
    /// Whether the pixel bytes alias the input buffer.
    pub borrowed: bool,
}

/// Whether dimensions pass the optional limits.
pub open spec fn dims_ok(limits: Option<Limits>, w: u32, h: u32) -> bool {
    match limits {
        None => true,
        Some(l) => dims_within(l, w, h),
    }
}

/// Whether an output byte count passes the optional memory ceiling.
pub open spec fn mem_ok(limits: Option<Limits>, bytes: int) -> bool {
    match limits {
        None => true,
        Some(l) => memory_within(l, bytes),
    }
}

/// The sample rescale of the PNM family: `round(s * 255 / m)` computed as
/// `floor((s * 510 + m) / (2 * m))`, saturated at 255 for samples above
/// the declared maxval.
pub open spec fn rescale(s: int, m: int) -> int {
    let q = (s * 510 + m) / (2 * m);
    if q > 255 {
        255
    } else {
        q
    }
}

/// 8-bit samples rescaled from maxval `m` to 255.
pub open spec fn rescale8_seq(src: Seq<u8>, n: int, m: int) -> Seq<u8> {
    Seq::new(n as nat, |i: int| rescale(src[i] as int, m) as u8)
}

/// Big-endian 16-bit samples downscaled to 8 bits against maxval `m`.
pub open spec fn down16_seq(src: Seq<u8>, n: int, m: int) -> Seq<u8> {
    Seq::new(n as nat, |i: int| rescale(src[2 * i] as int * 256 + src[2 * i + 1] as int, m) as u8)
}

/// One output row of a PFM image: `row` bytes starting at `base` in the
/// stored payload, each 4-byte sample emitted little-endian. Stored
/// little-endian samples are copied; big-endian ones are byte-reversed.
pub open spec fn pfm_row(src: Seq<u8>, base: int, row: int, le: bool) -> Seq<u8> {
    Seq::new(
        row as nat,
        |k: int|
            if le {
                src[base + k]
            } else {
                src[base + (k / 4) * 4 + 3 - (k % 4)]
            },
    )
}

/// PFM output rows `r..h`, reading stored rows bottom-to-top.
pub open spec fn pfm_rows(src: Seq<u8>, row: int, h: int, r: int, le: bool) -> Seq<u8>
    decreases h - r,
{
    if r >= h {
        Seq::empty()
    } else {
        pfm_row(src, (h - 1 - r) * row, row, le) + pfm_rows(src, row, h, r + 1, le)
    }
}

/// The verdict of decoding PNM data `d` under optional limits, with the
/// given cancellation state. Deterministic in its inputs; the exec decoder
/// is proven to agree with it exactly.
pub open spec fn decode_spec(d: Seq<u8>, limits: Option<Limits>, stopped: bool) -> Result<
    OutSpec,
    ErrKind,
> {
    match header_spec(d) {
        Err(k) => Err(k),
        Ok(h) => {
            if !dims_ok(limits, h.width, h.height) {
                Err(ErrKind::LimitExceeded)
            } else if stopped {
                Err(ErrKind::Cancelled)
            } else {
                let w = h.width as int;
                let ht = h.height as int;
                let depth = h.depth as int;
                let off = h.data_offset as int;
                let avail = d.len() - off;
                if h.format is Pfm {
                    let src_len = w * ht * depth * 4;
                    if src_len > usize::MAX {
                        Err(ErrKind::DimensionsTooLarge { width: h.width, height: h.height })
                    } else if !mem_ok(limits, src_len) {
                        Err(ErrKind::LimitExceeded)
                    } else if avail < src_len {
                        Err(ErrKind::UnexpectedEof)
                    } else {
                        Ok(
                            OutSpec {
                                bytes: pfm_rows(
                                    d.subrange(off, d.len() as int),
                                    w * depth * 4,
                                    ht,
                                    0,
                                    h.little_endian,
                                ),
                                width: h.width,
                                height: h.height,
                                layout: h.layout,
                                format: BitmapFormat::Pfm,
                                borrowed: false,
                            },
                        )
                    }
                } else {
                    let is16 = h.maxval > 255;
                    let sb: int = if is16 {
                        2
                    } else {
                        1
                    };
                    let n = w * ht * depth;
                    let src_len = n * sb;
                    let out_len = w * ht * bpp_spec(h.layout);
                    if src_len > usize::MAX {
                        Err(ErrKind::DimensionsTooLarge { width: h.width, height: h.height })
                    } else if avail < src_len {
                        Err(ErrKind::UnexpectedEof)
                    } else if !mem_ok(limits, out_len) {
                        Err(ErrKind::LimitExceeded)
                    } else {
                        let pix = d.subrange(off, d.len() as int);
                        let fmt = format_tag(h.format);
                        if !is16 && h.maxval == 255 {
                            Ok(
                                OutSpec {
                                    bytes: pix.subrange(0, src_len),
                                    width: h.width,
                                    height: h.height,
                                    layout: h.layout,
                                    format: fmt,
                                    borrowed: true,
                                },
                            )
                        } else if !is16 {
                            Ok(
                                OutSpec {
                                    bytes: rescale8_seq(pix, n, h.maxval as int),
                                    width: h.width,
                                    height: h.height,
                                    layout: h.layout,
                                    format: fmt,
                                    borrowed: false,
                                },
                            )
                        } else if h.layout is Gray16 {
                            Ok(
                                OutSpec {
                                    bytes: pix.subrange(0, src_len),
                                    width: h.width,
                                    height: h.height,
                                    layout: h.layout,
                                    format: fmt,
                                    borrowed: false,
                                },
                            )
                        } else {
                            Ok(
                                OutSpec {
                                    bytes: down16_seq(pix, n, h.maxval as int),
                                    width: h.width,
                                    height: h.height,
                                    layout: h.layout,
                                    format: fmt,
                                    borrowed: false,
                                },
                            )
                        }
                    }
                }
            }
        },
    }
}

/// Whether an execution result agrees with `decode_spec`.
pub open spec fn decode_matches_spec<'a>(
    d: Seq<u8>,
    limits: Option<Limits>,
    stopped: bool,
    r: Result<DecodeOutput<'a>, PnmError>,
) -> bool {
    match decode_spec(d, limits, stopped) {
        Ok(o) => r is Ok && crate::decode::out_matches(r->Ok_0, o),
        Err(k) => r is Err && err_kind(r->Err_0) == k,
    }
}

/// The optional limits as a specification value.
pub open spec fn opt_limits(limits: Option<&Limits>) -> Option<Limits> {
    match limits {
        Some(l) => Some(*l),
        None => None,
    }
}

/// Rescale one sample (at most 65535) from maxval `m` to 255.
fn rescale_exec(s: u32, m: u32) -> (r: u8)
    requires
        1 <= m <= 65535,
        s <= 65535,
    ensures
        r as int == rescale(s as int, m as int),
{
    let num: u64 = s as u64 * 510 + m as u64;
    let q = num / (2 * m as u64);
    if q > 255 {
        255
    } else {
        q as u8
    }
}

/// Decode PNM data under optional limits and a stop token.
pub fn decode<'a, S: Stop + ?Sized>(
    data: &'a [u8],
    limits: Option<&Limits>,
    stop: &S,
) -> (r: Result<DecodeOutput<'a>, PnmError>)
    ensures
        decode_matches_spec(data@, opt_limits(limits), stop.stop_requested(), r),
{
    proof {
        lemma_header_wf(data@);
    }
    let header = match parse_header(data) {
        Ok(h) => h,
        Err(e) => {
            return Err(e);
        },
    };
    if let Some(l) = limits {
        match l.check(header.width, header.height) {
            Ok(()) => {},
            Err(e) => {
                return Err(e);
            },
        }
    }
    if stop.check() {
        return Err(PnmError::Cancelled);
    }
    let w64 = header.width as u64;
    let h64 = header.height as u64;
    let d64 = header.depth as u64;
    proof {
        assert(w64 * h64 <= 0xffff_ffffu64 * 0xffff_ffffu64) by (nonlinear_arith)
            requires
                w64 <= 0xffff_ffffu64,
                h64 <= 0xffff_ffffu64,
        ;
    }
    let wh = w64 * h64;
    let off = header.data_offset;
    let avail = data.len() - off;
    if matches!(header.format, PnmFormat::Pfm) {
        let src_len = match checked_mul4(wh, d64, 4) {
            Some(v) => v,
            None => {
                return Err(
                    PnmError::DimensionsTooLarge { width: header.width, height: header.height },
                );
            },
        };
        if src_len > usize::MAX as u64 {
            return Err(
                PnmError::DimensionsTooLarge { width: header.width, height: header.height },
            );
        }
        if let Some(l) = limits {
            match l.check_memory(src_len) {
                Ok(()) => {},
                Err(e) => {
                    return Err(e);
                },
            }
        }
        if (avail as u64) < src_len {
            return Err(PnmError::UnexpectedEof);
        }
        let pix = vstd::slice::slice_subrange(data, off, data.len());
        let out = pfm_transform(
            pix,
            header.width as usize,
            header.height as usize,
            header.depth as usize,
            header.little_endian,
        );
        return Ok(
            DecodeOutput::owned(out, header.width, header.height, header.layout, BitmapFormat::Pfm),
        );
    }
    let is16 = header.maxval > 255;
    let sb: u64 = if is16 {
        2
    } else {
        1
    };
    let n64 = match checked_mul4(wh, d64, 1) {
        Some(v) => v,
        None => {
            return Err(
                PnmError::DimensionsTooLarge { width: header.width, height: header.height },
            );
        },
    };
    let src_len = match n64.checked_mul(sb) {
        Some(v) => v,
        None => {
            return Err(
                PnmError::DimensionsTooLarge { width: header.width, height: header.height },
            );
        },
    };
    if src_len > usize::MAX as u64 {
        return Err(
            PnmError::DimensionsTooLarge { width: header.width, height: header.height },
        );
    }
    if (avail as u64) < src_len {
        return Err(PnmError::UnexpectedEof);
    }
    let out_len: u64 = if matches!(header.layout, PixelLayout::Gray16) {
        src_len
    } else {
        n64
    };
    proof {
        lemma_out_len_agrees(header, n64 as int, src_len as int, out_len as int);
    }
    if let Some(l) = limits {
        match l.check_memory(out_len) {
            Ok(()) => {},
            Err(e) => {
                return Err(e);
            },
        }
    }
    let fmt = super::format_tag_exec(header.format);
    let pix = vstd::slice::slice_subrange(data, off, data.len());
    if !is16 && header.maxval == 255 {
        let view = vstd::slice::slice_subrange(pix, 0, src_len as usize);
        return Ok(DecodeOutput::borrowed(view, header.width, header.height, header.layout, fmt));
    }
    if !is16 {
        let out = rescale8_transform(pix, n64 as usize, header.maxval);
        return Ok(DecodeOutput::owned(out, header.width, header.height, header.layout, fmt));
    }
    if matches!(header.layout, PixelLayout::Gray16) {
        let out = copy_prefix(pix, src_len as usize);
        return Ok(DecodeOutput::owned(out, header.width, header.height, header.layout, fmt));
    }
    let out = down16_transform(pix, n64 as usize, header.maxval);
    Ok(DecodeOutput::owned(out, header.width, header.height, header.layout, fmt))
}

/// `a * b * c` if it fits in a `u64`.
fn checked_mul4(a: u64, b: u64, c: u64) -> (r: Option<u64>)
    ensures
        match r {
            Some(v) => v == a as int * b as int * c as int,
            None => a as int * b as int * c as int > u64::MAX,
        },
{
    proof {
        lemma_mul_nonneg_int(a as int, b as int);
    }
    match a.checked_mul(b) {
        Some(ab) => match ab.checked_mul(c) {
            Some(v) => Some(v),
            None => None,
        },
        None => {
            if c == 0 {
                proof {
                    assert(a as int * b as int * 0 == 0) by (nonlinear_arith);
                }
                return Some(0);
            }
            proof {
                assert(a as int * b as int * c as int >= a as int * b as int) by (nonlinear_arith)
                    requires
                        a as int * b as int > u64::MAX,
                        c >= 1,
                ;
            }
            None
        },
    }
}

proof fn lemma_mul_nonneg_int(a: int, b: int)
    requires
        a >= 0,
        b >= 0,
    ensures
        a * b >= 0,
{
    lemma_mul_inequality(0, a, b);
}

/// The output length the decoder allocates equals the spec-level output
/// length, for each integer-format layout.
proof fn lemma_out_len_agrees(h: PnmHeader, n: int, src_len: int, out_len: int)
    requires
        header_meta_wf(h),
        !(h.format is Pfm),
        n == h.width as int * h.height as int * h.depth as int,
        src_len == n * (if h.maxval > 255 {
            2int
        } else {
            1int
        }),
        out_len == (if h.layout is Gray16 {
            src_len
        } else {
            n
        }),
    ensures
        out_len == h.width as int * h.height as int * bpp_spec(h.layout),
{
    let w = h.width as int;
    let ht = h.height as int;
    if h.layout is Gray16 {
        assert(h.depth == 1);
        assert(n == w * ht) by (nonlinear_arith)
            requires
                n == w * ht * 1int,
        ;
        assert(out_len == n * 2);
        assert(w * ht * 2 == n * 2) by (nonlinear_arith)
            requires
                n == w * ht,
        ;
    } else {
        assert(bpp_spec(h.layout) == h.depth as int);
    }
}

/// Copy the first `n` bytes of a slice.
fn copy_prefix(src: &[u8], n: usize) -> (r: Vec<u8>)
    requires
        n <= src@.len(),
    ensures
        r@ == src@.subrange(0, n as int),
{
    let view = vstd::slice::slice_subrange(src, 0, n);
    let mut out: Vec<u8> = Vec::new();
    out.extend_from_slice(view);
    proof {
        assert(out@ =~= src@.subrange(0, n as int));
    }
    out
}

/// Rescale `n` 8-bit samples from maxval `m` to 255.
fn rescale8_transform(src: &[u8], n: usize, m: u32) -> (r: Vec<u8>)
    requires
        n <= src@.len(),
        1 <= m <= 65535,
    ensures
        r@ == rescale8_seq(src@, n as int, m as int),
{
    let mut out: Vec<u8> = Vec::with_capacity(n);
    let mut i: usize = 0;
    while i < n
        invariant
            i <= n <= src@.len(),
            1 <= m <= 65535,
            out@.len() == i,
            forall|j: int| 0 <= j < i ==> out@[j] as int == rescale(src@[j] as int, m as int),
        decreases n - i,
    {
        let v = rescale_exec(src[i] as u32, m);
        out.push(v);
        i = i + 1;
    }
    proof {
        assert(out@ =~= rescale8_seq(src@, n as int, m as int));
    }
    out
}

/// Downscale `n` big-endian 16-bit samples to 8 bits against maxval `m`.
fn down16_transform(src: &[u8], n: usize, m: u32) -> (r: Vec<u8>)
    requires
        n as int * 2 <= src@.len(),
        1 <= m <= 65535,
    ensures
        r@ == down16_seq(src@, n as int, m as int),
{
    let src_n = src.len();
    let mut out: Vec<u8> = Vec::with_capacity(n);
    let mut i: usize = 0;
    while i < n
        invariant
            i <= n,
            n as int * 2 <= src@.len(),
            src@.len() == src_n,
            1 <= m <= 65535,
            out@.len() == i,
            forall|j: int| 0 <= j < i ==> out@[j] as int == rescale(
                src@[2 * j] as int * 256 + src@[2 * j + 1] as int,
                m as int,
            ),
        decreases n - i,
    {
        proof {
            assert(2 * i + 1 < n as int * 2) by (nonlinear_arith)
                requires
                    i < n,
            ;
        }
        let hi = src[2 * i] as u32;
        let lo = src[2 * i + 1] as u32;
        let v = rescale_exec(hi * 256 + lo, m);
        out.push(v);
        i = i + 1;
    }
    proof {
        assert(out@ =~= down16_seq(src@, n as int, m as int));
    }
    out
}

/// Assemble the PFM output: stored rows read bottom-to-top, each sample
/// normalized to little-endian byte order.
fn pfm_transform(src: &[u8], w: usize, h: usize, depth: usize, le: bool) -> (r: Vec<u8>)
    requires
        w >= 1,
        h >= 1,
        1 <= depth <= 3,
        w as int * h as int * depth as int * 4 <= src@.len(),
    ensures
        r@ == pfm_rows(src@, w as int * depth as int * 4, h as int, 0, le),
{
    proof {
        assert(w as int * h as int * depth as int * 4 == (w as int * depth as int * 4) * h as int)
            by (nonlinear_arith);
        assert(w as int * depth as int * 4 <= (w as int * depth as int * 4) * h as int)
            by (nonlinear_arith)
            requires
                h >= 1,
                w >= 1,
                depth >= 1,
        ;
    }
    let src_n = src.len();
    proof {
        assert(w as int * depth as int * 4 >= 4) by (nonlinear_arith)
            requires
                w >= 1,
                depth >= 1,
        ;
    }
    let row: usize = w * depth * 4;
    let total: usize = row * h;
    let mut out: Vec<u8> = Vec::with_capacity(total);
    let mut r: usize = 0;
    while r < h
        invariant
            r <= h,
            src@.len() == src_n,
            row == w as int * depth as int * 4,
            row >= 4,
            row as int * h as int <= src@.len(),
            pfm_rows(src@, row as int, h as int, 0, le) == out@ + pfm_rows(
                src@,
                row as int,
                h as int,
                r as int,
                le,
            ),
            out@.len() == r as int * row as int,
        decreases h - r,
    {
        proof {
            lemma_mul_inequality(r as int + 1, h as int, row as int);
            lemma_mul_is_commutative(r as int + 1, row as int);
            lemma_mul_is_commutative(h as int, row as int);
            assert((h as int - 1 - r as int) * row as int + row as int <= row as int * h as int)
                by (nonlinear_arith)
                requires
                    r < h,
                    row >= 1,
            ;
            assert((h as int - 1 - r as int) * row as int >= 0) by (nonlinear_arith)
                requires
                    r < h,
                    row >= 1,
            ;
        }
        let base: usize = (h - 1 - r) * row;
        let ghost out_before = out@;
        push_pfm_row(&mut out, src, base, row, le);
        proof {
            assert(pfm_rows(src@, row as int, h as int, r as int, le) == pfm_row(
                src@,
                base as int,
                row as int,
                le,
            ) + pfm_rows(src@, row as int, h as int, r as int + 1, le));
            assert(out@ == out_before + pfm_row(src@, base as int, row as int, le));
            assert((out_before + pfm_row(src@, base as int, row as int, le)) + pfm_rows(
                src@,
                row as int,
                h as int,
                r as int + 1,
                le,
            ) =~= out_before + (pfm_row(src@, base as int, row as int, le) + pfm_rows(
                src@,
                row as int,
                h as int,
                r as int + 1,
                le,
            )));
            assert((r as int + 1) * row as int == r as int * row as int + row as int)
                by (nonlinear_arith);
        }
        r = r + 1;
    }
    proof {
        assert(pfm_rows(src@, row as int, h as int, h as int, le) =~= Seq::<u8>::empty());
        assert(out@ + Seq::<u8>::empty() =~= out@);
    }
    out
}

/// Append one normalized PFM row to `out`.
fn push_pfm_row(out: &mut Vec<u8>, src: &[u8], base: usize, row: usize, le: bool)
    requires
        base + row <= src@.len(),
        row % 4 == 0,
        row >= 4,
    ensures
        final(out)@ == old(out)@ + pfm_row(src@, base as int, row as int, le),
{
    let src_n = src.len();
    let mut k: usize = 0;
    while k < row
        invariant
            k <= row,
            base + row <= src@.len(),
            src@.len() == src_n,
            row % 4 == 0,
            out@ == old(out)@ + pfm_row(src@, base as int, row as int, le).subrange(0, k as int),
        decreases row - k,
    {
        let ghost before = out@;
        if le {
            out.push(src[base + k]);
        } else {
            proof {
                lemma_swizzle_in_row(k as int, row as int);
            }
            let idx = base + (k / 4) * 4 + 3 - (k % 4);
            out.push(src[idx]);
        }
        proof {
            let target = pfm_row(src@, base as int, row as int, le);
            assert(target[k as int] == out@[out@.len() - 1]);
            assert(before + target.subrange(0, k as int) + seq![out@[out@.len() - 1]] =~= before
                + target.subrange(0, k as int + 1));
            assert(out@ =~= before + seq![out@[out@.len() - 1]]);
        }
        k = k + 1;
    }
    proof {
        assert(pfm_row(src@, base as int, row as int, le).subrange(
            0,
            row as int,
        ) =~= pfm_row(src@, base as int, row as int, le));
    }
}

/// The byte-swapped index stays inside the row.
proof fn lemma_swizzle_in_row(k: int, row: int)
    requires
        0 <= k < row,
        row % 4 == 0,
    ensures
        0 <= (k / 4) * 4 + 3 - (k % 4),
        (k / 4) * 4 + 3 - (k % 4) < row,
        (k / 4) * 4 <= k,
        0 <= k % 4 <= 3,
{
    vstd::arithmetic::div_mod::lemma_fundamental_div_mod(k, 4);
    vstd::arithmetic::div_mod::lemma_fundamental_div_mod(row, 4);
    assert((k / 4) * 4 + 3 < row) by (nonlinear_arith)
        requires
            0 <= k < row,
            row % 4 == 0,
            k == 4 * (k / 4) + k % 4,
            row == 4 * (row / 4) + row % 4,
            0 <= k % 4 < 4,
    ;
}

/// PNM decoder over a borrowed byte buffer. Supports P5 (PGM), P6 (PPM),
/// P7 (PAM), and PFM.
pub struct PnmDecoder<'a> {
    data: &'a [u8],
}

impl<'a> PnmDecoder<'a> {
    /// The bytes this decoder reads.
    pub closed spec fn data_spec(&self) -> Seq<u8> {
        self.data@
    }

    /// Wrap a buffer holding a PNM image.
    pub fn new(data: &'a [u8]) -> (r: Self)
        ensures
            r.data_spec() == data@,
    {
        PnmDecoder { data }
    }

    /// Probe: dimensions, format and layout without decoding pixels.
    pub fn info(&self) -> (r: Result<(u32, u32, PnmFormat, PixelLayout), PnmError>)
        ensures
            match r {
                Ok((w, h, f, l)) => {
                    &&& header_spec(self.data_spec()) is Ok
                    &&& {
                        let hd = header_spec(self.data_spec())->Ok_0;
                        w == hd.width && h == hd.height && f == hd.format && l == hd.layout
                    }
                },
                Err(e) => {
                    &&& header_spec(self.data_spec()) is Err
                    &&& err_kind(e) == header_spec(self.data_spec())->Err_0
                },
            },
    {
        let h = parse_header(self.data)?;
        Ok((h.width, h.height, h.format, h.layout))
    }

    /// Decode to pixels; zero-copy when the stored samples already are the
    /// canonical representation.
    pub fn decode(self) -> (r: Result<DecodeOutput<'a>, PnmError>)
        ensures
            decode_matches_spec(self.data_spec(), None, false, r),
    {
        decode(self.data, None, &Unstoppable)
    }
}

} // verus!
