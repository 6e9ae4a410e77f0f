//! PNM header grammars: P5/P6 (whitespace-separated numbers), P7 (PAM
//! key/value lines terminated by `ENDHDR`), and PFM (dimension line plus a
//! scale factor whose sign selects the sample byte order).

use vstd::prelude::*;

use super::scale::{classify, scale_class, ScaleClass};
use super::{PnmFormat, PnmHeader};
use crate::error::{err_kind, ErrKind, PnmError};
use crate::pixel::PixelLayout;
use crate::text::{
    digits_end_to, digits_val, find_line_end, find_nl, is_digit, lemma_digits_end_to_props,
    lemma_digits_val_nonneg, lemma_find_nl_props, lemma_skip_ws_props, lemma_trim_end_props,
    lemma_trim_start_props, parse_u32, parse_u32_spec, skip_ws, skip_ws_spec, trim, trim_range,
};

verus! {

/// Grammar of a P5/P6 header: magic, then width, height and maxval as
/// ASCII decimals separated by whitespace or comments, then exactly one
/// byte before the samples.
pub open spec fn p5p6_spec(d: Seq<u8>, f: PnmFormat) -> Result<PnmHeader, ErrKind> {
    match skip_ws_spec(d, 2) {
        None => Err(ErrKind::UnexpectedEof),
        Some(p1) => match parse_u32_spec(d, p1) {
            None => Err(ErrKind::InvalidHeader),
            Some((w, p2)) => match skip_ws_spec(d, p2) {
                None => Err(ErrKind::UnexpectedEof),
                Some(p3) => match parse_u32_spec(d, p3) {
                    None => Err(ErrKind::InvalidHeader),
                    Some((h, p4)) => match skip_ws_spec(d, p4) {
                        None => Err(ErrKind::UnexpectedEof),
                        Some(p5) => match parse_u32_spec(d, p5) {
                            None => Err(ErrKind::InvalidHeader),
                            Some((m, p6)) => {
                                if m == 0 || m > 65535 {
                                    Err(ErrKind::InvalidHeader)
                                } else if w == 0 || h == 0 {
                                    Err(ErrKind::InvalidHeader)
                                } else if p6 >= d.len() {
                                    Err(ErrKind::UnexpectedEof)
                                } else {
                                    Ok(p5p6_header(f, w, h, m, (p6 + 1) as usize))
                                }
                            },
                        },
                    },
                },
            },
        },
    }
}

/// The header a valid P5/P6 preamble yields.
pub open spec fn p5p6_header(f: PnmFormat, w: u32, h: u32, m: u32, off: usize) -> PnmHeader {
    PnmHeader {
        format: f,
        width: w,
        height: h,
        maxval: m,
        depth: if f is Ppm {
            3
        } else {
            1
        },
        layout: if f is Ppm {
            PixelLayout::Rgb8
        } else if m <= 255 {
            PixelLayout::Gray8
        } else {
            PixelLayout::Gray16
        },
        little_endian: false,
        data_offset: off,
    }
}

pub open spec fn kw_width() -> Seq<u8> {
    seq![87u8, 73u8, 68u8, 84u8, 72u8, 32u8]
}

pub open spec fn kw_height() -> Seq<u8> {
    seq![72u8, 69u8, 73u8, 71u8, 72u8, 84u8, 32u8]
}

pub open spec fn kw_depth() -> Seq<u8> {
    seq![68u8, 69u8, 80u8, 84u8, 72u8, 32u8]
}

pub open spec fn kw_maxval() -> Seq<u8> {
    seq![77u8, 65u8, 88u8, 86u8, 65u8, 76u8, 32u8]
}

pub open spec fn kw_endhdr() -> Seq<u8> {
    seq![69u8, 78u8, 68u8, 72u8, 68u8, 82u8]
}

/// Whether `d[a..b)` begins with `pat`.
pub open spec fn has_prefix(d: Seq<u8>, a: int, b: int, pat: Seq<u8>) -> bool {
    &&& 0 <= a
    &&& a + pat.len() <= b
    &&& b <= d.len()
    &&& forall|i: int| 0 <= i < pat.len() ==> #[trigger] d[a + i] == pat[i]
}

/// Whether `d[a..b)` is exactly `pat`.
pub open spec fn range_is(d: Seq<u8>, a: int, b: int, pat: Seq<u8>) -> bool {
    b - a == pat.len() && has_prefix(d, a, b, pat)
}

/// A PAM key's value: the rest of the line, trimmed; an optional leading
/// `+`; then decimal digits only, fitting in a `u32`.
pub open spec fn kv_u32(d: Seq<u8>, vs: int, b: int) -> Option<u32> {
    let tr = trim_range(d, vs, b);
    let ta = tr.0;
    let tb = tr.1;
    let st = if ta < tb && d[ta] == 43 {
        ta + 1
    } else {
        ta
    };
    if st < tb && digits_end_to(d, st, tb) == tb && digits_val(d, st, tb) <= u32::MAX {
        Some(digits_val(d, st, tb) as u32)
    } else {
        None
    }
}

/// The four numeric fields a PAM header accumulates, and the offset where
/// pixel data begins.
pub struct P7Raw {
    pub w: Option<u32>,
    pub h: Option<u32>,
    pub dep: Option<u32>,
    pub m: Option<u32>,
    pub off: int,
}

/// Effect of one non-`ENDHDR` header line (trimmed to `d[a..b)`) on the
/// accumulated fields. Unknown and comment lines change nothing.
pub open spec fn p7_line(d: Seq<u8>, a: int, b: int, acc: P7Raw) -> Result<P7Raw, ErrKind> {
    if has_prefix(d, a, b, kw_width()) {
        match kv_u32(d, a + 6, b) {
            Some(v) => Ok(P7Raw { w: Some(v), ..acc }),
            None => Err(ErrKind::InvalidHeader),
        }
    } else if has_prefix(d, a, b, kw_height()) {
        match kv_u32(d, a + 7, b) {
            Some(v) => Ok(P7Raw { h: Some(v), ..acc }),
            None => Err(ErrKind::InvalidHeader),
        }
    } else if has_prefix(d, a, b, kw_depth()) {
        match kv_u32(d, a + 6, b) {
            Some(v) => Ok(P7Raw { dep: Some(v), ..acc }),
            None => Err(ErrKind::InvalidHeader),
        }
    } else if has_prefix(d, a, b, kw_maxval()) {
        match kv_u32(d, a + 7, b) {
            Some(v) => Ok(P7Raw { m: Some(v), ..acc }),
            None => Err(ErrKind::InvalidHeader),
        }
    } else {
        Ok(acc)
    }
}

/// The PAM header line loop: reads one line per step until the `ENDHDR`
/// line; running out of input without one is an error.
pub open spec fn p7_loop(d: Seq<u8>, pos: int, acc: P7Raw) -> Result<P7Raw, ErrKind>
    decreases d.len() - pos,
    via p7_loop_dec
{
    if pos < 0 || pos >= d.len() {
        Err(ErrKind::InvalidHeader)
    } else {
        let le = find_nl(d, pos);
        let tr = trim_range(d, pos, le);
        if range_is(d, tr.0, tr.1, kw_endhdr()) {
            Ok(
                P7Raw {
                    off: if le + 1 <= d.len() {
                        le + 1
                    } else {
                        d.len() as int
                    },
                    ..acc
                },
            )
        } else {
            match p7_line(d, tr.0, tr.1, acc) {
                Err(k) => Err(k),
                Ok(acc2) => {
                    let pos2 = if le < d.len() {
                        le + 1
                    } else {
                        d.len() as int
                    };
                    if pos2 >= d.len() {
                        Err(ErrKind::InvalidHeader)
                    } else {
                        p7_loop(d, pos2, acc2)
                    }
                },
            }
        }
    }
}

#[via_fn]
proof fn p7_loop_dec(d: Seq<u8>, pos: int, acc: P7Raw) {
    if 0 <= pos < d.len() {
        lemma_find_nl_props(d, pos);
    }
}

/// Grammar of a P7 (PAM) header: `P7`, then key/value lines up to
/// `ENDHDR`; the four numeric keys are mandatory; the depth must map to a
/// supported layout and the maxval must be in range.
pub open spec fn p7_spec(d: Seq<u8>) -> Result<PnmHeader, ErrKind> {
    match skip_ws_spec(d, 2) {
        None => Err(ErrKind::UnexpectedEof),
        Some(p0) => match p7_loop(
            d,
            p0,
            P7Raw { w: None, h: None, dep: None, m: None, off: 0 },
        ) {
            Err(k) => Err(k),
            Ok(raw) => {
                if raw.w is None || raw.h is None || raw.dep is None || raw.m is None {
                    Err(ErrKind::InvalidHeader)
                } else {
                    let w = raw.w->0;
                    let h = raw.h->0;
                    let dep = raw.dep->0;
                    let m = raw.m->0;
                    if m == 0 || m > 65535 {
                        Err(ErrKind::InvalidHeader)
                    } else if w == 0 || h == 0 {
                        Err(ErrKind::InvalidHeader)
                    } else {
                        match p7_layout(dep, m) {
                            None => Err(ErrKind::UnsupportedVariant),
                            Some(layout) => Ok(
                                PnmHeader {
                                    format: PnmFormat::Pam,
                                    width: w,
                                    height: h,
                                    maxval: m,
                                    depth: dep,
                                    layout,
                                    little_endian: false,
                                    data_offset: raw.off as usize,
                                },
                            ),
                        }
                    }
                }
            },
        },
    }
}

/// The layout a PAM depth/maxval pair selects; depths other than 1, 3, 4
/// are unsupported. Depth 3 and 4 samples above 255 are downscaled during
/// transcoding, so their layouts stay 8-bit.
pub open spec fn p7_layout(dep: u32, m: u32) -> Option<PixelLayout> {
    if dep == 1 {
        Some(
            if m <= 255 {
                PixelLayout::Gray8
            } else {
                PixelLayout::Gray16
            },
        )
    } else if dep == 3 {
        Some(PixelLayout::Rgb8)
    } else if dep == 4 {
        Some(PixelLayout::Rgba8)
    } else {
        None
    }
}

/// Grammar of a PFM header: `Pf` (grayscale) or `PF` (color), dimensions,
/// then a line holding the scale factor, whose sign selects little-endian
/// storage. Only unit-magnitude scales are supported.
pub open spec fn pfm_spec(d: Seq<u8>) -> Result<PnmHeader, ErrKind> {
    match skip_ws_spec(d, 2) {
        None => Err(ErrKind::UnexpectedEof),
        Some(p1) => match parse_u32_spec(d, p1) {
            None => Err(ErrKind::InvalidHeader),
            Some((w, p2)) => match skip_ws_spec(d, p2) {
                None => Err(ErrKind::UnexpectedEof),
                Some(p3) => match parse_u32_spec(d, p3) {
                    None => Err(ErrKind::InvalidHeader),
                    Some((h, p4)) => match skip_ws_spec(d, p4) {
                        None => Err(ErrKind::UnexpectedEof),
                        Some(p5) => {
                            let le = find_nl(d, p5);
                            let tr = trim_range(d, p5, le);
                            match scale_class(d, tr.0, tr.1) {
                                ScaleClass::Invalid => Err(ErrKind::InvalidHeader),
                                ScaleClass::NonUnit => Err(ErrKind::UnsupportedVariant),
                                ScaleClass::Unit { negative } => {
                                    if w == 0 || h == 0 {
                                        Err(ErrKind::InvalidHeader)
                                    } else {
                                        Ok(pfm_header(d, w, h, negative, le))
                                    }
                                },
                            }
                        },
                    },
                },
            },
        },
    }
}

/// The header a valid PFM preamble yields; `PF` means color.
pub open spec fn pfm_header(d: Seq<u8>, w: u32, h: u32, negative: bool, le: int) -> PnmHeader {
    PnmHeader {
        format: PnmFormat::Pfm,
        width: w,
        height: h,
        maxval: 0,
        depth: if d[1] == 70 {
            3
        } else {
            1
        },
        layout: if d[1] == 70 {
            PixelLayout::RgbF32
        } else {
            PixelLayout::GrayF32
        },
        little_endian: negative,
        data_offset: if le + 1 <= d.len() {
            (le + 1) as usize
        } else {
            d.len() as usize
        },
    }
}

/// Header grammar of the whole PNM family, dispatched on the magic bytes.
pub open spec fn header_spec(d: Seq<u8>) -> Result<PnmHeader, ErrKind> {
    if d.len() < 3 {
        Err(ErrKind::UnexpectedEof)
    } else if d[0] == 80 && d[1] == 53 {
        p5p6_spec(d, PnmFormat::Pgm)
    } else if d[0] == 80 && d[1] == 54 {
        p5p6_spec(d, PnmFormat::Ppm)
    } else if d[0] == 80 && d[1] == 55 {
        p7_spec(d)
    } else if d[0] == 80 && (d[1] == 102 || d[1] == 70) {
        pfm_spec(d)
    } else {
        Err(ErrKind::UnrecognizedFormat)
    }
}

/// Input-independent consistency of a parsed header: positive dimensions,
/// a maxval in range for the integer formats, and a depth and layout that
/// agree.
pub open spec fn header_meta_wf(h: PnmHeader) -> bool {
    &&& h.width > 0
    &&& h.height > 0
    &&& h.depth == crate::pixel::channels_spec(h.layout)
    &&& (h.format is Pfm ==> h.maxval == 0 && crate::pixel::bpp_spec(h.layout) == 4 * h.depth
        && (h.layout is GrayF32 || h.layout is RgbF32))
    &&& (!(h.format is Pfm) ==> 1 <= h.maxval <= 65535)
    &&& (!(h.format is Pfm) && h.layout is Gray16 ==> h.depth == 1 && h.maxval > 255)
    &&& (!(h.format is Pfm) && !(h.layout is Gray16) ==> crate::pixel::bpp_spec(h.layout)
        == h.depth)
}

/// Consistency of a parsed header, including that its data offset lies
/// within the input.
pub open spec fn header_wf(d: Seq<u8>, h: PnmHeader) -> bool {
    &&& header_meta_wf(h)
    &&& h.data_offset <= d.len()
}

/// Every header the grammar accepts is internally consistent.
pub proof fn lemma_header_wf(d: Seq<u8>)
    ensures
        header_spec(d) is Ok ==> header_wf(d, header_spec(d)->Ok_0),
{
    if d.len() >= 3 {
        if d[0] == 80 && d[1] == 53 {
            lemma_p5p6_wf(d, PnmFormat::Pgm);
        } else if d[0] == 80 && d[1] == 54 {
            lemma_p5p6_wf(d, PnmFormat::Ppm);
        } else if d[0] == 80 && d[1] == 55 {
            lemma_p7_wf(d);
        } else if d[0] == 80 && (d[1] == 102 || d[1] == 70) {
            lemma_pfm_wf(d);
        }
    }
}

proof fn lemma_p5p6_wf(d: Seq<u8>, f: PnmFormat)
    requires
        f is Pgm || f is Ppm,
    ensures
        p5p6_spec(d, f) is Ok ==> header_wf(d, p5p6_spec(d, f)->Ok_0),
{
    lemma_skip_ws_props(d, 2);
    if skip_ws_spec(d, 2) is Some {
        let p1 = skip_ws_spec(d, 2)->0;
        lemma_parse_u32_in_range(d, p1);
        if parse_u32_spec(d, p1) is Some {
            let p2 = (parse_u32_spec(d, p1)->0).1;
            lemma_skip_ws_props(d, p2);
            if skip_ws_spec(d, p2) is Some {
                let p3 = skip_ws_spec(d, p2)->0;
                lemma_parse_u32_in_range(d, p3);
                if parse_u32_spec(d, p3) is Some {
                    let p4 = (parse_u32_spec(d, p3)->0).1;
                    lemma_skip_ws_props(d, p4);
                    if skip_ws_spec(d, p4) is Some {
                        let p5 = skip_ws_spec(d, p4)->0;
                        lemma_parse_u32_in_range(d, p5);
                    }
                }
            }
        }
    }
}

/// A successful `parse_u32_spec` ends within the input.
pub proof fn lemma_parse_u32_in_range(d: Seq<u8>, pos: int)
    requires
        0 <= pos <= d.len(),
    ensures
        parse_u32_spec(d, pos) is Some ==> pos < (parse_u32_spec(d, pos)->0).1 <= d.len(),
{
    crate::text::lemma_digits_end_props(d, pos);
}

proof fn lemma_p7_wf(d: Seq<u8>)
    ensures
        p7_spec(d) is Ok ==> header_wf(d, p7_spec(d)->Ok_0),
{
    lemma_skip_ws_props(d, 2);
    if skip_ws_spec(d, 2) is Some {
        let p0 = skip_ws_spec(d, 2)->0;
        lemma_p7_loop_off(d, p0, P7Raw { w: None, h: None, dep: None, m: None, off: 0 });
    }
}

/// The offset a finished PAM line loop reports is within the input.
pub proof fn lemma_p7_loop_off(d: Seq<u8>, pos: int, acc: P7Raw)
    ensures
        p7_loop(d, pos, acc) is Ok ==> 0 <= p7_loop(d, pos, acc)->Ok_0.off <= d.len(),
    decreases d.len() - pos,
{
    if 0 <= pos < d.len() {
        let le = find_nl(d, pos);
        lemma_find_nl_props(d, pos);
        let tr = trim_range(d, pos, le);
        if !range_is(d, tr.0, tr.1, kw_endhdr()) {
            match p7_line(d, tr.0, tr.1, acc) {
                Ok(acc2) => {
                    let pos2 = if le < d.len() {
                        le + 1
                    } else {
                        d.len() as int
                    };
                    if pos2 < d.len() {
                        lemma_p7_loop_off(d, pos2, acc2);
                    }
                },
                Err(_) => {},
            }
        }
    }
}

proof fn lemma_pfm_wf(d: Seq<u8>)
    requires
        d.len() >= 3,
    ensures
        pfm_spec(d) is Ok ==> header_wf(d, pfm_spec(d)->Ok_0),
{
}

/// Whether the trimmed line `data[a..b)` is exactly `ENDHDR`.
fn line_is_endhdr(data: &[u8], a: usize, b: usize) -> (r: bool)
    requires
        a <= b <= data@.len(),
    ensures
        r == range_is(data@, a as int, b as int, kw_endhdr()),
{
    if b - a != 6 {
        return false;
    }
    let r = data[a] == 69 && data[a + 1] == 78 && data[a + 2] == 68 && data[a + 3] == 72
        && data[a + 4] == 68 && data[a + 5] == 82;
    proof {
        lemma_match6(data@, a as int, b as int, kw_endhdr(), r);
    }
    r
}

/// Bridges six byte comparisons to `has_prefix` with a six-byte pattern.
proof fn lemma_match6(d: Seq<u8>, a: int, b: int, pat: Seq<u8>, r: bool)
    requires
        pat.len() == 6,
        0 <= a,
        a + 6 <= b <= d.len(),
        r == (d[a] == pat[0] && d[a + 1] == pat[1] && d[a + 2] == pat[2] && d[a + 3] == pat[3]
            && d[a + 4] == pat[4] && d[a + 5] == pat[5]),
    ensures
        r == has_prefix(d, a, b, pat),
{
    if r {
        assert forall|i: int| 0 <= i < 6 implies #[trigger] d[a + i] == pat[i] by {
            if i == 0 {
            } else if i == 1 {
            } else if i == 2 {
            } else if i == 3 {
            } else if i == 4 {
            } else {
                assert(i == 5);
            }
        }
    } else {
        if has_prefix(d, a, b, pat) {
            assert(d[a + 0] == pat[0]);
            assert(d[a + 1] == pat[1]);
            assert(d[a + 2] == pat[2]);
            assert(d[a + 3] == pat[3]);
            assert(d[a + 4] == pat[4]);
            assert(d[a + 5] == pat[5]);
        }
    }
}

/// Bridges seven byte comparisons to `has_prefix` with a seven-byte
/// pattern.
proof fn lemma_match7(d: Seq<u8>, a: int, b: int, pat: Seq<u8>, r: bool)
    requires
        pat.len() == 7,
        0 <= a,
        a + 7 <= b <= d.len(),
        r == (d[a] == pat[0] && d[a + 1] == pat[1] && d[a + 2] == pat[2] && d[a + 3] == pat[3]
            && d[a + 4] == pat[4] && d[a + 5] == pat[5] && d[a + 6] == pat[6]),
    ensures
        r == has_prefix(d, a, b, pat),
{
    if r {
        assert forall|i: int| 0 <= i < 7 implies #[trigger] d[a + i] == pat[i] by {
            if i == 0 {
            } else if i == 1 {
            } else if i == 2 {
            } else if i == 3 {
            } else if i == 4 {
            } else if i == 5 {
            } else {
                assert(i == 6);
            }
        }
    } else {
        if has_prefix(d, a, b, pat) {
            assert(d[a + 0] == pat[0]);
            assert(d[a + 1] == pat[1]);
            assert(d[a + 2] == pat[2]);
            assert(d[a + 3] == pat[3]);
            assert(d[a + 4] == pat[4]);
            assert(d[a + 5] == pat[5]);
            assert(d[a + 6] == pat[6]);
        }
    }
}

/// Whether the line `data[a..b)` begins with `WIDTH `.
fn line_has_width(data: &[u8], a: usize, b: usize) -> (r: bool)
    requires
        a <= b <= data@.len(),
    ensures
        r == has_prefix(data@, a as int, b as int, kw_width()),
{
    if b - a < 6 {
        return false;
    }
    let r = data[a] == 87 && data[a + 1] == 73 && data[a + 2] == 68 && data[a + 3] == 84
        && data[a + 4] == 72 && data[a + 5] == 32;
    proof {
        lemma_match6(data@, a as int, b as int, kw_width(), r);
    }
    r
}

/// Whether the line `data[a..b)` begins with `HEIGHT `.
fn line_has_height(data: &[u8], a: usize, b: usize) -> (r: bool)
    requires
        a <= b <= data@.len(),
    ensures
        r == has_prefix(data@, a as int, b as int, kw_height()),
{
    if b - a < 7 {
        return false;
    }
    let r = data[a] == 72 && data[a + 1] == 69 && data[a + 2] == 73 && data[a + 3] == 71
        && data[a + 4] == 72 && data[a + 5] == 84 && data[a + 6] == 32;
    proof {
        lemma_match7(data@, a as int, b as int, kw_height(), r);
    }
    r
}

/// Whether the line `data[a..b)` begins with `DEPTH `.
fn line_has_depth(data: &[u8], a: usize, b: usize) -> (r: bool)
    requires
        a <= b <= data@.len(),
    ensures
        r == has_prefix(data@, a as int, b as int, kw_depth()),
{
    if b - a < 6 {
        return false;
    }
    let r = data[a] == 68 && data[a + 1] == 69 && data[a + 2] == 80 && data[a + 3] == 84
        && data[a + 4] == 72 && data[a + 5] == 32;
    proof {
        lemma_match6(data@, a as int, b as int, kw_depth(), r);
    }
    r
}

/// Whether the line `data[a..b)` begins with `MAXVAL `.
fn line_has_maxval(data: &[u8], a: usize, b: usize) -> (r: bool)
    requires
        a <= b <= data@.len(),
    ensures
        r == has_prefix(data@, a as int, b as int, kw_maxval()),
{
    if b - a < 7 {
        return false;
    }
    let r = data[a] == 77 && data[a + 1] == 65 && data[a + 2] == 88 && data[a + 3] == 86
        && data[a + 4] == 65 && data[a + 5] == 76 && data[a + 6] == 32;
    proof {
        lemma_match7(data@, a as int, b as int, kw_maxval(), r);
    }
    r
}

/// Parse a PAM key's value from `data[vs..b)`.
fn parse_kv(data: &[u8], vs: usize, b: usize) -> (r: Option<u32>)
    requires
        vs <= b <= data@.len(),
    ensures
        r == kv_u32(data@, vs as int, b as int),
{
    let (ta, tb) = trim(data, vs, b);
    let st = if ta < tb && data[ta] == 43 {
        ta + 1
    } else {
        ta
    };
    if st >= tb {
        return None;
    }
    proof {
        lemma_digits_end_to_props(data@, st as int, tb as int);
    }
    let ghost gend = digits_end_to(data@, st as int, tb as int);
    let mut p = st;
    let mut val: u64 = 0;
    let mut over = false;
    loop
        invariant
            st <= p <= tb <= data@.len(),
            p <= gend,
            gend == digits_end_to(data@, st as int, tb as int),
            gend == digits_end_to(data@, p as int, tb as int),
            st <= gend <= tb,
            forall|i: int| st <= i < gend ==> is_digit(#[trigger] data@[i]),
            gend < tb ==> !is_digit(data@[gend]),
            if over {
                digits_val(data@, st as int, p as int) > u32::MAX
            } else {
                val == digits_val(data@, st as int, p as int) && val <= u32::MAX
            },
        ensures
            p == gend,
        decreases tb - p,
    {
        if p >= tb {
            break;
        }
        let c = data[p];
        if c < 48 || c > 57 {
            break;
        }
        assert(p < gend);
        if !over {
            val = val * 10 + ((c - 48) as u64);
            if val > 0xffff_ffff {
                over = true;
            }
        } else {
            proof {
                crate::text::lemma_digits_val_grows(data@, st as int, p + 1);
            }
        }
        p = p + 1;
    }
    if p != tb || over {
        return None;
    }
    Some(val as u32)
}

/// Parse a P5 or P6 header.
fn parse_p5_p6(data: &[u8], format: PnmFormat) -> (r: Result<PnmHeader, PnmError>)
    requires
        data@.len() >= 3,
        format is Pgm || format is Ppm,
    ensures
        result_matches_header(r, p5p6_spec(data@, format)),
{
    let p1 = match skip_ws(data, 2) {
        Ok(p) => p,
        Err(e) => { return Err(e); },
    };
    let (width, p2) = match parse_u32(data, p1) {
        Ok(v) => v,
        Err(e) => { return Err(e); },
    };
    let p3 = match skip_ws(data, p2) {
        Ok(p) => p,
        Err(e) => { return Err(e); },
    };
    let (height, p4) = match parse_u32(data, p3) {
        Ok(v) => v,
        Err(e) => { return Err(e); },
    };
    let p5 = match skip_ws(data, p4) {
        Ok(p) => p,
        Err(e) => { return Err(e); },
    };
    let (maxval, p6) = match parse_u32(data, p5) {
        Ok(v) => v,
        Err(e) => { return Err(e); },
    };
    if maxval == 0 || maxval > 65535 {
        return Err(PnmError::InvalidHeader("maxval out of range".to_owned()));
    }
    if width == 0 || height == 0 {
        return Err(PnmError::InvalidHeader("zero dimension".to_owned()));
    }
    if p6 >= data.len() {
        return Err(PnmError::UnexpectedEof);
    }
    let (depth, layout) = if matches!(format, PnmFormat::Ppm) {
        (3, PixelLayout::Rgb8)
    } else if maxval <= 255 {
        (1, PixelLayout::Gray8)
    } else {
        (1, PixelLayout::Gray16)
    };
    Ok(
        PnmHeader {
            format,
            width,
            height,
            maxval,
            depth,
            layout,
            little_endian: false,
            data_offset: p6 + 1,
        },
    )
}

/// Whether an execution result matches the grammar's verdict.
pub open spec fn result_matches_header(
    r: Result<PnmHeader, PnmError>,
    s: Result<PnmHeader, ErrKind>,
) -> bool {
    match s {
        Ok(h) => r == Ok::<PnmHeader, PnmError>(h),
        Err(k) => r is Err && err_kind(r->Err_0) == k,
    }
}

/// Parse a P7 (PAM) header.
fn parse_p7(data: &[u8]) -> (r: Result<PnmHeader, PnmError>)
    requires
        data@.len() >= 3,
    ensures
        result_matches_header(r, p7_spec(data@)),
{
    let p0 = match skip_ws(data, 2) {
        Ok(p) => p,
        Err(e) => { return Err(e); },
    };
    let ghost acc0 = P7Raw { w: None, h: None, dep: None, m: None, off: 0 };
    let mut w: Option<u32> = None;
    let mut h: Option<u32> = None;
    let mut dep: Option<u32> = None;
    let mut m: Option<u32> = None;
    let mut pos = p0;
    let mut off: usize = 0;
    let mut found_end = false;
    let mut failed = false;
    loop
        invariant_except_break
            !found_end,
            !failed,
        invariant
            0 <= pos < data@.len(),
            p7_loop(data@, p0 as int, acc0) == p7_loop(
                data@,
                pos as int,
                P7Raw { w, h, dep, m, off: 0 },
            ),
        ensures
            found_end ==> !failed && p7_loop(data@, p0 as int, acc0) == Ok::<P7Raw, ErrKind>(
                P7Raw { w, h, dep, m, off: off as int },
            ),
            !found_end ==> failed && p7_loop(data@, p0 as int, acc0) == Err::<
                P7Raw,
                ErrKind,
            >(ErrKind::InvalidHeader),
        decreases data@.len() - pos,
    {
        let le = find_line_end(data, pos);
        let (a, b) = trim(data, pos, le);
        if line_is_endhdr(data, a, b) {
            off = if le < data.len() {
                le + 1
            } else {
                data.len()
            };
            found_end = true;
            break;
        }
        let ghost acc = P7Raw { w, h, dep, m, off: 0 };
        if line_has_width(data, a, b) {
            match parse_kv(data, a + 6, b) {
                Some(v) => {
                    w = Some(v);
                },
                None => {
                    failed = true;
                    break;
                },
            }
        } else if line_has_height(data, a, b) {
            match parse_kv(data, a + 7, b) {
                Some(v) => {
                    h = Some(v);
                },
                None => {
                    failed = true;
                    break;
                },
            }
        } else if line_has_depth(data, a, b) {
            match parse_kv(data, a + 6, b) {
                Some(v) => {
                    dep = Some(v);
                },
                None => {
                    failed = true;
                    break;
                },
            }
        } else if line_has_maxval(data, a, b) {
            match parse_kv(data, a + 7, b) {
                Some(v) => {
                    m = Some(v);
                },
                None => {
                    failed = true;
                    break;
                },
            }
        }
        assert(p7_line(data@, a as int, b as int, acc) == Ok::<P7Raw, ErrKind>(
            P7Raw { w, h, dep, m, off: 0 },
        ));
        let pos2 = if le < data.len() {
            le + 1
        } else {
            data.len()
        };
        if pos2 >= data.len() {
            failed = true;
            break;
        }
        pos = pos2;
    }
    if !found_end {
        return Err(PnmError::InvalidHeader("no ENDHDR found".to_owned()));
    }
    let width = match w {
        Some(v) => v,
        None => { return Err(PnmError::InvalidHeader("missing WIDTH".to_owned())); },
    };
    let height = match h {
        Some(v) => v,
        None => { return Err(PnmError::InvalidHeader("missing HEIGHT".to_owned())); },
    };
    let depth = match dep {
        Some(v) => v,
        None => { return Err(PnmError::InvalidHeader("missing DEPTH".to_owned())); },
    };
    let maxval = match m {
        Some(v) => v,
        None => { return Err(PnmError::InvalidHeader("missing MAXVAL".to_owned())); },
    };
    if maxval == 0 || maxval > 65535 {
        return Err(PnmError::InvalidHeader("maxval out of range".to_owned()));
    }
    if width == 0 || height == 0 {
        return Err(PnmError::InvalidHeader("zero dimension".to_owned()));
    }
    let layout = if depth == 1 {
        if maxval <= 255 {
            PixelLayout::Gray8
        } else {
            PixelLayout::Gray16
        }
    } else if depth == 3 {
        PixelLayout::Rgb8
    } else if depth == 4 {
        PixelLayout::Rgba8
    } else {
        return Err(PnmError::UnsupportedVariant("PAM depth not supported".to_owned()));
    };
    Ok(
        PnmHeader {
            format: PnmFormat::Pam,
            width,
            height,
            maxval,
            depth,
            layout,
            little_endian: false,
            data_offset: off,
        },
    )
}

/// Parse a PFM header.
fn parse_pfm(data: &[u8]) -> (r: Result<PnmHeader, PnmError>)
    requires
        data@.len() >= 3,
    ensures
        result_matches_header(r, pfm_spec(data@)),
{
    let is_color = data[1] == 70;
    let p1 = match skip_ws(data, 2) {
        Ok(p) => p,
        Err(e) => { return Err(e); },
    };
    let (width, p2) = match parse_u32(data, p1) {
        Ok(v) => v,
        Err(e) => { return Err(e); },
    };
    let p3 = match skip_ws(data, p2) {
        Ok(p) => p,
        Err(e) => { return Err(e); },
    };
    let (height, p4) = match parse_u32(data, p3) {
        Ok(v) => v,
        Err(e) => { return Err(e); },
    };
    let p5 = match skip_ws(data, p4) {
        Ok(p) => p,
        Err(e) => { return Err(e); },
    };
    let le = find_line_end(data, p5);
    let (ta, tb) = trim(data, p5, le);
    let negative = match classify(data, ta, tb) {
        ScaleClass::Invalid => {
            return Err(PnmError::InvalidHeader("bad scale".to_owned()));
        },
        ScaleClass::NonUnit => {
            return Err(
                PnmError::UnsupportedVariant(
                    "only unit-magnitude PFM scale factors are supported".to_owned(),
                ),
            );
        },
        ScaleClass::Unit { negative } => negative,
    };
    if width == 0 || height == 0 {
        return Err(PnmError::InvalidHeader("zero dimension".to_owned()));
    }
    let (depth, layout) = if is_color {
        (3, PixelLayout::RgbF32)
    } else {
        (1, PixelLayout::GrayF32)
    };
    let data_offset = if le < data.len() {
        le + 1
    } else {
        data.len()
    };
    Ok(
        PnmHeader {
            format: PnmFormat::Pfm,
            width,
            height,
            maxval: 0,
            depth,
            layout,
            little_endian: negative,
            data_offset,
        },
    )
}

/// Parse any PNM-family header, dispatching on the magic bytes.
pub fn parse_header(data: &[u8]) -> (r: Result<PnmHeader, PnmError>)
    ensures
        result_matches_header(r, header_spec(data@)),
        r is Ok ==> header_wf(data@, r->Ok_0),
{
    proof {
        lemma_header_wf(data@);
    }
    if data.len() < 3 {
        return Err(PnmError::UnexpectedEof);
    }
    let b0 = data[0];
    let b1 = data[1];
    if b0 == 80 && b1 == 53 {
        parse_p5_p6(data, PnmFormat::Pgm)
    } else if b0 == 80 && b1 == 54 {
        parse_p5_p6(data, PnmFormat::Ppm)
    } else if b0 == 80 && b1 == 55 {
        parse_p7(data)
    } else if b0 == 80 && (b1 == 102 || b1 == 70) {
        parse_pfm(data)
    } else {
        Err(PnmError::UnrecognizedFormat)
    }
}

} // verus!
