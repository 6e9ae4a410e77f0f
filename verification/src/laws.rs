//! The crate-level guarantees, proved once and for all inputs: encoding
//! then decoding a lossless format reproduces the pixels exactly, the
//! zero-copy policy is exactly the stored-equals-canonical case, and the
//! auto-detecting decoder refuses BMP data.

use vstd::prelude::*;

use crate::error::ErrKind;
use crate::info::BitmapFormat;
use crate::limits::{dims_within, Limits};
use crate::pixel::{bpp_spec, PixelLayout};
use crate::pnm::decode::{decode_spec, OutSpec};
use crate::pnm::encode::{
    dec_u32, encode_spec, p5p6_header_bytes, pam_header_bytes, pam_meta, pfm_header_bytes,
    pfm_enc_rows,
};
use crate::pnm::parse::{header_spec, kv_u32, p5p6_header, p7_line, p7_loop, P7Raw};
use crate::pnm::{PnmFormat, PnmHeader};
use crate::text::{
    digits_end, digits_end_to, digits_val, find_nl, is_ascii_ws, is_digit, is_pnm_ws,
    parse_u32_spec, skip_ws_spec, trim_range,
};

verus! {

/// Every digit of a decimal rendering is an ASCII digit, and there is at
/// least one.
pub proof fn lemma_dec_u32_digits(n: int)
    requires
        n >= 0,
    ensures
        dec_u32(n).len() >= 1,
        forall|i: int| 0 <= i < dec_u32(n).len() ==> is_digit(#[trigger] dec_u32(n)[i]),
    decreases n,
{
    if n >= 10 {
        lemma_dec_u32_digits(n / 10);
    }
}

/// Powers of ten.
pub open spec fn pow10(k: nat) -> int
    decreases k,
{
    if k == 0 {
        1
    } else {
        10 * pow10((k - 1) as nat)
    }
}

/// A number below `10^k` renders in at most `k` digits.
pub proof fn lemma_dec_u32_len_bound(n: int, k: nat)
    requires
        0 <= n < pow10(k),
        k >= 1,
    ensures
        dec_u32(n).len() <= k,
    decreases k,
{
    if n >= 10 {
        assert(pow10(k) == 10 * pow10((k - 1) as nat));
        let q = n / 10;
        let rr = n % 10;
        vstd::arithmetic::div_mod::lemma_fundamental_div_mod(n, 10);
        assert(q < pow10((k - 1) as nat)) by (nonlinear_arith)
            requires
                n == 10 * q + rr,
                0 <= rr < 10,
                n < 10 * pow10((k - 1) as nat),
        ;
        lemma_dec_u32_len_bound(n / 10, (k - 1) as nat);
    }
}

/// A `u32` renders in at most ten digits.
pub proof fn lemma_dec_u32_len(n: int)
    requires
        0 <= n <= u32::MAX,
    ensures
        1 <= dec_u32(n).len() <= 10,
{
    lemma_dec_u32_digits(n);
    assert(pow10(0) == 1);
    assert(pow10(1) == 10);
    assert(pow10(2) == 100);
    assert(pow10(3) == 1000);
    assert(pow10(4) == 10000);
    assert(pow10(5) == 100000);
    assert(pow10(6) == 1000000);
    assert(pow10(7) == 10000000);
    assert(pow10(8) == 100000000);
    assert(pow10(9) == 1000000000);
    assert(pow10(10) == 10000000000);
    lemma_dec_u32_len_bound(n, 10);
}

/// A digit run bounded by a non-digit ends exactly there.
pub proof fn lemma_digits_end_run(d: Seq<u8>, pos: int, end: int)
    requires
        0 <= pos <= end <= d.len(),
        forall|i: int| pos <= i < end ==> is_digit(#[trigger] d[i]),
        end == d.len() || !is_digit(d[end]),
    ensures
        digits_end(d, pos) == end,
    decreases end - pos,
{
    if pos < end {
        lemma_digits_end_run(d, pos + 1, end);
    }
}

/// Likewise for the bounded digit run.
pub proof fn lemma_digits_end_to_run(d: Seq<u8>, pos: int, end: int, b: int)
    requires
        0 <= pos <= end <= b <= d.len(),
        forall|i: int| pos <= i < end ==> is_digit(#[trigger] d[i]),
        end == b || !is_digit(d[end]),
    ensures
        digits_end_to(d, pos, b) == end,
    decreases end - pos,
{
    if pos < end {
        lemma_digits_end_to_run(d, pos + 1, end, b);
    }
}

/// The value of an embedded digit run equals the value of the run itself.
pub proof fn lemma_digits_val_embed(d: Seq<u8>, pos: int, ds: Seq<u8>)
    requires
        0 <= pos,
        pos + ds.len() <= d.len(),
        d.subrange(pos, pos + ds.len()) == ds,
    ensures
        digits_val(d, pos, pos + ds.len()) == digits_val(ds, 0, ds.len() as int),
    decreases ds.len(),
{
    if ds.len() > 0 {
        let pre = ds.subrange(0, ds.len() - 1);
        assert(d.subrange(pos, pos + pre.len()) =~= pre);
        lemma_digits_val_embed(d, pos, pre);
        assert(d[pos + ds.len() - 1] == ds[ds.len() - 1]);
        assert(digits_val(pre, 0, pre.len() as int) == digits_val(ds, 0, ds.len() - 1)) by {
            lemma_digits_val_prefix(ds, ds.len() - 1);
        }
    }
}

/// The value of a strict prefix of a digit string equals the value of the
/// same digits read in place.
pub proof fn lemma_digits_val_prefix(ds: Seq<u8>, k: int)
    requires
        0 <= k <= ds.len(),
    ensures
        digits_val(ds.subrange(0, k), 0, k) == digits_val(ds, 0, k),
    decreases k,
{
    if k > 0 {
        lemma_digits_val_prefix(ds, k - 1);
        let pre = ds.subrange(0, k);
        assert(pre[k - 1] == ds[k - 1]);
        assert(digits_val(pre.subrange(0, k - 1), 0, k - 1) == digits_val(pre, 0, k - 1)) by {
            lemma_digits_val_prefix(pre, k - 1);
        }
        assert(pre.subrange(0, k - 1) =~= ds.subrange(0, k - 1));
    }
}

/// The decimal rendering of `n` reads back as `n`.
pub proof fn lemma_dec_u32_val(n: int)
    requires
        n >= 0,
    ensures
        digits_val(dec_u32(n), 0, dec_u32(n).len() as int) == n,
    decreases n,
{
    let ds = dec_u32(n);
    if n < 10 {
        assert(digits_val(ds, 0, 0) == 0);
        assert(digits_val(ds, 0, 1) == ds[0] - 48);
    } else {
        lemma_dec_u32_val(n / 10);
        let pre = dec_u32(n / 10);
        assert(ds.subrange(0, pre.len() as int) =~= pre);
        assert(digits_val(ds, 0, ds.len() - 1) == digits_val(pre, 0, pre.len() as int)) by {
            lemma_digits_val_prefix(ds, ds.len() - 1);
            assert(ds.subrange(0, ds.len() - 1) =~= pre);
        }
        assert(ds[ds.len() - 1] == 48 + n % 10);
        assert(n / 10 * 10 + n % 10 == n) by {
            vstd::arithmetic::div_mod::lemma_fundamental_div_mod(n, 10);
        }
    }
}

/// A decimal rendering embedded at `pos` and bounded by a non-digit
/// parses back to its value.
pub proof fn lemma_parse_u32_at(d: Seq<u8>, pos: int, n: int)
    requires
        0 <= n <= u32::MAX,
        0 <= pos,
        pos + dec_u32(n).len() <= d.len(),
        d.subrange(pos, pos + dec_u32(n).len()) == dec_u32(n),
        pos + dec_u32(n).len() == d.len() || !is_digit(d[pos + dec_u32(n).len()]),
    ensures
        parse_u32_spec(d, pos) == Some((n as u32, pos + dec_u32(n).len())),
{
    let ds = dec_u32(n);
    lemma_dec_u32_digits(n);
    assert forall|i: int| pos <= i < pos + ds.len() implies is_digit(#[trigger] d[i]) by {
        assert(d[i] == ds[i - pos]);
    }
    lemma_digits_end_run(d, pos, pos + ds.len());
    lemma_digits_val_embed(d, pos, ds);
    lemma_dec_u32_val(n);
}

/// Skipping whitespace over exactly one whitespace byte.
pub proof fn lemma_skip_one(d: Seq<u8>, pos: int)
    requires
        0 <= pos,
        pos + 1 < d.len(),
        is_pnm_ws(d[pos]),
        !is_pnm_ws(d[pos + 1]),
        d[pos + 1] != 35,
    ensures
        skip_ws_spec(d, pos) == Some(pos + 1),
{
    assert(skip_ws_spec(d, pos + 1) == Some(pos + 1));
}

/// A P5/P6 container built by the encoder parses back to its header.
#[verifier::rlimit(100)]
pub proof fn lemma_p5p6_header_roundtrip(payload: Seq<u8>, w: u32, h: u32, six: bool)
    requires
        w >= 1,
        h >= 1,
    ensures
        ({
            let d = p5p6_header_bytes(six, w, h) + payload;
            let f = if six {
                PnmFormat::Ppm
            } else {
                PnmFormat::Pgm
            };
            header_spec(d) == Ok::<PnmHeader, ErrKind>(
                p5p6_header(f, w, h, 255, p5p6_header_bytes(six, w, h).len() as usize),
            )
        }),
{
    let hdr = p5p6_header_bytes(six, w, h);
    let d = hdr + payload;
    let dw = dec_u32(w as int);
    let dh = dec_u32(h as int);
    lemma_dec_u32_digits(w as int);
    lemma_dec_u32_digits(h as int);
    lemma_dec_u32_len(w as int);
    lemma_dec_u32_len(h as int);
    let a2 = 3 + dw.len() as int;
    let a3 = a2 + 1;
    let a4 = a3 + dh.len() as int;
    assert(hdr.len() == a4 + 5);
    assert(d.len() >= 3);
    assert(d[0] == 80);
    assert(d[1] == (if six {
        54u8
    } else {
        53u8
    }));
    assert(d[2] == 10);
    assert(d.subrange(3, a2) =~= dw);
    assert(d[a2] == 32);
    assert(d.subrange(a3, a4) =~= dh);
    assert(d[a4] == 10);
    assert(d[a4 + 1] == 50);
    assert(d[a4 + 2] == 53);
    assert(d[a4 + 3] == 53);
    assert(d[a4 + 4] == 10);
    // magic, then the width digits
    assert(is_digit(dw[0]));
    assert(d[3] == dw[0]);
    lemma_skip_one(d, 2);
    lemma_parse_u32_at(d, 3, w as int);
    // the single space, then the height digits
    assert(is_digit(dh[0]));
    assert(d[a3] == dh[0]);
    lemma_skip_one(d, a2);
    lemma_parse_u32_at(d, a3, h as int);
    // the newline, then the maxval digits
    assert(dec_u32(255) =~= seq![50u8, 53u8, 53u8]) by {
        assert(dec_u32(2) =~= seq![50u8]);
        assert(dec_u32(25) =~= dec_u32(2) + seq![53u8]);
        assert(dec_u32(255) =~= dec_u32(25) + seq![53u8]);
    }
    assert(d.subrange(a4 + 1, a4 + 4) =~= dec_u32(255));
    lemma_skip_one(d, a4);
    lemma_parse_u32_at(d, a4 + 1, 255);
    assert(parse_u32_spec(d, a4 + 1) == Some((255u32, a4 + 4)));
    assert(a4 + 4 < d.len());
}

/// Round trip of PPM over `Rgb8`: encoding then decoding returns the
/// identical pixel bytes, zero-copy, with the dimensions and layout
/// preserved.
#[verifier::rlimit(100)]
pub proof fn lemma_ppm_roundtrip(p: Seq<u8>, w: u32, h: u32)
    requires
        w >= 1,
        h >= 1,
        p.len() == w as int * h as int * 3,
        w as int * h as int * 3 <= usize::MAX,
    ensures
        ({
            let enc = encode_spec(p, w, h, PixelLayout::Rgb8, PnmFormat::Ppm, false);
            &&& enc is Ok
            &&& ({
                let o = decode_spec(enc->Ok_0, None, false);
                &&& o is Ok
                &&& o->Ok_0.bytes == p
                &&& o->Ok_0.width == w
                &&& o->Ok_0.height == h
                &&& o->Ok_0.layout == PixelLayout::Rgb8
                &&& o->Ok_0.format == BitmapFormat::Ppm
                &&& o->Ok_0.borrowed
            })
        }),
{
    let enc = encode_spec(p, w, h, PixelLayout::Rgb8, PnmFormat::Ppm, false);
    let hdr = p5p6_header_bytes(true, w, h);
    lemma_dec_u32_len(w as int);
    lemma_dec_u32_len(h as int);
    assert(p.subrange(0, 3 * (w as int * h as int)) =~= p);
    let d = hdr + p;
    assert(enc is Ok);
    assert(enc->Ok_0 =~= d);
    lemma_p5p6_header_roundtrip(p, w, h, true);
    let hd = header_spec(d)->Ok_0;
    assert(hd.maxval == 255 && hd.depth == 3 && hd.layout is Rgb8);
    assert(hd.data_offset == hdr.len());
    let pix = d.subrange(hd.data_offset as int, d.len() as int);
    assert(pix =~= p);
    assert(pix.subrange(0, w as int * h as int * 3 * 1) =~= p);
    let o = decode_spec(d, None, false);
    assert(o is Ok);
    assert(o->Ok_0.bytes =~= p);
}

/// Round trip of PGM over `Gray8`.
#[verifier::rlimit(100)]
pub proof fn lemma_pgm_roundtrip(p: Seq<u8>, w: u32, h: u32)
    requires
        w >= 1,
        h >= 1,
        p.len() == w as int * h as int,
        w as int * h as int <= usize::MAX,
    ensures
        ({
            let enc = encode_spec(p, w, h, PixelLayout::Gray8, PnmFormat::Pgm, false);
            &&& enc is Ok
            &&& ({
                let o = decode_spec(enc->Ok_0, None, false);
                &&& o is Ok
                &&& o->Ok_0.bytes == p
                &&& o->Ok_0.width == w
                &&& o->Ok_0.height == h
                &&& o->Ok_0.layout == PixelLayout::Gray8
                &&& o->Ok_0.format == BitmapFormat::Pgm
                &&& o->Ok_0.borrowed
            })
        }),
{
    let enc = encode_spec(p, w, h, PixelLayout::Gray8, PnmFormat::Pgm, false);
    let hdr = p5p6_header_bytes(false, w, h);
    lemma_dec_u32_len(w as int);
    lemma_dec_u32_len(h as int);
    assert(p.subrange(0, w as int * h as int) =~= p);
    let d = hdr + p;
    assert(enc is Ok);
    assert(enc->Ok_0 =~= d);
    lemma_p5p6_header_roundtrip(p, w, h, false);
    let hd = header_spec(d)->Ok_0;
    assert(hd.maxval == 255 && hd.depth == 1 && hd.layout is Gray8);
    let pix = d.subrange(hd.data_offset as int, d.len() as int);
    assert(pix =~= p);
    assert(pix.subrange(0, w as int * h as int * 1 * 1) =~= p);
    let o = decode_spec(d, None, false);
    assert(o is Ok);
    assert(o->Ok_0.bytes =~= p);
}

/// Zero-copy policy of the PNM decoder: the output aliases the input
/// exactly when the stored samples are 8-bit at maxval 255, the one case
/// where the stored bytes equal the canonical representation.
pub proof fn lemma_zero_copy_iff(d: Seq<u8>, limits: Option<Limits>)
    ensures
        decode_spec(d, limits, false) is Ok ==> {
            let h = header_spec(d)->Ok_0;
            decode_spec(d, limits, false)->Ok_0.borrowed <==> (!(h.format is Pfm) && h.maxval
                == 255)
        },
{
}

/// BMP decoding never aliases the input.
pub proof fn lemma_bmp_never_zero_copy(d: Seq<u8>, limits: Option<Limits>, stopped: bool)
    ensures
        crate::bmp::bmp_decode_spec(d, limits, stopped) is Ok ==> !crate::bmp::bmp_decode_spec(
            d,
            limits,
            stopped,
        )->Ok_0.borrowed,
{
}

/// Format-mismatch detection: a buffer produced by the BMP encoder is
/// rejected by the auto-detecting PNM decoder, and by the PNM header
/// probe, as an unrecognized format.
pub proof fn lemma_bmp_not_pnm(
    p: Seq<u8>,
    w: u32,
    h: u32,
    layout: PixelLayout,
    alpha: bool,
    limits: Option<Limits>,
    stopped: bool,
)
    ensures
        ({
            let enc = crate::bmp::bmp_encode_spec(p, w, h, layout, alpha, false);
            enc is Ok ==> {
                &&& header_spec(enc->Ok_0) == Err::<PnmHeader, ErrKind>(
                    ErrKind::UnrecognizedFormat,
                )
                &&& decode_spec(enc->Ok_0, limits, stopped) == Err::<OutSpec, ErrKind>(
                    ErrKind::UnrecognizedFormat,
                )
            }
        }),
{
    let enc = crate::bmp::bmp_encode_spec(p, w, h, layout, alpha, false);
    if enc is Ok {
        let d = enc->Ok_0;
        assert(d[0] == 66);
        assert(d[1] == 77);
        assert(d.len() >= 3);
    }
}


/// The first line feed at or after `pos` is at the known position `q`.
pub proof fn lemma_find_nl_at(d: Seq<u8>, pos: int, q: int)
    requires
        0 <= pos <= q < d.len(),
        d[q] == 10,
        forall|i: int| pos <= i < q ==> #[trigger] d[i] != 10,
    ensures
        find_nl(d, pos) == q,
    decreases q - pos,
{
    if pos < q {
        lemma_find_nl_at(d, pos + 1, q);
    }
}

/// A range with non-whitespace bytes at both ends trims to itself.
pub proof fn lemma_trim_exact(d: Seq<u8>, a: int, b: int)
    requires
        0 <= a < b <= d.len(),
        !is_ascii_ws(d[a]),
        !is_ascii_ws(d[b - 1]),
    ensures
        trim_range(d, a, b) == (a, b),
{
}

/// A PAM value that is exactly a decimal rendering reads back.
pub proof fn lemma_kv_digits(d: Seq<u8>, vs: int, b: int, n: int)
    requires
        0 <= n <= u32::MAX,
        0 <= vs < b <= d.len(),
        b - vs == dec_u32(n).len(),
        d.subrange(vs, b) == dec_u32(n),
    ensures
        kv_u32(d, vs, b) == Some(n as u32),
{
    let ds = dec_u32(n);
    lemma_dec_u32_digits(n);
    assert forall|i: int| vs <= i < b implies is_digit(#[trigger] d[i]) by {
        assert(d[i] == ds[i - vs]);
    }
    lemma_trim_exact(d, vs, b);
    lemma_digits_end_to_run(d, vs, b, b);
    lemma_digits_val_embed(d, vs, ds);
    lemma_dec_u32_val(n);
}

/// The bytes of the four numeric PAM keywords, the tuple-type keyword and
/// `ENDHDR` are printable and are not line feeds.
pub proof fn lemma_kw_bytes()
    ensures
        forall|i: int| 0 <= i < 6 ==> #[trigger] crate::pnm::parse::kw_width()[i] != 10,
        forall|i: int| 0 <= i < 7 ==> #[trigger] crate::pnm::parse::kw_height()[i] != 10,
        forall|i: int| 0 <= i < 6 ==> #[trigger] crate::pnm::parse::kw_depth()[i] != 10,
        forall|i: int| 0 <= i < 7 ==> #[trigger] crate::pnm::parse::kw_maxval()[i] != 10,
        forall|i: int| 0 <= i < 6 ==> #[trigger] crate::pnm::parse::kw_endhdr()[i] != 10,
{
}

/// One numeric PAM header line advances the loop, recording its value.
/// `which` selects the keyword: width, height, depth or maxval.
#[verifier::rlimit(100)]
pub proof fn lemma_p7_step_numeric(d: Seq<u8>, pos: int, which: int, n: int, acc: P7Raw)
    requires
        0 <= which <= 3,
        0 <= n <= u32::MAX,
        0 <= pos,
        ({
            let kw = p7_kw(which);
            let klen = kw.len() as int;
            let dlen = dec_u32(n).len() as int;
            &&& pos + klen + dlen + 1 < d.len()
            &&& d.subrange(pos, pos + klen) == kw
            &&& d.subrange(pos + klen, pos + klen + dlen) == dec_u32(n)
            &&& d[pos + klen + dlen] == 10
        }),
    ensures
        ({
            let kw = p7_kw(which);
            let end = pos + kw.len() + dec_u32(n).len();
            p7_loop(d, pos, acc) == p7_loop(d, end + 1, p7_set(acc, which, n as u32))
        }),
{
    let kw = p7_kw(which);
    let klen = kw.len() as int;
    let ds = dec_u32(n);
    let dlen = ds.len() as int;
    let end = pos + klen + dlen;
    lemma_dec_u32_digits(n);
    lemma_kw_bytes();
    assert forall|i: int| pos <= i < end implies #[trigger] d[i] != 10 by {
        if i < pos + klen {
            assert(d[i] == kw[i - pos]);
        } else {
            assert(d[i] == ds[i - pos - klen]);
            assert(is_digit(d[i]));
        }
    }
    lemma_find_nl_at(d, pos, end);
    assert(d[pos] == kw[0]);
    assert(d[end - 1] == ds[dlen - 1]);
    assert(is_digit(d[end - 1]));
    lemma_trim_exact(d, pos, end);
    // not the ENDHDR line: it is longer than six bytes
    assert(end - pos >= 7);
    assert(!crate::pnm::parse::range_is(d, pos, end, crate::pnm::parse::kw_endhdr()));
    // keyword dispatch: the first byte distinguishes the four keys
    assert(d[pos + 0] == kw[0]);
    if which == 0 {
        assert(crate::pnm::parse::has_prefix(d, pos, end, crate::pnm::parse::kw_width())) by {
            assert forall|i: int| 0 <= i < 6 implies #[trigger] d[pos + i]
                == crate::pnm::parse::kw_width()[i] by {
                assert(d[pos + i] == kw[i]);
            }
        }
    } else {
        assert(!crate::pnm::parse::has_prefix(d, pos, end, crate::pnm::parse::kw_width())) by {
            if crate::pnm::parse::has_prefix(d, pos, end, crate::pnm::parse::kw_width()) {
                assert(d[pos + 0] == crate::pnm::parse::kw_width()[0]);
            }
        }
        if which == 1 {
            assert(crate::pnm::parse::has_prefix(d, pos, end, crate::pnm::parse::kw_height()))
                by {
                assert forall|i: int| 0 <= i < 7 implies #[trigger] d[pos + i]
                    == crate::pnm::parse::kw_height()[i] by {
                    assert(d[pos + i] == kw[i]);
                }
            }
        } else {
            assert(!crate::pnm::parse::has_prefix(d, pos, end, crate::pnm::parse::kw_height()))
                by {
                if crate::pnm::parse::has_prefix(d, pos, end, crate::pnm::parse::kw_height()) {
                    assert(d[pos + 0] == crate::pnm::parse::kw_height()[0]);
                }
            }
            if which == 2 {
                assert(crate::pnm::parse::has_prefix(d, pos, end, crate::pnm::parse::kw_depth()))
                    by {
                    assert forall|i: int| 0 <= i < 6 implies #[trigger] d[pos + i]
                        == crate::pnm::parse::kw_depth()[i] by {
                        assert(d[pos + i] == kw[i]);
                    }
                }
            } else {
                assert(!crate::pnm::parse::has_prefix(
                    d,
                    pos,
                    end,
                    crate::pnm::parse::kw_depth(),
                )) by {
                    if crate::pnm::parse::has_prefix(d, pos, end, crate::pnm::parse::kw_depth()) {
                        assert(d[pos + 0] == crate::pnm::parse::kw_depth()[0]);
                    }
                }
                assert(crate::pnm::parse::has_prefix(d, pos, end, crate::pnm::parse::kw_maxval()))
                    by {
                    assert forall|i: int| 0 <= i < 7 implies #[trigger] d[pos + i]
                        == crate::pnm::parse::kw_maxval()[i] by {
                        assert(d[pos + i] == kw[i]);
                    }
                }
            }
        }
    }
    assert(d.subrange(pos + klen, end) == dec_u32(n));
    lemma_kv_digits(d, pos + klen, end, n);
    assert(p7_line(d, pos, end, acc) == Ok::<P7Raw, ErrKind>(p7_set(acc, which, n as u32)));
}

/// The keyword a `which` index selects.
pub open spec fn p7_kw(which: int) -> Seq<u8> {
    if which == 0 {
        crate::pnm::parse::kw_width()
    } else if which == 1 {
        crate::pnm::parse::kw_height()
    } else if which == 2 {
        crate::pnm::parse::kw_depth()
    } else {
        crate::pnm::parse::kw_maxval()
    }
}

/// The accumulator with the `which` field set.
pub open spec fn p7_set(acc: P7Raw, which: int, v: u32) -> P7Raw {
    if which == 0 {
        P7Raw { w: Some(v), ..acc }
    } else if which == 1 {
        P7Raw { h: Some(v), ..acc }
    } else if which == 2 {
        P7Raw { dep: Some(v), ..acc }
    } else {
        P7Raw { m: Some(v), ..acc }
    }
}

/// The tuple-type line is ignored: no numeric keyword matches it.
#[verifier::rlimit(100)]
pub proof fn lemma_p7_step_tupl(d: Seq<u8>, pos: int, end: int, acc: P7Raw)
    requires
        0 <= pos < end,
        end + 1 < d.len(),
        d[pos] == 84,
        end - pos != 6,
        !is_ascii_ws(d[end - 1]),
        d[end] == 10,
        forall|i: int| pos <= i < end ==> #[trigger] d[i] != 10,
    ensures
        p7_loop(d, pos, acc) == p7_loop(d, end + 1, acc),
{
    lemma_find_nl_at(d, pos, end);
    lemma_trim_exact(d, pos, end);
    assert(!crate::pnm::parse::range_is(d, pos, end, crate::pnm::parse::kw_endhdr()));
    assert(!crate::pnm::parse::has_prefix(d, pos, end, crate::pnm::parse::kw_width())) by {
        if crate::pnm::parse::has_prefix(d, pos, end, crate::pnm::parse::kw_width()) {
            assert(d[pos + 0] == crate::pnm::parse::kw_width()[0]);
        }
    }
    assert(!crate::pnm::parse::has_prefix(d, pos, end, crate::pnm::parse::kw_height())) by {
        if crate::pnm::parse::has_prefix(d, pos, end, crate::pnm::parse::kw_height()) {
            assert(d[pos + 0] == crate::pnm::parse::kw_height()[0]);
        }
    }
    assert(!crate::pnm::parse::has_prefix(d, pos, end, crate::pnm::parse::kw_depth())) by {
        if crate::pnm::parse::has_prefix(d, pos, end, crate::pnm::parse::kw_depth()) {
            assert(d[pos + 0] == crate::pnm::parse::kw_depth()[0]);
        }
    }
    assert(!crate::pnm::parse::has_prefix(d, pos, end, crate::pnm::parse::kw_maxval())) by {
        if crate::pnm::parse::has_prefix(d, pos, end, crate::pnm::parse::kw_maxval()) {
            assert(d[pos + 0] == crate::pnm::parse::kw_maxval()[0]);
        }
    }
    assert(p7_line(d, pos, end, acc) == Ok::<P7Raw, ErrKind>(acc));
}

/// The `ENDHDR` line finishes the loop, reporting the offset after its
/// line feed.
pub proof fn lemma_p7_step_end(d: Seq<u8>, pos: int, acc: P7Raw)
    requires
        0 <= pos,
        pos + 6 < d.len(),
        d.subrange(pos, pos + 6) == crate::pnm::parse::kw_endhdr(),
        d[pos + 6] == 10,
    ensures
        p7_loop(d, pos, acc) == Ok::<P7Raw, ErrKind>(P7Raw { off: pos + 7, ..acc }),
{
    lemma_kw_bytes();
    assert forall|i: int| pos <= i < pos + 6 implies #[trigger] d[i] != 10 by {
        assert(d[i] == crate::pnm::parse::kw_endhdr()[i - pos]);
    }
    lemma_find_nl_at(d, pos, pos + 6);
    assert(d[pos] == crate::pnm::parse::kw_endhdr()[0]);
    assert(d[pos + 5] == crate::pnm::parse::kw_endhdr()[5]);
    lemma_trim_exact(d, pos, pos + 6);
    assert(crate::pnm::parse::range_is(d, pos, pos + 6, crate::pnm::parse::kw_endhdr())) by {
        assert forall|i: int| 0 <= i < 6 implies #[trigger] d[pos + i]
            == crate::pnm::parse::kw_endhdr()[i] by {
            assert(d[pos + i] == d.subrange(pos, pos + 6)[i]);
        }
    }
}


/// A PAM container built by the encoder parses back to its header.
#[verifier::rlimit(100)]
#[verifier::spinoff_prover]
pub proof fn lemma_pam_header_parse(payload: Seq<u8>, w: u32, h: u32, layout: PixelLayout)
    requires
        w >= 1,
        h >= 1,
        crate::pnm::encode::pam_supports(layout),
    ensures
        pam_header_bytes(w, h, layout).len() <= 200,
        ({
            let d = pam_header_bytes(w, h, layout) + payload;
            let meta = pam_meta(layout);
            header_spec(d) == Ok::<PnmHeader, ErrKind>(
                PnmHeader {
                    format: PnmFormat::Pam,
                    width: w,
                    height: h,
                    maxval: meta.1 as u32,
                    depth: meta.0 as u32,
                    layout,
                    little_endian: false,
                    data_offset: pam_header_bytes(w, h, layout).len() as usize,
                },
            )
        }),
{
    let hdr = pam_header_bytes(w, h, layout);
    let d = hdr + payload;
    let meta = pam_meta(layout);
    let dw = dec_u32(w as int);
    let dh = dec_u32(h as int);
    let dd = dec_u32(meta.0);
    let dm = dec_u32(meta.1);
    let tt = meta.2;
    lemma_dec_u32_len(w as int);
    lemma_dec_u32_len(h as int);
    assert(dd =~= seq![(48 + meta.0) as u8]);
    assert(dec_u32(2) =~= seq![50u8]);
    assert(dec_u32(25) =~= dec_u32(2) + seq![53u8]);
    assert(dec_u32(255) =~= dec_u32(25) + seq![53u8]);
    assert(dec_u32(6) =~= seq![54u8]);
    assert(dec_u32(65) =~= dec_u32(6) + seq![53u8]);
    assert(dec_u32(655) =~= dec_u32(65) + seq![53u8]);
    assert(dec_u32(6553) =~= dec_u32(655) + seq![51u8]);
    assert(dec_u32(65535) =~= dec_u32(6553) + seq![53u8]);
    let p1 = 3int;
    let e1 = p1 + 6 + dw.len() as int;
    let p2 = e1 + 1;
    let e2 = p2 + 7 + dh.len() as int;
    let p3 = e2 + 1;
    let e3 = p3 + 6 + dd.len() as int;
    let p4 = e3 + 1;
    let e4 = p4 + 7 + dm.len() as int;
    let p5 = e4 + 1;
    let e5 = p5 + 9 + tt.len() as int;
    let p6 = e5 + 1;
    assert(hdr.len() == p6 + 7);
    assert(d.len() >= 3);
    assert(d[0] == 80);
    assert(d[1] == 55);
    assert(d[2] == 10);
    assert(d.subrange(p1, p1 + 6) =~= crate::pnm::parse::kw_width());
    assert(d.subrange(p1 + 6, e1) =~= dw);
    assert(d[e1] == 10);
    assert(d.subrange(p2, p2 + 7) =~= crate::pnm::parse::kw_height());
    assert(d.subrange(p2 + 7, e2) =~= dh);
    assert(d[e2] == 10);
    assert(d.subrange(p3, p3 + 6) =~= crate::pnm::parse::kw_depth());
    assert(d.subrange(p3 + 6, e3) =~= dd);
    assert(d[e3] == 10);
    assert(d.subrange(p4, p4 + 7) =~= crate::pnm::parse::kw_maxval());
    assert(d.subrange(p4 + 7, e4) =~= dm);
    assert(d[e4] == 10);
    assert(d[p5] == 84);
    assert(forall|i: int| p5 <= i < e5 ==> #[trigger] d[i] != 10);
    assert(!is_ascii_ws(d[e5 - 1]));
    assert(d[e5] == 10);
    assert(d.subrange(p6, p6 + 6) =~= crate::pnm::parse::kw_endhdr());
    assert(d[p6 + 6] == 10);
    // the loop starts after the magic line
    assert(d[3] == 87);
    lemma_skip_one(d, 2);
    let acc0 = P7Raw { w: None, h: None, dep: None, m: None, off: 0 };
    lemma_p7_step_numeric(d, p1, 0, w as int, acc0);
    let acc1 = p7_set(acc0, 0, w);
    lemma_p7_step_numeric(d, p2, 1, h as int, acc1);
    let acc2 = p7_set(acc1, 1, h);
    lemma_p7_step_numeric(d, p3, 2, meta.0, acc2);
    let acc3 = p7_set(acc2, 2, meta.0 as u32);
    lemma_p7_step_numeric(d, p4, 3, meta.1, acc3);
    let acc4 = p7_set(acc3, 3, meta.1 as u32);
    lemma_p7_step_tupl(d, p5, e5, acc4);
    lemma_p7_step_end(d, p6, acc4);
    assert(p7_loop(d, p1, acc0) == Ok::<P7Raw, ErrKind>(P7Raw { off: p6 + 7, ..acc4 }));
}

/// Round trip of PAM over its four direct layouts: encoding then decoding
/// returns the identical pixel bytes with the dimensions and layout
/// preserved; the 8-bit layouts come back zero-copy, 16-bit grayscale is
/// copied.
#[verifier::rlimit(100)]
pub proof fn lemma_pam_roundtrip(p: Seq<u8>, w: u32, h: u32, layout: PixelLayout)
    requires
        w >= 1,
        h >= 1,
        crate::pnm::encode::pam_supports(layout),
        p.len() == w as int * h as int * bpp_spec(layout),
        w as int * h as int * bpp_spec(layout) <= usize::MAX,
    ensures
        ({
            let enc = encode_spec(p, w, h, layout, PnmFormat::Pam, false);
            &&& enc is Ok
            &&& ({
                let o = decode_spec(enc->Ok_0, None, false);
                &&& o is Ok
                &&& o->Ok_0.bytes == p
                &&& o->Ok_0.width == w
                &&& o->Ok_0.height == h
                &&& o->Ok_0.layout == layout
                &&& o->Ok_0.format == BitmapFormat::Pam
                &&& o->Ok_0.borrowed == !(layout is Gray16)
            })
        }),
{
    let enc = encode_spec(p, w, h, layout, PnmFormat::Pam, false);
    let hdr = pam_header_bytes(w, h, layout);
    let meta = pam_meta(layout);
    let bpp = bpp_spec(layout);
    let n = w as int * h as int;
    assert(p.subrange(0, w as int * h as int * bpp_spec(layout)) =~= p);
    let d = hdr + p;
    assert(enc is Ok);
    assert(enc->Ok_0 == d);
    lemma_pam_header_parse(p, w, h, layout);
    let hd = header_spec(d)->Ok_0;
    assert(hd.maxval == meta.1 && hd.depth == meta.0 && hd.layout == layout);
    assert(hd.data_offset == hdr.len());
    let pix = d.subrange(hd.data_offset as int, d.len() as int);
    assert(pix =~= p);
    let sb: int = if hd.maxval > 255 {
        2
    } else {
        1
    };
    let src_len = w as int * h as int * hd.depth * sb;
    assert(hd.depth * sb == bpp);
    assert(n * hd.depth * sb == n * bpp) by (nonlinear_arith)
        requires
            hd.depth * sb == bpp,
    ;
    assert(src_len == p.len());
    assert(pix.subrange(0, src_len) =~= p);
    let o = decode_spec(d, None, false);
    assert(o is Ok);
    assert(o->Ok_0.bytes =~= p);
}


/// Length of the flipped row concatenation.
pub proof fn lemma_enc_rows_len(p: Seq<u8>, row: int, h: int, r: int)
    requires
        0 <= r <= h,
        row >= 0,
        h * row <= p.len(),
    ensures
        pfm_enc_rows(p, row, h, r).len() == (h - r) * row,
    decreases h - r,
{
    if r < h {
        lemma_enc_rows_len(p, row, h, r + 1);
        assert((h - 1 - r) * row >= 0 && (h - 1 - r) * row + row <= h * row && (h - r) * row == (
        h - r - 1) * row + row) by (nonlinear_arith)
            requires
                0 <= r < h,
                row >= 0,
        ;
        let base = (h - 1 - r) * row;
        assert(pfm_enc_rows(p, row, h, r) == p.subrange(base, base + row) + pfm_enc_rows(
            p,
            row,
            h,
            r + 1,
        ));
        assert(p.subrange(base, base + row).len() == row);
    } else {
        assert(pfm_enc_rows(p, row, h, r) == Seq::<u8>::empty());
        assert((h - r) * row == 0) by (nonlinear_arith)
            requires
                r == h,
        ;
    }
}

/// Quotient and remainder of `a * row + t`.
pub proof fn lemma_div_mod_decompose(a: int, t: int, row: int)
    requires
        a >= 0,
        0 <= t < row,
    ensures
        (a * row + t) / row == a,
        (a * row + t) % row == t,
{
    assert((a * row + t) / row == a && (a * row + t) % row == t) by (nonlinear_arith)
        requires
            a >= 0,
            0 <= t < row,
    ;
}

/// Index formula for the flipped row concatenation.
pub proof fn lemma_enc_rows_index(p: Seq<u8>, row: int, h: int, r: int, i: int)
    requires
        0 <= r <= h,
        row > 0,
        h * row <= p.len(),
        0 <= i < (h - r) * row,
    ensures
        pfm_enc_rows(p, row, h, r)[i] == p[(h - 1 - r - (i / row)) * row + (i % row)],
    decreases h - r,
{
    lemma_enc_rows_len(p, row, h, r);
    assert(r < h) by (nonlinear_arith)
        requires
            0 <= i < (h - r) * row,
            row > 0,
            r <= h,
    ;
    lemma_enc_rows_len(p, row, h, r + 1);
    assert((h - 1 - r) * row >= 0 && (h - 1 - r) * row + row <= h * row) by (nonlinear_arith)
        requires
            0 <= r < h,
            row >= 0,
    ;
    let chunk = p.subrange((h - 1 - r) * row, (h - 1 - r) * row + row);
    if i < row {
        lemma_div_mod_decompose(0, i, row);
        assert(pfm_enc_rows(p, row, h, r)[i] == chunk[i]);
    } else {
        lemma_enc_rows_index(p, row, h, r + 1, i - row);
        assert(pfm_enc_rows(p, row, h, r)[i] == pfm_enc_rows(p, row, h, r + 1)[i - row]);
        let k = i / row;
        let t = i % row;
        vstd::arithmetic::div_mod::lemma_fundamental_div_mod(i, row);
        assert(k >= 1) by (nonlinear_arith)
            requires
                i >= row,
                row > 0,
                i == row * k + t,
                0 <= t < row,
        ;
        lemma_div_mod_decompose(k - 1, t, row);
        assert(i - row == (k - 1) * row + t) by (nonlinear_arith)
            requires
                i == row * k + t,
        ;
    }
}

/// Decoding little-endian PFM rows is the same bottom-up flip the encoder
/// performs.
pub proof fn lemma_pfm_rows_eq_enc(src: Seq<u8>, row: int, h: int, r: int)
    requires
        0 <= r <= h,
        row > 0,
        h * row <= src.len(),
    ensures
        crate::pnm::decode::pfm_rows(src, row, h, r, true) == pfm_enc_rows(src, row, h, r),
    decreases h - r,
{
    if r < h {
        lemma_pfm_rows_eq_enc(src, row, h, r + 1);
        let base = (h - 1 - r) * row;
        assert(base >= 0 && base + row <= h * row) by (nonlinear_arith)
            requires
                0 <= r < h,
                row > 0,
                base == (h - 1 - r) * row,
        ;
        let pr = crate::pnm::decode::pfm_row(src, base, row, true);
        let sr = src.subrange(base, base + row);
        assert(pr.len() == row);
        assert(sr.len() == row);
        assert forall|k: int| 0 <= k < row implies pr[k] == sr[k] by {
            assert(pr[k] == src[base + k]);
            assert(sr[k] == src[base + k]);
        }
        assert(pr =~= sr);
    }
}

/// Flipping the rows twice returns the original bytes.
pub proof fn lemma_pfm_flip_involution(p: Seq<u8>, row: int, h: int)
    requires
        row > 0,
        h >= 0,
        p.len() == h * row,
    ensures
        pfm_enc_rows(pfm_enc_rows(p, row, h, 0), row, h, 0) == p,
{
    let f1 = pfm_enc_rows(p, row, h, 0);
    let f2 = pfm_enc_rows(f1, row, h, 0);
    lemma_enc_rows_len(p, row, h, 0);
    lemma_enc_rows_len(f1, row, h, 0);
    assert forall|i: int| 0 <= i < h * row implies f2[i] == p[i] by {
        let k = i / row;
        let t = i % row;
        vstd::arithmetic::div_mod::lemma_fundamental_div_mod(i, row);
        assert(0 <= t < row) by {
            vstd::arithmetic::div_mod::lemma_mod_bound(i, row);
        }
        assert(0 <= k < h) by (nonlinear_arith)
            requires
                i == row * k + t,
                0 <= t < row,
                0 <= i < h * row,
                row > 0,
        ;
        lemma_enc_rows_index(f1, row, h, 0, i);
        let u = (h - 1 - k) * row + t;
        assert(i / row == k && i % row == t);
        assert(0 <= u < h * row) by (nonlinear_arith)
            requires
                0 <= k < h,
                0 <= t < row,
                u == (h - 1 - k) * row + t,
        ;
        lemma_div_mod_decompose(h - 1 - k, t, row);
        lemma_enc_rows_index(p, row, h, 0, u);
        assert(f2[i] == f1[u]);
        assert(f1[u] == p[(h - 1 - (h - 1 - k)) * row + t]);
        assert((h - 1 - (h - 1 - k)) * row + t == k * row + t);
        assert(k * row + t == i) by (nonlinear_arith)
            requires
                i == row * k + t,
        ;
    }
    assert(f2 =~= p);
}

/// A PFM container built by the encoder parses back to its header: the
/// written scale `-1.0` reads as a unit magnitude selecting little-endian
/// samples.
#[verifier::rlimit(100)]
pub proof fn lemma_pfm_header_parse(payload: Seq<u8>, w: u32, h: u32, color: bool)
    requires
        w >= 1,
        h >= 1,
    ensures
        pfm_header_bytes(color, w, h).len() <= 40,
        ({
            let d = pfm_header_bytes(color, w, h) + payload;
            header_spec(d) == Ok::<PnmHeader, ErrKind>(
                PnmHeader {
                    format: PnmFormat::Pfm,
                    width: w,
                    height: h,
                    maxval: 0,
                    depth: if color {
                        3
                    } else {
                        1
                    },
                    layout: if color {
                        PixelLayout::RgbF32
                    } else {
                        PixelLayout::GrayF32
                    },
                    little_endian: true,
                    data_offset: pfm_header_bytes(color, w, h).len() as usize,
                },
            )
        }),
{
    let hdr = pfm_header_bytes(color, w, h);
    let d = hdr + payload;
    let dw = dec_u32(w as int);
    let dh = dec_u32(h as int);
    lemma_dec_u32_digits(w as int);
    lemma_dec_u32_digits(h as int);
    lemma_dec_u32_len(w as int);
    lemma_dec_u32_len(h as int);
    let a2 = 3 + dw.len() as int;
    let a3 = a2 + 1;
    let a4 = a3 + dh.len() as int;
    assert(hdr.len() == a4 + 6);
    assert(d.len() >= 3);
    assert(d[0] == 80);
    assert(d[1] == (if color {
        70u8
    } else {
        102u8
    }));
    assert(d[2] == 10);
    assert(d.subrange(3, a2) =~= dw);
    assert(d[a2] == 32);
    assert(d.subrange(a3, a4) =~= dh);
    assert(d[a4] == 10);
    assert(d[a4 + 1] == 45);
    assert(d[a4 + 2] == 49);
    assert(d[a4 + 3] == 46);
    assert(d[a4 + 4] == 48);
    assert(d[a4 + 5] == 10);
    assert(is_digit(dw[0]));
    assert(d[3] == dw[0]);
    lemma_skip_one(d, 2);
    lemma_parse_u32_at(d, 3, w as int);
    assert(is_digit(dh[0]));
    assert(d[a3] == dh[0]);
    lemma_skip_one(d, a2);
    lemma_parse_u32_at(d, a3, h as int);
    lemma_skip_one(d, a4);
    // the scale line holds exactly `-1.0`
    let p5 = a4 + 1;
    let le = a4 + 5;
    lemma_find_nl_at(d, p5, le);
    lemma_trim_exact(d, p5, le);
    lemma_scale_minus_one(d, p5);
}

/// The four bytes `-1.0` classify as a negative unit scale.
pub proof fn lemma_scale_minus_one(d: Seq<u8>, a: int)
    requires
        0 <= a,
        a + 4 <= d.len(),
        d[a] == 45,
        d[a + 1] == 49,
        d[a + 2] == 46,
        d[a + 3] == 48,
    ensures
        crate::pnm::scale::scale_class(d, a, a + 4) == (crate::pnm::scale::ScaleClass::Unit {
            negative: true,
        }),
{
    let b = a + 4;
    let s = a + 1;
    assert(!crate::pnm::scale::ci_match(d, s, b, crate::pnm::scale::kw_inf())) by {
        if crate::pnm::scale::ci_match(d, s, b, crate::pnm::scale::kw_inf()) {
            assert(crate::pnm::scale::lower(d[s + 0]) == crate::pnm::scale::kw_inf()[0]);
        }
    }
    assert(!crate::pnm::scale::ci_match(d, s, b, crate::pnm::scale::kw_infinity()));
    assert(!crate::pnm::scale::ci_match(d, s, b, crate::pnm::scale::kw_nan())) by {
        if crate::pnm::scale::ci_match(d, s, b, crate::pnm::scale::kw_nan()) {
            assert(crate::pnm::scale::lower(d[s + 0]) == crate::pnm::scale::kw_nan()[0]);
        }
    }
    // mantissa: one integer digit, a dot, one zero fraction digit
    assert(crate::text::digits_end_to(d, s, b) == s + 1) by {
        lemma_digits_end_to_run(d, s, s + 1, b);
    }
    let ie = s + 1;
    let fs = s + 2;
    assert(crate::text::digits_end_to(d, fs, b) == b) by {
        lemma_digits_end_to_run(d, fs, b, b);
    }
    let ds = crate::pnm::scale::mantissa_digits(d, s, ie, fs, b);
    assert(ds =~= seq![49u8, 48u8]);
    assert(crate::pnm::scale::denotes_one(ds, 1, 0)) by {
        crate::pnm::scale::lemma_one_idx_unique(ds, 0);
    }
}

/// Round trip of PFM over its floating-point layouts: encoding then
/// decoding returns bit-identical sample bytes (the written scale is a
/// unit factor and the byte order is self-consistent), with the
/// dimensions and layout preserved; the output is always a fresh buffer.
#[verifier::rlimit(100)]
pub proof fn lemma_pfm_roundtrip(p: Seq<u8>, w: u32, h: u32, layout: PixelLayout)
    requires
        w >= 1,
        h >= 1,
        layout is GrayF32 || layout is RgbF32,
        p.len() == w as int * h as int * bpp_spec(layout),
        w as int * h as int * bpp_spec(layout) <= usize::MAX,
    ensures
        ({
            let enc = encode_spec(p, w, h, layout, PnmFormat::Pfm, false);
            &&& enc is Ok
            &&& ({
                let o = decode_spec(enc->Ok_0, None, false);
                &&& o is Ok
                &&& o->Ok_0.bytes == p
                &&& o->Ok_0.width == w
                &&& o->Ok_0.height == h
                &&& o->Ok_0.layout == layout
                &&& o->Ok_0.format == BitmapFormat::Pfm
                &&& !o->Ok_0.borrowed
            })
        }),
{
    let enc = encode_spec(p, w, h, layout, PnmFormat::Pfm, false);
    let color = layout is RgbF32;
    let hdr = pfm_header_bytes(color, w, h);
    let bpp = bpp_spec(layout);
    let row = w as int * bpp;
    let payload = pfm_enc_rows(p, row, h as int, 0);
    assert(enc is Ok);
    assert(enc->Ok_0 == hdr + payload);
    let d = hdr + payload;
    lemma_pfm_header_parse(payload, w, h, color);
    let hd = header_spec(d)->Ok_0;
    assert(hd.data_offset == hdr.len());
    assert(row > 0) by (nonlinear_arith)
        requires
            w >= 1,
            bpp >= 4,
            row == w as int * bpp,
    ;
    assert(w as int * h as int * bpp == h as int * row) by (nonlinear_arith)
        requires
            row == w as int * bpp,
    ;
    lemma_enc_rows_len(p, row, h as int, 0);
    let pix = d.subrange(hd.data_offset as int, d.len() as int);
    assert(pix =~= payload);
    // the decoder's source length is the payload length
    assert(hd.depth == (if color { 3int } else { 1int }));
    assert(w as int * h as int * hd.depth * 4 == h as int * row) by (nonlinear_arith)
        requires
            bpp == 4 * hd.depth,
            row == w as int * bpp,
    ;
    lemma_pfm_rows_eq_enc(payload, row, h as int, 0);
    lemma_pfm_flip_involution(p, row, h as int);
    let o = decode_spec(d, None, false);
    assert(o is Ok);
    assert(o->Ok_0.bytes == crate::pnm::decode::pfm_rows(
        pix,
        w as int * hd.depth * 4,
        h as int,
        0,
        true,
    ));
    assert(w as int * hd.depth * 4 == row) by (nonlinear_arith)
        requires
            bpp == 4 * hd.depth,
            row == w as int * bpp,
    ;
    assert(o->Ok_0.bytes == p);
}


/// Length of the decoded BMP row concatenation.
pub proof fn lemma_bmp_rows_len(
    src: Seq<u8>,
    w: int,
    h: int,
    stride: int,
    bpp: int,
    td: bool,
    r: int,
)
    requires
        0 <= r <= h,
        w >= 0,
        bpp >= 0,
    ensures
        crate::bmp::decode::bmp_rows(src, w, h, stride, bpp, td, r).len() == (h - r) * (w * bpp),
    decreases h - r,
{
    if r < h {
        lemma_bmp_rows_len(src, w, h, stride, bpp, td, r + 1);
        assert((h - r) * (w * bpp) == (h - r - 1) * (w * bpp) + (w * bpp)) by (nonlinear_arith);
        assert(w * bpp >= 0) by (nonlinear_arith)
            requires
                w >= 0,
                bpp >= 0,
        ;
    } else {
        assert((h - r) * (w * bpp) == 0) by (nonlinear_arith)
            requires
                r == h,
        ;
    }
}

/// Index formula for the decoded BMP rows (bottom-up storage).
pub proof fn lemma_bmp_rows_index(
    src: Seq<u8>,
    w: int,
    h: int,
    stride: int,
    bpp: int,
    r: int,
    i: int,
)
    requires
        0 <= r <= h,
        w >= 1,
        bpp == 3 || bpp == 4,
        0 <= i < (h - r) * (w * bpp),
    ensures
        crate::bmp::decode::bmp_rows(src, w, h, stride, bpp, false, r)[i] == src[(h - 1 - r - (i
            / (w * bpp))) * stride + ((i % (w * bpp)) / bpp) * bpp + (if (i % (w * bpp)) % bpp
            == 3 {
            3int
        } else {
            2 - (i % (w * bpp)) % bpp
        })],
    decreases h - r,
{
    let row = w * bpp;
    assert(row >= 3) by (nonlinear_arith)
        requires
            w >= 1,
            bpp >= 3,
            row == w * bpp,
    ;
    lemma_bmp_rows_len(src, w, h, stride, bpp, false, r);
    assert(r < h) by (nonlinear_arith)
        requires
            0 <= i < (h - r) * row,
            row > 0,
            r <= h,
    ;
    lemma_bmp_rows_len(src, w, h, stride, bpp, false, r + 1);
    let chunk = crate::bmp::decode::bmp_row(src, (h - 1 - r) * stride, w, bpp);
    assert(chunk.len() == row);
    if i < row {
        lemma_div_mod_decompose(0, i, row);
        assert(crate::bmp::decode::bmp_rows(src, w, h, stride, bpp, false, r)[i] == chunk[i]);
        assert(chunk[i] == src[(h - 1 - r) * stride + (i / bpp) * bpp + (if i % bpp == 3 {
            3int
        } else {
            2 - i % bpp
        })]);
    } else {
        lemma_bmp_rows_index(src, w, h, stride, bpp, r + 1, i - row);
        assert(crate::bmp::decode::bmp_rows(src, w, h, stride, bpp, false, r)[i]
            == crate::bmp::decode::bmp_rows(src, w, h, stride, bpp, false, r + 1)[i - row]);
        let k = i / row;
        let t = i % row;
        vstd::arithmetic::div_mod::lemma_fundamental_div_mod(i, row);
        assert(k >= 1) by (nonlinear_arith)
            requires
                i >= row,
                row > 0,
                i == row * k + t,
                0 <= t < row,
        ;
        lemma_div_mod_decompose(k - 1, t, row);
        assert(i - row == (k - 1) * row + t) by (nonlinear_arith)
            requires
                i == row * k + t,
        ;
    }
}

/// Length of the encoded BMP row concatenation.
pub proof fn lemma_bmp_enc_rows_len(
    p: Seq<u8>,
    w: int,
    h: int,
    layout: PixelLayout,
    alpha: bool,
    r: int,
)
    requires
        0 <= r <= h,
        w >= 0,
    ensures
        crate::bmp::encode::bmp_enc_rows(p, w, h, layout, alpha, r).len() == (h - r) * (if alpha {
            w * 4
        } else {
            crate::bmp::decode::stride24(w)
        }),
    decreases h - r,
{
    let stride = if alpha {
        w * 4
    } else {
        crate::bmp::decode::stride24(w)
    };
    crate::bmp::decode::lemma_stride24_bounds(w);
    if r < h {
        lemma_bmp_enc_rows_len(p, w, h, layout, alpha, r + 1);
        assert((h - r) * stride == (h - r - 1) * stride + stride) by (nonlinear_arith);
        assert(w * 4 >= 0) by (nonlinear_arith)
            requires
                w >= 0,
        ;
    } else {
        assert((h - r) * stride == 0) by (nonlinear_arith)
            requires
                r == h,
        ;
    }
}

/// Index formula for the encoded BMP rows (written bottom-up).
pub proof fn lemma_bmp_enc_rows_index(
    p: Seq<u8>,
    w: int,
    h: int,
    layout: PixelLayout,
    alpha: bool,
    r: int,
    u: int,
)
    requires
        0 <= r <= h,
        w >= 1,
        ({
            let stride = if alpha {
                w * 4
            } else {
                crate::bmp::decode::stride24(w)
            };
            0 <= u < (h - r) * stride
        }),
    ensures
        ({
            let stride = if alpha {
                w * 4
            } else {
                crate::bmp::decode::stride24(w)
            };
            let k = u / stride;
            let t = u % stride;
            crate::bmp::encode::bmp_enc_rows(p, w, h, layout, alpha, r)[u] == (if alpha {
                crate::bmp::encode::bmp_enc_row32(p, (h - 1 - r - k) * w, w, layout)[t]
            } else {
                crate::bmp::encode::bmp_enc_row24(p, (h - 1 - r - k) * w, w, layout)[t]
            })
        }),
    decreases h - r,
{
    let stride = if alpha {
        w * 4
    } else {
        crate::bmp::decode::stride24(w)
    };
    crate::bmp::decode::lemma_stride24_bounds(w);
    assert(stride >= 3) by (nonlinear_arith)
        requires
            w >= 1,
            stride == (if alpha {
                w * 4
            } else {
                crate::bmp::decode::stride24(w)
            }),
            crate::bmp::decode::stride24(w) >= w * 3,
    ;
    lemma_bmp_enc_rows_len(p, w, h, layout, alpha, r);
    assert(r < h) by (nonlinear_arith)
        requires
            0 <= u < (h - r) * stride,
            stride > 0,
            r <= h,
    ;
    lemma_bmp_enc_rows_len(p, w, h, layout, alpha, r + 1);
    let rowseq = if alpha {
        crate::bmp::encode::bmp_enc_row32(p, (h - 1 - r) * w, w, layout)
    } else {
        crate::bmp::encode::bmp_enc_row24(p, (h - 1 - r) * w, w, layout)
    };
    assert(rowseq.len() == stride);
    if u < stride {
        lemma_div_mod_decompose(0, u, stride);
        assert(crate::bmp::encode::bmp_enc_rows(p, w, h, layout, alpha, r)[u] == rowseq[u]);
    } else {
        lemma_bmp_enc_rows_index(p, w, h, layout, alpha, r + 1, u - stride);
        assert(crate::bmp::encode::bmp_enc_rows(p, w, h, layout, alpha, r)[u]
            == crate::bmp::encode::bmp_enc_rows(p, w, h, layout, alpha, r + 1)[u - stride]);
        let k = u / stride;
        let t = u % stride;
        vstd::arithmetic::div_mod::lemma_fundamental_div_mod(u, stride);
        assert(k >= 1) by (nonlinear_arith)
            requires
                u >= stride,
                stride > 0,
                u == stride * k + t,
                0 <= t < stride,
        ;
        lemma_div_mod_decompose(k - 1, t, stride);
        assert(u - stride == (k - 1) * stride + t) by (nonlinear_arith)
            requires
                u == stride * k + t,
        ;
    }
}


/// A BMP container built by the encoder parses back to its header.
#[verifier::rlimit(100)]
#[verifier::spinoff_prover]
pub proof fn lemma_bmp_header_parse(payload: Seq<u8>, w: u32, h: u32, alpha: bool, pds: u32)
    requires
        1 <= w < 0x8000_0000,
        1 <= h < 0x8000_0000,
    ensures
        ({
            let d = crate::bmp::encode::bmp_enc_header(alpha, w, h, pds) + payload;
            crate::bmp::bmp_header_spec(d) == Ok::<crate::bmp::decode::BmpHeader, ErrKind>(
                crate::bmp::decode::BmpHeader {
                    width: w,
                    height: h,
                    bits: if alpha {
                        32
                    } else {
                        24
                    },
                    top_down: false,
                    data_offset: 54,
                    layout: if alpha {
                        PixelLayout::Rgba8
                    } else {
                        PixelLayout::Rgb8
                    },
                },
            )
        }),
{
    let hdr = crate::bmp::encode::bmp_enc_header(alpha, w, h, pds);
    let d = hdr + payload;
    vstd::bytes::lemma_auto_spec_u32_to_from_le_bytes();
    vstd::bytes::lemma_auto_spec_u16_to_from_le_bytes();
    assert(hdr.len() == 54);
    assert(d.len() >= 54);
    assert(d[0] == 66);
    assert(d[1] == 77);
    assert(d.subrange(10, 14) =~= vstd::bytes::spec_u32_to_le_bytes(54u32));
    assert(d.subrange(18, 22) =~= vstd::bytes::spec_u32_to_le_bytes(w));
    assert(d.subrange(22, 26) =~= vstd::bytes::spec_u32_to_le_bytes(h));
    assert(d.subrange(28, 30) =~= vstd::bytes::spec_u16_to_le_bytes(
        if alpha {
            32u16
        } else {
            24u16
        },
    ));
    assert(d.subrange(30, 34) =~= vstd::bytes::spec_u32_to_le_bytes(0u32));
    assert(crate::bmp::decode::le32(d, 10) == 54);
    assert(crate::bmp::decode::le32(d, 18) == w);
    assert(crate::bmp::decode::le32(d, 22) == h);
    assert(crate::bmp::decode::le16(d, 28) == (if alpha {
        32u16
    } else {
        24u16
    }));
    assert(crate::bmp::decode::le32(d, 30) == 0);
    assert(crate::bmp::decode::as_i32(w) == w as int);
    assert(crate::bmp::decode::as_i32(h) == h as int);
}

/// Round trip of BMP over `Rgb8` (24-bit, no alpha) and `Rgba8` (32-bit
/// with alpha): encoding then decoding returns the identical pixel bytes
/// with the dimensions and layout preserved, in a fresh buffer.
#[verifier::rlimit(100)]
#[verifier::spinoff_prover]
pub proof fn lemma_bmp_roundtrip(p: Seq<u8>, w: u32, h: u32, layout: PixelLayout, alpha: bool)
    requires
        w >= 1,
        h >= 1,
        (layout is Rgb8 && !alpha) || (layout is Rgba8 && alpha),
        p.len() == w as int * h as int * bpp_spec(layout),
        w as int * h as int * bpp_spec(layout) <= usize::MAX,
    ensures
        ({
            let enc = crate::bmp::bmp_encode_spec(p, w, h, layout, alpha, false);
            enc is Ok ==> ({
                let o = crate::bmp::bmp_decode_spec(enc->Ok_0, None, false);
                &&& o is Ok
                &&& o->Ok_0.bytes == p
                &&& o->Ok_0.width == w
                &&& o->Ok_0.height == h
                &&& o->Ok_0.layout == layout
                &&& o->Ok_0.format == BitmapFormat::Bmp
                &&& !o->Ok_0.borrowed
            })
        }),
{
    let enc = crate::bmp::bmp_encode_spec(p, w, h, layout, alpha, false);
    if enc is Ok {
        let bpp = bpp_spec(layout);
        let stride = if alpha {
            w as int * 4
        } else {
            crate::bmp::decode::stride24(w as int)
        };
        let pds = stride * h as int;
        crate::bmp::decode::lemma_stride24_bounds(w as int);
        assert(54 + pds <= u32::MAX);
        // the encoder succeeded, so the dimensions fit the signed fields
        assert(stride >= w as int * 3 && stride >= 4) by (nonlinear_arith)
            requires
                w >= 1,
                stride == (if alpha {
                    w as int * 4
                } else {
                    crate::bmp::decode::stride24(w as int)
                }),
                crate::bmp::decode::stride24(w as int) >= w as int * 3,
        ;
        assert(w as int * 3 <= pds && 4 * h as int <= pds) by (nonlinear_arith)
            requires
                h >= 1,
                w >= 1,
                stride >= w as int * 3,
                stride >= 4,
                pds == stride * h as int,
        ;
        assert(w < 0x8000_0000);
        assert(h < 0x8000_0000);
        let hdr = crate::bmp::encode::bmp_enc_header(alpha, w, h, pds as u32);
        let payload = crate::bmp::encode::bmp_enc_rows(p, w as int, h as int, layout, alpha, 0);
        assert(enc->Ok_0 == hdr + payload);
        let d = hdr + payload;
        vstd::bytes::lemma_auto_spec_u32_to_from_le_bytes();
        vstd::bytes::lemma_auto_spec_u16_to_from_le_bytes();
        assert(hdr.len() == 54);
        lemma_bmp_header_parse(payload, w, h, alpha, pds as u32);
        let hd = crate::bmp::bmp_header_spec(d)->Ok_0;
        assert(hd.width == w && hd.height == h && !hd.top_down && hd.data_offset == 54);
        lemma_bmp_enc_rows_len(p, w as int, h as int, layout, alpha, 0);
        assert(payload.len() == h as int * stride);
        assert(h as int * stride == stride * h as int) by (nonlinear_arith);
        assert(payload.len() == pds);
        let bppx: int = if alpha {
            4
        } else {
            3
        };
        assert(bppx == bpp);
        let pix = d.subrange(54, d.len() as int);
        assert(pix =~= payload);
        let o = crate::bmp::bmp_decode_spec(d, None, false);
        assert(w as int * h as int * bppx <= usize::MAX);
        assert(pds <= usize::MAX);
        assert(o is Ok);
        let out = o->Ok_0.bytes;
        assert(out == crate::bmp::decode::bmp_rows(
            pix,
            w as int,
            h as int,
            stride,
            bppx,
            false,
            0,
        ));
        lemma_bmp_rows_len(pix, w as int, h as int, stride, bppx, false, 0);
        assert(out.len() == h as int * (w as int * bppx)) by (nonlinear_arith)
            requires
                out.len() == h as int * (w as int * bppx),
        ;
        assert(p.len() == h as int * (w as int * bppx)) by (nonlinear_arith)
            requires
                p.len() == w as int * h as int * bpp,
                bppx == bpp,
        ;
        assert forall|i: int| 0 <= i < p.len() implies out[i] == p[i] by {
            lemma_bmp_roundtrip_byte(p, w as int, h as int, layout, alpha, stride, pix, i);
        }
        assert(out =~= p);
    }
}

/// One byte of the decoded BMP output equals the corresponding source
/// pixel byte.
#[verifier::rlimit(100)]
#[verifier::spinoff_prover]
proof fn lemma_bmp_roundtrip_byte(
    p: Seq<u8>,
    w: int,
    h: int,
    layout: PixelLayout,
    alpha: bool,
    stride: int,
    pix: Seq<u8>,
    i: int,
)
    requires
        w >= 1,
        h >= 1,
        (layout is Rgb8 && !alpha) || (layout is Rgba8 && alpha),
        stride == (if alpha {
            w * 4
        } else {
            crate::bmp::decode::stride24(w)
        }),
        p.len() == w * h * bpp_spec(layout),
        pix == crate::bmp::encode::bmp_enc_rows(p, w, h, layout, alpha, 0),
        0 <= i < w * h * bpp_spec(layout),
    ensures
        crate::bmp::decode::bmp_rows(
            pix,
            w,
            h,
            stride,
            (if alpha {
                4int
            } else {
                3int
            }),
            false,
            0,
        )[i] == p[i],
{
    let bpp: int = if alpha {
        4
    } else {
        3
    };
    if alpha {
        assert(layout is Rgba8);
        assert(bpp_spec(layout) == 4);
    } else {
        assert(layout is Rgb8);
        assert(bpp_spec(layout) == 3);
    }
    assert(bpp == bpp_spec(layout));
    let row = w * bpp;
    crate::bmp::decode::lemma_stride24_bounds(w);
    if alpha {
        assert(row <= stride && row >= 3) by (nonlinear_arith)
            requires
                w >= 1,
                row == w * bpp,
                bpp == 4,
                stride == w * 4,
        ;
    } else {
        assert(row <= stride && row >= 3) by (nonlinear_arith)
            requires
                w >= 1,
                row == w * bpp,
                bpp == 3,
                stride >= w * 3,
        ;
    }
    assert(0 <= i < h * row) by (nonlinear_arith)
        requires
            0 <= i < w * h * bpp,
            row == w * bpp,
    ;
    lemma_bmp_rows_index(pix, w, h, stride, bpp, 0, i);
    let r = i / row;
    let j = i % row;
    vstd::arithmetic::div_mod::lemma_fundamental_div_mod(i, row);
    vstd::arithmetic::div_mod::lemma_mod_bound(i, row);
    assert(0 <= r < h) by (nonlinear_arith)
        requires
            i == row * r + j,
            0 <= j < row,
            0 <= i < h * row,
            row > 0,
    ;
    let c = j / bpp;
    let o = j % bpp;
    vstd::arithmetic::div_mod::lemma_fundamental_div_mod(j, bpp);
    vstd::arithmetic::div_mod::lemma_mod_bound(j, bpp);
    assert(0 <= c < w) by (nonlinear_arith)
        requires
            j == bpp * c + o,
            0 <= o < bpp,
            0 <= j < row,
            row == w * bpp,
            bpp > 0,
    ;
    let sw: int = if o == 3 {
        3
    } else {
        2 - o
    };
    let u = (h - 1 - r) * stride + c * bpp + sw;
    assert(crate::bmp::decode::bmp_rows(pix, w, h, stride, bpp, false, 0)[i] == pix[u]);
    // locate that byte inside the encoded rows
    assert(0 <= c * bpp + sw < row) by (nonlinear_arith)
        requires
            0 <= c < w,
            0 <= o < bpp,
            sw == (if o == 3 {
                3int
            } else {
                2 - o
            }),
            bpp == 3 || bpp == 4,
            row == w * bpp,
    ;
    assert(0 <= u < h * stride) by (nonlinear_arith)
        requires
            0 <= r < h,
            0 <= c * bpp + sw < row,
            row <= stride,
            u == (h - 1 - r) * stride + c * bpp + sw,
            stride > 0,
    ;
    assert(0 <= u < (h - 0) * stride);
    lemma_bmp_enc_rows_index(p, w, h, layout, alpha, 0, u);
    lemma_div_mod_decompose(h - 1 - r, c * bpp + sw, stride);
    let t = c * bpp + sw;
    // inside the row: the pixel index and the stored component
    lemma_div_mod_decompose(c, sw, bpp);
    assert(t / bpp == c && t % bpp == sw) by {
        assert(t == c * bpp + sw);
    }
    let pixbase = (h - 1 - (h - 1 - r)) * w;
    assert(pixbase == r * w);
    if alpha {
        let rowseq = crate::bmp::encode::bmp_enc_row32(p, r * w, w, layout);
        assert(pix[u] == rowseq[t]);
        assert(4 * (r * w + c) == r * (w * 4) + c * 4) by (nonlinear_arith);
        assert(pix[u] == p[4 * (r * w + c) + o]);
        assert(i == 4 * (r * w + c) + o) by (nonlinear_arith)
            requires
                i == row * r + j,
                j == bpp * c + o,
                row == w * bpp,
                bpp == 4,
        ;
    } else {
        let rowseq = crate::bmp::encode::bmp_enc_row24(p, r * w, w, layout);
        assert(pix[u] == rowseq[t]);
        assert(t < w * 3) by (nonlinear_arith)
            requires
                t == c * bpp + sw,
                0 <= c < w,
                0 <= sw <= 2,
                bpp == 3,
        ;
        assert(3 * (r * w + c) == r * (w * 3) + c * 3) by (nonlinear_arith);
        assert(pix[u] == p[3 * (r * w + c) + o]);
        assert(i == 3 * (r * w + c) + o) by (nonlinear_arith)
            requires
                i == row * r + j,
                j == bpp * c + o,
                row == w * bpp,
                bpp == 3,
        ;
    }
}


/// Resource ceilings come first: when the parsed dimensions violate the
/// caller's limits, decoding stops with `LimitExceeded` before any pixel
/// work, for the PNM family and for BMP alike.
pub proof fn lemma_limits_reject_first(d: Seq<u8>, limits: Limits, stopped: bool)
    ensures
        (header_spec(d) is Ok && !dims_within(
            limits,
            header_spec(d)->Ok_0.width,
            header_spec(d)->Ok_0.height,
        )) ==> decode_spec(d, Some(limits), stopped) == Err::<OutSpec, ErrKind>(
            ErrKind::LimitExceeded,
        ),
        (crate::bmp::bmp_header_spec(d) is Ok && !dims_within(
            limits,
            crate::bmp::bmp_header_spec(d)->Ok_0.width,
            crate::bmp::bmp_header_spec(d)->Ok_0.height,
        )) ==> crate::bmp::bmp_decode_spec(d, Some(limits), stopped) == Err::<OutSpec, ErrKind>(
            ErrKind::LimitExceeded,
        ),
{
}

} // verus!
