//! Classification of the PFM scale token.
//!
//! A PFM header carries a textual scale factor whose sign selects the sample
//! byte order and whose magnitude is a post-multiply factor. This crate
//! transcodes samples bit-exactly and therefore accepts exactly the scale
//! factors whose magnitude is one — for those the multiply is the identity.
//! The token is classified against the standard float-literal grammar
//! (optional sign, then `inf`, `infinity`, `nan`, or a decimal number with
//! an optional fraction and decimal exponent, keywords case-insensitive):
//! ill-formed tokens are invalid, well-formed tokens of any other magnitude
//! are recognized but unsupported.

use vstd::prelude::*;

use crate::text::{digits_end_to, digits_val, is_digit, lemma_digits_end_to_props};

verus! {

/// How a PFM scale token reads.
#[derive(Clone, Copy, Debug, PartialEq, Eq, Structural)]
pub enum ScaleClass {
    /// Not a float literal at all.
    Invalid,
    /// Magnitude exactly one; `negative` gives the sign, which selects
    /// little-endian sample storage.
    Unit { negative: bool },
    /// A well-formed float literal of some other magnitude.
    NonUnit,
}

/// ASCII lower-casing of a single byte.
pub open spec fn lower(b: u8) -> u8 {
    if 65 <= b <= 90 {
        (b + 32) as u8
    } else {
        b
    }
}

/// Case-insensitive match of `d[a..b)` against `pat` (given lower-case).
pub open spec fn ci_match(d: Seq<u8>, a: int, b: int, pat: Seq<u8>) -> bool {
    &&& b - a == pat.len()
    &&& 0 <= a
    &&& b <= d.len()
    &&& forall|i: int| 0 <= i < pat.len() ==> lower(#[trigger] d[a + i]) == pat[i]
}

pub open spec fn kw_inf() -> Seq<u8> {
    seq![105u8, 110u8, 102u8]
}

pub open spec fn kw_infinity() -> Seq<u8> {
    seq![105u8, 110u8, 102u8, 105u8, 110u8, 105u8, 116u8, 121u8]
}

pub open spec fn kw_nan() -> Seq<u8> {
    seq![110u8, 97u8, 110u8]
}

/// Whether `ds` is a digit string spelling a power of ten: a single `1`
/// among zeros.
pub open spec fn is_pow_form(ds: Seq<u8>) -> bool {
    exists|j: int|
        0 <= j < ds.len() && ds[j] == 49 && (forall|k: int|
            0 <= k < ds.len() && k != j ==> #[trigger] ds[k] == 48)
}

/// Number of nonzero digits among the first `n` of `ds`.
pub open spec fn count_nz(ds: Seq<u8>, n: int) -> int
    decreases n,
{
    if n <= 0 {
        0
    } else {
        count_nz(ds, n - 1) + if ds[n - 1] == 48 {
            0int
        } else {
            1int
        }
    }
}

pub proof fn lemma_count_nz_zero(ds: Seq<u8>, n: int)
    ensures
        count_nz(ds, n) >= 0,
        count_nz(ds, n) == 0 <==> (forall|k: int| 0 <= k < n ==> #[trigger] ds[k] == 48),
    decreases n,
{
    if n > 0 {
        lemma_count_nz_zero(ds, n - 1);
    }
}

/// If exactly position `j` is nonzero, the count over a prefix is one past
/// `j` and zero before it.
pub proof fn lemma_count_nz_single(ds: Seq<u8>, j: int, n: int)
    requires
        0 <= j,
        ds[j] != 48,
        forall|k: int| 0 <= k < ds.len() && k != j ==> #[trigger] ds[k] == 48,
        n <= ds.len(),
    ensures
        count_nz(ds, n) == if j < n {
            1int
        } else {
            0int
        },
    decreases n,
{
    if n > 0 {
        lemma_count_nz_single(ds, j, n - 1);
    }
}

/// The position of the single `1` in a power-of-ten digit string.
pub open spec fn one_idx(ds: Seq<u8>) -> int {
    choose|j: int|
        0 <= j < ds.len() && ds[j] == 49 && (forall|k: int|
            0 <= k < ds.len() && k != j ==> #[trigger] ds[k] == 48)
}

/// The `1` of a power-of-ten digit string sits in exactly one place.
pub proof fn lemma_one_idx_unique(ds: Seq<u8>, j: int)
    requires
        0 <= j < ds.len(),
        ds[j] == 49,
        forall|k: int| 0 <= k < ds.len() && k != j ==> #[trigger] ds[k] == 48,
    ensures
        is_pow_form(ds),
        one_idx(ds) == j,
{
    assert(is_pow_form(ds));
    let j2 = one_idx(ds);
    if j2 != j {
        assert(ds[j2] == 48);
    }
}

/// The mantissa digits of the token: integer part `d[s..ie)` followed by
/// fraction part `d[fs..fe)`.
pub open spec fn mantissa_digits(d: Seq<u8>, s: int, ie: int, fs: int, fe: int) -> Seq<u8> {
    d.subrange(s, ie) + d.subrange(fs, fe)
}

/// Whether mantissa digits `ds`, fraction length `flen` and signed decimal
/// exponent `e` denote the value one: the digits spell `10^p` and the
/// decimal point lands right after the `1`.
pub open spec fn denotes_one(ds: Seq<u8>, flen: int, e: int) -> bool {
    is_pow_form(ds) && e + (ds.len() - 1 - one_idx(ds)) == flen
}

/// Classification of the numeric (non-keyword) form `d[s..b)`; `neg` is the
/// already-consumed sign.
pub open spec fn decimal_class(d: Seq<u8>, s: int, b: int, neg: bool) -> ScaleClass {
    let ie = digits_end_to(d, s, b);
    let has_dot = ie < b && d[ie] == 46;
    let fs = if has_dot {
        ie + 1
    } else {
        ie
    };
    let fe = if has_dot {
        digits_end_to(d, fs, b)
    } else {
        ie
    };
    if ie == s && fe == fs {
        ScaleClass::Invalid
    } else if fe == b {
        unit_or_not(d, s, ie, fs, fe, 0, neg)
    } else if d[fe] == 101 || d[fe] == 69 {
        let has_esign = fe + 1 < b && (d[fe + 1] == 43 || d[fe + 1] == 45);
        let eneg = fe + 1 < b && d[fe + 1] == 45;
        let es = if has_esign {
            fe + 2
        } else {
            fe + 1
        };
        let ee = digits_end_to(d, es, b);
        if es == ee || ee != b {
            ScaleClass::Invalid
        } else {
            let ev = digits_val(d, es, ee);
            unit_or_not(d, s, ie, fs, fe, if eneg { -ev } else { ev }, neg)
        }
    } else {
        ScaleClass::Invalid
    }
}

pub open spec fn unit_or_not(d: Seq<u8>, s: int, ie: int, fs: int, fe: int, e: int, neg: bool)
    -> ScaleClass {
    if denotes_one(mantissa_digits(d, s, ie, fs, fe), fe - fs, e) {
        ScaleClass::Unit { negative: neg }
    } else {
        ScaleClass::NonUnit
    }
}

/// Classification of the trimmed scale token `d[a..b)`.
pub open spec fn scale_class(d: Seq<u8>, a: int, b: int) -> ScaleClass {
    if a >= b {
        ScaleClass::Invalid
    } else {
        let neg = d[a] == 45;
        let s = if d[a] == 45 || d[a] == 43 {
            a + 1
        } else {
            a
        };
        if ci_match(d, s, b, kw_inf()) || ci_match(d, s, b, kw_infinity()) || ci_match(
            d,
            s,
            b,
            kw_nan(),
        ) {
            ScaleClass::NonUnit
        } else {
            decimal_class(d, s, b, neg)
        }
    }
}

/// Lower-case a byte.
fn lower_byte(b: u8) -> (r: u8)
    ensures
        r == lower(b),
{
    if b >= 65 && b <= 90 {
        b + 32
    } else {
        b
    }
}

/// Case-insensitive comparison of `data[s..b)` against `inf`.
fn match_inf(data: &[u8], s: usize, b: usize) -> (r: bool)
    requires
        s <= b <= data@.len(),
    ensures
        r == ci_match(data@, s as int, b as int, kw_inf()),
{
    if b - s != 3 {
        return false;
    }
    let r = lower_byte(data[s]) == 105 && lower_byte(data[s + 1]) == 110 && lower_byte(
        data[s + 2],
    ) == 102;
    proof {
        if r {
            assert forall|i: int| 0 <= i < 3 implies lower(data@[s + i]) == kw_inf()[i] by {
                if i == 0 {
                } else if i == 1 {
                } else {
                    assert(i == 2);
                }
            }
        } else {
            if ci_match(data@, s as int, b as int, kw_inf()) {
                assert(lower(data@[s as int + 0]) == kw_inf()[0]);
                assert(lower(data@[s as int + 1]) == kw_inf()[1]);
                assert(lower(data@[s as int + 2]) == kw_inf()[2]);
            }
        }
    }
    r
}

/// Case-insensitive comparison of `data[s..b)` against `infinity`.
fn match_infinity(data: &[u8], s: usize, b: usize) -> (r: bool)
    requires
        s <= b <= data@.len(),
    ensures
        r == ci_match(data@, s as int, b as int, kw_infinity()),
{
    if b - s != 8 {
        return false;
    }
    let r = lower_byte(data[s]) == 105 && lower_byte(data[s + 1]) == 110 && lower_byte(
        data[s + 2],
    ) == 102 && lower_byte(data[s + 3]) == 105 && lower_byte(data[s + 4]) == 110 && lower_byte(
        data[s + 5],
    ) == 105 && lower_byte(data[s + 6]) == 116 && lower_byte(data[s + 7]) == 121;
    proof {
        if r {
            assert forall|i: int| 0 <= i < 8 implies lower(data@[s + i]) == kw_infinity()[i] by {
                if i == 0 {
                } else if i == 1 {
                } else if i == 2 {
                } else if i == 3 {
                } else if i == 4 {
                } else if i == 5 {
                } else if i == 6 {
                } else {
                    assert(i == 7);
                }
            }
        } else {
            if ci_match(data@, s as int, b as int, kw_infinity()) {
                assert(lower(data@[s as int + 0]) == kw_infinity()[0]);
                assert(lower(data@[s as int + 1]) == kw_infinity()[1]);
                assert(lower(data@[s as int + 2]) == kw_infinity()[2]);
                assert(lower(data@[s as int + 3]) == kw_infinity()[3]);
                assert(lower(data@[s as int + 4]) == kw_infinity()[4]);
                assert(lower(data@[s as int + 5]) == kw_infinity()[5]);
                assert(lower(data@[s as int + 6]) == kw_infinity()[6]);
                assert(lower(data@[s as int + 7]) == kw_infinity()[7]);
            }
        }
    }
    r
}

/// Case-insensitive comparison of `data[s..b)` against `nan`.
fn match_nan(data: &[u8], s: usize, b: usize) -> (r: bool)
    requires
        s <= b <= data@.len(),
    ensures
        r == ci_match(data@, s as int, b as int, kw_nan()),
{
    if b - s != 3 {
        return false;
    }
    let r = lower_byte(data[s]) == 110 && lower_byte(data[s + 1]) == 97 && lower_byte(
        data[s + 2],
    ) == 110;
    proof {
        if r {
            assert forall|i: int| 0 <= i < 3 implies lower(data@[s + i]) == kw_nan()[i] by {
                if i == 0 {
                } else if i == 1 {
                } else {
                    assert(i == 2);
                }
            }
        } else {
            if ci_match(data@, s as int, b as int, kw_nan()) {
                assert(lower(data@[s as int + 0]) == kw_nan()[0]);
                assert(lower(data@[s as int + 1]) == kw_nan()[1]);
                assert(lower(data@[s as int + 2]) == kw_nan()[2]);
            }
        }
    }
    r
}

/// End of the digit run beginning at `pos`, bounded by `b`.
fn digits_end_to_exec(data: &[u8], pos: usize, b: usize) -> (r: usize)
    requires
        pos <= b <= data@.len(),
    ensures
        r == digits_end_to(data@, pos as int, b as int),
        pos <= r <= b,
{
    proof {
        lemma_digits_end_to_props(data@, pos as int, b as int);
    }
    let mut p = pos;
    loop
        invariant
            pos <= p <= b <= data@.len(),
            digits_end_to(data@, pos as int, b as int) == digits_end_to(
                data@,
                p as int,
                b as int,
            ),
        ensures
            p == digits_end_to(data@, pos as int, b as int),
        decreases b - p,
    {
        if p >= b {
            break;
        }
        let c = data[p];
        if c >= 48 && c <= 57 {
            p = p + 1;
        } else {
            break;
        }
    }
    p
}

/// Scan of the mantissa digit ranges for the power-of-ten shape: counts the
/// nonzero digits and remembers where a lone `1` sits in the combined digit
/// string.
#[derive(Clone, Copy)]
struct PowScan {
    /// Digits seen so far.
    seen: usize,
    /// Nonzero digits seen so far.
    nonzero: usize,
    /// Combined index of the `1`, when `nonzero == 1` and that digit was a
    /// `1`.
    one_at: usize,
    /// The single nonzero digit seen was a `1`.
    one_ok: bool,
}

/// Classify the trimmed scale token `data[a..b)`.
pub fn classify(data: &[u8], a: usize, b: usize) -> (r: ScaleClass)
    requires
        a <= b <= data@.len(),
    ensures
        r == scale_class(data@, a as int, b as int),
{
    if a >= b {
        return ScaleClass::Invalid;
    }
    let neg = data[a] == 45;
    let s = if data[a] == 45 || data[a] == 43 {
        a + 1
    } else {
        a
    };
    if match_inf(data, s, b) || match_infinity(data, s, b) || match_nan(data, s, b) {
        return ScaleClass::NonUnit;
    }
    decimal_classify(data, s, b, neg)
}

/// Classify the numeric form `data[s..b)`.
fn decimal_classify(data: &[u8], s: usize, b: usize, neg: bool) -> (r: ScaleClass)
    requires
        s <= b <= data@.len(),
    ensures
        r == decimal_class(data@, s as int, b as int, neg),
{
    let ie = digits_end_to_exec(data, s, b);
    let has_dot = ie < b && data[ie] == 46;
    let fs = if has_dot {
        ie + 1
    } else {
        ie
    };
    let fe = if has_dot {
        digits_end_to_exec(data, fs, b)
    } else {
        ie
    };
    if ie == s && fe == fs {
        return ScaleClass::Invalid;
    }
    proof {
        lemma_digits_end_to_props(data@, s as int, b as int);
        if has_dot {
            lemma_digits_end_to_props(data@, fs as int, b as int);
        }
    }
    if fe == b {
        return unit_check(data, s, ie, fs, fe, 0, false, neg);
    }
    let c = data[fe];
    if c == 101 || c == 69 {
        let has_esign = fe + 1 < b && (data[fe + 1] == 43 || data[fe + 1] == 45);
        let eneg = fe + 1 < b && data[fe + 1] == 45;
        let es = if has_esign {
            fe + 2
        } else {
            fe + 1
        };
        let ee = digits_end_to_exec(data, es, b);
        if es == ee || ee != b {
            return ScaleClass::Invalid;
        }
        proof {
            lemma_digits_end_to_props(data@, es as int, b as int);
            crate::text::lemma_digits_val_nonneg(data@, es as int, ee as int);
        }
        // The exponent value, saturated far above any reachable magnitude.
        let cap: u128 = 0x1000_0000_0000_0000_0000_0000_0000_0000;
        let mut ev: u128 = 0;
        let mut p = es;
        loop
            invariant
                es <= p <= ee <= data@.len(),
                forall|i: int| es <= i < ee ==> is_digit(#[trigger] data@[i]),
                ev == spec_min_int(digits_val(data@, es as int, p as int), cap as int),
                cap == 0x1000_0000_0000_0000_0000_0000_0000_0000u128,
            ensures
                ev == spec_min_int(digits_val(data@, es as int, ee as int), cap as int),
            decreases ee - p,
        {
            if p >= ee {
                break;
            }
            let dgt = (data[p] - 48) as u128;
            proof {
                crate::text::lemma_digits_val_nonneg(data@, es as int, p as int);
                lemma_min_step(digits_val(data@, es as int, p as int), cap as int, dgt as int);
            }
            let grown = ev * 10 + dgt;
            ev = if grown > cap {
                cap
            } else {
                grown
            };
            p = p + 1;
        }
        return unit_check_capped(data, s, ie, fs, fe, ev, eneg, neg, Ghost(digits_val(data@, es as int, ee as int)));
    }
    ScaleClass::Invalid
}

/// Mathematical minimum.
pub open spec fn spec_min_int(a: int, b: int) -> int {
    if a < b {
        a
    } else {
        b
    }
}

/// One saturated-accumulation step agrees with saturating the true value.
proof fn lemma_min_step(v: int, cap: int, dgt: int)
    requires
        v >= 0,
        cap >= 10,
        0 <= dgt <= 9,
    ensures
        spec_min_int(v * 10 + dgt, cap) == spec_min_int(
            spec_min_int(v, cap) * 10 + dgt,
            cap,
        ),
{
}

/// Unit check when the exponent was capped: a capped exponent can never
/// land the decimal point, so the comparison may use the capped value.
fn unit_check_capped(
    data: &[u8],
    s: usize,
    ie: usize,
    fs: usize,
    fe: usize,
    ev_capped: u128,
    eneg: bool,
    neg: bool,
    Ghost(ev_true): Ghost<int>,
) -> (r: ScaleClass)
    requires
        s <= ie <= fs <= fe <= data@.len(),
        forall|i: int| s <= i < ie ==> is_digit(#[trigger] data@[i]),
        forall|i: int| fs <= i < fe ==> is_digit(#[trigger] data@[i]),
        ev_true >= 0,
        ev_capped as int == spec_min_int(ev_true, 0x1000_0000_0000_0000_0000_0000_0000_0000int),
        !(ie == s && fe == fs),
    ensures
        r == unit_or_not(
            data@,
            s as int,
            ie as int,
            fs as int,
            fe as int,
            if eneg {
                -ev_true
            } else {
                ev_true
            },
            neg,
        ),
{
    let cap: u128 = 0x1000_0000_0000_0000_0000_0000_0000_0000;
    if ev_capped == cap {
        // A capped exponent means the true exponent dwarfs anything the
        // digit count of the token could balance: the value is not one.
        proof {
            let ds = mantissa_digits(data@, s as int, ie as int, fs as int, fe as int);
            let e = if eneg {
                -ev_true
            } else {
                ev_true
            };
            if denotes_one(ds, fe - fs, e) {
                assert(ds.len() == (ie - s) + (fe - fs));
                assert(ds.len() <= usize::MAX);
                assert(0 <= one_idx(ds) < ds.len());
                assert(e + (ds.len() - 1 - one_idx(ds)) == fe - fs);
                assert(ev_true <= usize::MAX);
                assert(ev_capped as int == ev_true);
            }
        }
        return ScaleClass::NonUnit;
    }
    unit_check(data, s, ie, fs, fe, ev_capped, eneg, neg)
}

/// Decide whether the mantissa digits with the given exponent denote one.
fn unit_check(
    data: &[u8],
    s: usize,
    ie: usize,
    fs: usize,
    fe: usize,
    ev: u128,
    eneg: bool,
    neg: bool,
) -> (r: ScaleClass)
    requires
        s <= ie <= fs <= fe <= data@.len(),
        forall|i: int| s <= i < ie ==> is_digit(#[trigger] data@[i]),
        forall|i: int| fs <= i < fe ==> is_digit(#[trigger] data@[i]),
        ev < 0x1000_0000_0000_0000_0000_0000_0000_0000,
        !(ie == s && fe == fs),
    ensures
        r == unit_or_not(
            data@,
            s as int,
            ie as int,
            fs as int,
            fe as int,
            if eneg {
                -(ev as int)
            } else {
                ev as int
            },
            neg,
        ),
{
    let ghost ds = mantissa_digits(data@, s as int, ie as int, fs as int, fe as int);
    let ilen = ie - s;
    let flen = fe - fs;
    let mut scan = PowScan { seen: 0, nonzero: 0, one_at: 0, one_ok: false };
    let mut p = s;
    loop
        invariant
            s <= p <= ie <= fs <= fe <= data@.len(),
            forall|i: int| s <= i < ie ==> is_digit(#[trigger] data@[i]),
            ds == mantissa_digits(data@, s as int, ie as int, fs as int, fe as int),
            scan.seen == p - s,
            pow_scan_inv(scan, ds, p - s),
        ensures
            p == ie,
            scan.seen == ie - s,
            pow_scan_inv(scan, ds, ie - s),
        decreases ie - p,
    {
        if p >= ie {
            break;
        }
        proof {
            assert(ds[p - s] == data@[p as int]);
        }
        scan = pow_scan_step(scan, data[p], Ghost(ds), Ghost(p - s));
        p = p + 1;
    }
    let mut q = fs;
    loop
        invariant
            s <= ie <= fs <= q <= fe <= data@.len(),
            forall|i: int| fs <= i < fe ==> is_digit(#[trigger] data@[i]),
            ilen == ie - s,
            ds == mantissa_digits(data@, s as int, ie as int, fs as int, fe as int),
            scan.seen == (ie - s) + (q - fs),
            pow_scan_inv(scan, ds, (ie - s) + (q - fs)),
        ensures
            q == fe,
            scan.seen == (ie - s) + (fe - fs),
            pow_scan_inv(scan, ds, ds.len() as int),
        decreases fe - q,
    {
        if q >= fe {
            break;
        }
        proof {
            assert(ds[(ie - s) + (q - fs)] == data@[q as int]);
        }
        scan = pow_scan_step(scan, data[q], Ghost(ds), Ghost((ie - s) + (q - fs)));
        q = q + 1;
    }
    // Power-of-ten shape: a single nonzero digit which is a one.
    if !(scan.nonzero == 1 && scan.one_ok) {
        proof {
            let l = ds.len() as int;
            if is_pow_form(ds) {
                let j = choose|j: int|
                    0 <= j < ds.len() && ds[j] == 49 && (forall|k: int|
                        0 <= k < ds.len() && k != j ==> #[trigger] ds[k] == 48);
                lemma_count_nz_single(ds, j, l);
                assert(count_nz(ds, l) == 1);
                assert(scan.nonzero == 1);
                assert(ds[scan.one_at as int] != 48);
                assert(scan.one_at == j);
                assert(scan.one_ok);
            }
        }
        return ScaleClass::NonUnit;
    }
    proof {
        lemma_one_idx_unique(ds, scan.one_at as int);
    }
    // The digits spell 10^(L - 1 - j); the value is that times 10^(e-flen).
    let l = scan.seen;
    let j = scan.one_at;
    // Condition: e + (L - 1 - j) == flen.
    let p10: u128 = (l - 1 - j) as u128;
    let lhs_matches: bool = if eneg {
        // -ev + p10 == flen
        p10 >= ev && p10 - ev == flen as u128
    } else {
        ev + p10 == flen as u128
    };
    if lhs_matches {
        ScaleClass::Unit { negative: neg }
    } else {
        ScaleClass::NonUnit
    }
}

/// Invariant of the power-of-ten scan over the first `n` digits of `ds`.
spec fn pow_scan_inv(scan: PowScan, ds: Seq<u8>, n: int) -> bool {
    &&& scan.seen == n
    &&& 0 <= n <= ds.len()
    &&& scan.nonzero == spec_min_int(count_nz(ds, n), 2)
    &&& (count_nz(ds, n) == 1 ==> 0 <= scan.one_at < n && ds[scan.one_at as int] != 48 && (
    forall|k: int| 0 <= k < n && k != scan.one_at ==> #[trigger] ds[k] == 48) && (scan.one_ok
        <==> ds[scan.one_at as int] == 49))
}

/// Feed one digit to the power-of-ten scan.
fn pow_scan_step(scan: PowScan, dgt: u8, Ghost(ds): Ghost<Seq<u8>>, Ghost(n): Ghost<int>) -> (r:
    PowScan)
    requires
        pow_scan_inv(scan, ds, n),
        n < ds.len(),
        ds[n] == dgt,
        is_digit(dgt),
        scan.seen < usize::MAX,
    ensures
        pow_scan_inv(r, ds, n + 1),
{
    proof {
        lemma_count_nz_zero(ds, n);
        lemma_count_nz_zero(ds, n + 1);
    }
    let mut r = scan;
    r.seen = scan.seen + 1;
    if dgt != 48 {
        if scan.nonzero == 0 {
            r.nonzero = 1;
            r.one_at = scan.seen;
            r.one_ok = dgt == 49;
        } else {
            r.nonzero = 2;
            r.one_ok = false;
        }
    }
    r
}

} // verus!
