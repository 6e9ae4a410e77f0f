//! Byte-level text utilities shared by the PNM header grammars: whitespace
//! and comment skipping, ASCII decimal parsing, line splitting and trimming.

use vstd::prelude::*;

use crate::error::PnmError;

verus! {

/// PNM header whitespace: space, tab, line feed, carriage return.
pub open spec fn is_pnm_ws(b: u8) -> bool {
    b == 32 || b == 9 || b == 10 || b == 13
}

/// ASCII whitespace as used when trimming a header line.
pub open spec fn is_ascii_ws(b: u8) -> bool {
    b == 32 || (9 <= b <= 13)
}

/// ASCII decimal digit.
pub open spec fn is_digit(b: u8) -> bool {
    48 <= b <= 57
}

/// Position of the next non-whitespace, non-comment byte at or after `pos`,
/// skipping `#` comments through their line end. `None` when the input ends
/// first.
pub open spec fn skip_ws_spec(d: Seq<u8>, pos: int) -> Option<int>
    decreases d.len() - pos,
{
    if pos < 0 || pos >= d.len() {
        None
    } else if is_pnm_ws(d[pos]) {
        skip_ws_spec(d, pos + 1)
    } else if d[pos] == 35 {
        skip_comment_spec(d, pos + 1)
    } else {
        Some(pos)
    }
}

/// Continuation of `skip_ws_spec` inside a `#` comment.
pub open spec fn skip_comment_spec(d: Seq<u8>, pos: int) -> Option<int>
    decreases d.len() - pos,
{
    if pos < 0 || pos >= d.len() {
        None
    } else if d[pos] == 10 {
        skip_ws_spec(d, pos + 1)
    } else {
        skip_comment_spec(d, pos + 1)
    }
}

/// What `skip_ws_spec` promises of its result.
pub proof fn lemma_skip_ws_props(d: Seq<u8>, pos: int)
    requires
        0 <= pos,
    ensures
        match skip_ws_spec(d, pos) {
            Some(p) => pos <= p < d.len() && !is_pnm_ws(d[p]) && d[p] != 35,
            None => true,
        },
    decreases d.len() - pos,
{
    if 0 <= pos < d.len() {
        if is_pnm_ws(d[pos]) {
            lemma_skip_ws_props(d, pos + 1);
        } else if d[pos] == 35 {
            lemma_skip_comment_props(d, pos + 1);
        }
    }
}

/// What `skip_comment_spec` promises of its result.
pub proof fn lemma_skip_comment_props(d: Seq<u8>, pos: int)
    requires
        0 <= pos,
    ensures
        match skip_comment_spec(d, pos) {
            Some(p) => pos <= p < d.len() && !is_pnm_ws(d[p]) && d[p] != 35,
            None => true,
        },
    decreases d.len() - pos,
{
    if 0 <= pos < d.len() {
        if d[pos] == 10 {
            lemma_skip_ws_props(d, pos + 1);
        } else {
            lemma_skip_comment_props(d, pos + 1);
        }
    }
}

/// Skip whitespace and `#` comments starting at `pos`.
pub fn skip_ws(data: &[u8], pos: usize) -> (r: Result<usize, PnmError>)
    requires
        pos <= data@.len(),
    ensures
        match r {
            Ok(p) => {
                &&& skip_ws_spec(data@, pos as int) == Some(p as int)
                &&& pos <= p < data@.len()
            },
            Err(e) => {
                &&& skip_ws_spec(data@, pos as int) is None
                &&& e == PnmError::UnexpectedEof
            },
        },
{
    let mut p = pos;
    let mut in_comment = false;
    loop
        invariant
            pos <= p <= data@.len(),
            if in_comment {
                skip_ws_spec(data@, pos as int) == skip_comment_spec(data@, p as int)
            } else {
                skip_ws_spec(data@, pos as int) == skip_ws_spec(data@, p as int)
            },
        decreases data@.len() - p,
    {
        if p >= data.len() {
            return Err(PnmError::UnexpectedEof);
        }
        let b = data[p];
        if in_comment {
            if b == 10 {
                in_comment = false;
            }
            p = p + 1;
        } else if b == 32 || b == 9 || b == 10 || b == 13 {
            p = p + 1;
        } else if b == 35 {
            in_comment = true;
            p = p + 1;
        } else {
            proof {
                lemma_skip_ws_props(data@, pos as int);
            }
            return Ok(p);
        }
    }
}

/// End of the digit run beginning at `pos`: the first position at or after
/// `pos` holding a non-digit, or the end of the input.
pub open spec fn digits_end(d: Seq<u8>, pos: int) -> int
    decreases d.len() - pos,
{
    if pos < 0 || pos >= d.len() {
        pos
    } else if is_digit(d[pos]) {
        digits_end(d, pos + 1)
    } else {
        pos
    }
}

pub proof fn lemma_digits_end_props(d: Seq<u8>, pos: int)
    requires
        0 <= pos <= d.len(),
    ensures
        pos <= digits_end(d, pos) <= d.len(),
        forall|i: int| pos <= i < digits_end(d, pos) ==> is_digit(#[trigger] d[i]),
        digits_end(d, pos) < d.len() ==> !is_digit(d[digits_end(d, pos)]),
    decreases d.len() - pos,
{
    if pos < d.len() && is_digit(d[pos]) {
        lemma_digits_end_props(d, pos + 1);
    }
}

/// Value of the decimal digit run `d[pos..end)`, as an unbounded integer.
pub open spec fn digits_val(d: Seq<u8>, pos: int, end: int) -> int
    decreases end - pos,
{
    if pos >= end {
        0
    } else {
        digits_val(d, pos, end - 1) * 10 + (d[end - 1] - 48)
    }
}

pub proof fn lemma_digits_val_nonneg(d: Seq<u8>, pos: int, end: int)
    requires
        forall|i: int| pos <= i < end ==> is_digit(#[trigger] d[i]),
    ensures
        digits_val(d, pos, end) >= 0,
    decreases end - pos,
{
    if pos < end {
        assert(is_digit(d[end - 1]));
        lemma_digits_val_nonneg(d, pos, end - 1);
    }
}

/// Appending digits to a run can only grow its value.
pub proof fn lemma_digits_val_grows(d: Seq<u8>, pos: int, end: int)
    requires
        pos < end,
        forall|i: int| pos <= i < end ==> is_digit(#[trigger] d[i]),
    ensures
        digits_val(d, pos, end) >= digits_val(d, pos, end - 1),
{
    lemma_digits_val_nonneg(d, pos, end - 1);
}

/// Parse of an unsigned 32-bit decimal at `pos`: the digit run's value and
/// the position after it. `None` when there is no digit at `pos` or the
/// value exceeds `u32::MAX`.
pub open spec fn parse_u32_spec(d: Seq<u8>, pos: int) -> Option<(u32, int)> {
    let end = digits_end(d, pos);
    if end == pos {
        None
    } else if digits_val(d, pos, end) > u32::MAX {
        None
    } else {
        Some((digits_val(d, pos, end) as u32, end))
    }
}

/// Parse an ASCII decimal `u32` beginning exactly at `pos`.
pub fn parse_u32(data: &[u8], pos: usize) -> (r: Result<(u32, usize), PnmError>)
    requires
        pos <= data@.len(),
    ensures
        match r {
            Ok((v, e)) => {
                &&& parse_u32_spec(data@, pos as int) == Some((v, e as int))
                &&& pos < e <= data@.len()
            },
            Err(err) => {
                &&& parse_u32_spec(data@, pos as int) is None
                &&& err is InvalidHeader
            },
        },
{
    proof {
        lemma_digits_end_props(data@, pos as int);
    }
    let ghost gend = digits_end(data@, pos as int);
    let mut p = pos;
    let mut val: u64 = 0;
    let mut over = false;
    loop
        invariant
            pos <= p <= data@.len(),
            p <= gend,
            gend == digits_end(data@, pos as int),
            gend == digits_end(data@, p as int),
            pos <= gend <= data@.len(),
            forall|i: int| pos <= i < gend ==> is_digit(#[trigger] data@[i]),
            gend < data@.len() ==> !is_digit(data@[gend]),
            if over {
                digits_val(data@, pos as int, p as int) > u32::MAX
            } else {
                val == digits_val(data@, pos as int, p as int) && val <= u32::MAX
            },
        ensures
            p == gend,
        decreases data@.len() - p,
    {
        if p >= data.len() {
            break;
        }
        let b = data[p];
        if b < 48 || b > 57 {
            break;
        }
        assert(p < gend);
        if !over {
            val = val * 10 + ((b - 48) as u64);
            if val > 0xffff_ffff {
                over = true;
            }
        } else {
            proof {
                lemma_digits_val_grows(data@, pos as int, p + 1);
            }
        }
        p = p + 1;
    }
    if p == pos || over {
        return Err(PnmError::InvalidHeader("expected number".to_owned()));
    }
    Ok((val as u32, p))
}

/// End of the digit run beginning at `pos`, bounded by `b`.
pub open spec fn digits_end_to(d: Seq<u8>, pos: int, b: int) -> int
    decreases b - pos,
{
    if pos < 0 || pos >= b || pos >= d.len() {
        pos
    } else if is_digit(d[pos]) {
        digits_end_to(d, pos + 1, b)
    } else {
        pos
    }
}

pub proof fn lemma_digits_end_to_props(d: Seq<u8>, pos: int, b: int)
    requires
        0 <= pos <= b <= d.len(),
    ensures
        pos <= digits_end_to(d, pos, b) <= b,
        forall|i: int| pos <= i < digits_end_to(d, pos, b) ==> is_digit(#[trigger] d[i]),
        digits_end_to(d, pos, b) < b ==> !is_digit(d[digits_end_to(d, pos, b)]),
    decreases b - pos,
{
    if pos < b && is_digit(d[pos]) {
        lemma_digits_end_to_props(d, pos + 1, b);
    }
}

/// First position of a line feed at or after `pos`, or the input's end.
pub open spec fn find_nl(d: Seq<u8>, pos: int) -> int
    decreases d.len() - pos,
{
    if pos < 0 || pos >= d.len() {
        d.len() as int
    } else if d[pos] == 10 {
        pos
    } else {
        find_nl(d, pos + 1)
    }
}

pub proof fn lemma_find_nl_props(d: Seq<u8>, pos: int)
    requires
        0 <= pos <= d.len(),
    ensures
        pos <= find_nl(d, pos) <= d.len(),
        find_nl(d, pos) < d.len() ==> d[find_nl(d, pos)] == 10,
        forall|i: int| pos <= i < find_nl(d, pos) ==> #[trigger] d[i] != 10,
    decreases d.len() - pos,
{
    if pos < d.len() && d[pos] != 10 {
        lemma_find_nl_props(d, pos + 1);
    }
}

/// Find the next line feed at or after `pos`, or the input's end.
pub fn find_line_end(data: &[u8], pos: usize) -> (r: usize)
    requires
        pos <= data@.len(),
    ensures
        r == find_nl(data@, pos as int),
        pos <= r <= data@.len(),
{
    proof {
        lemma_find_nl_props(data@, pos as int);
    }
    let mut p = pos;
    loop
        invariant
            pos <= p <= data@.len(),
            find_nl(data@, pos as int) == find_nl(data@, p as int),
        decreases data@.len() - p,
    {
        if p >= data.len() {
            return p;
        }
        if data[p] == 10 {
            return p;
        }
        p = p + 1;
    }
}

/// Start of the range `[a, b)` after dropping leading ASCII whitespace.
pub open spec fn trim_start_idx(d: Seq<u8>, a: int, b: int) -> int
    decreases b - a,
{
    if a < 0 || a >= b {
        b
    } else if is_ascii_ws(d[a]) {
        trim_start_idx(d, a + 1, b)
    } else {
        a
    }
}

/// End of the range `[a, b)` after dropping trailing ASCII whitespace.
pub open spec fn trim_end_idx(d: Seq<u8>, a: int, b: int) -> int
    decreases b - a,
{
    if b <= a {
        a
    } else if 0 <= b - 1 < d.len() && is_ascii_ws(d[b - 1]) {
        trim_end_idx(d, a, b - 1)
    } else {
        b
    }
}

pub proof fn lemma_trim_start_props(d: Seq<u8>, a: int, b: int)
    requires
        0 <= a <= b,
    ensures
        a <= trim_start_idx(d, a, b) <= b,
        trim_start_idx(d, a, b) < b ==> !is_ascii_ws(d[trim_start_idx(d, a, b)]),
        forall|i: int| a <= i < trim_start_idx(d, a, b) ==> is_ascii_ws(#[trigger] d[i]),
    decreases b - a,
{
    if a < b && is_ascii_ws(d[a]) {
        lemma_trim_start_props(d, a + 1, b);
    }
}

pub proof fn lemma_trim_end_props(d: Seq<u8>, a: int, b: int)
    requires
        0 <= a <= b <= d.len(),
    ensures
        a <= trim_end_idx(d, a, b) <= b,
        trim_end_idx(d, a, b) > a ==> !is_ascii_ws(d[trim_end_idx(d, a, b) - 1]),
        forall|i: int| trim_end_idx(d, a, b) <= i < b ==> is_ascii_ws(#[trigger] d[i]),
    decreases b - a,
{
    if b > a && is_ascii_ws(d[b - 1]) {
        lemma_trim_end_props(d, a, b - 1);
    }
}

/// The range `[a, b)` with ASCII whitespace trimmed from both ends.
pub open spec fn trim_range(d: Seq<u8>, a: int, b: int) -> (int, int) {
    let ts = trim_start_idx(d, a, b);
    (ts, trim_end_idx(d, ts, b))
}

/// Trim ASCII whitespace from both ends of the range `[a, b)` of `data`.
pub fn trim(data: &[u8], a: usize, b: usize) -> (r: (usize, usize))
    requires
        a <= b <= data@.len(),
    ensures
        (r.0 as int, r.1 as int) == trim_range(data@, a as int, b as int),
        a <= r.0 <= r.1 <= b,
{
    proof {
        lemma_trim_start_props(data@, a as int, b as int);
    }
    let mut ts = a;
    loop
        invariant
            a <= ts <= b <= data@.len(),
            trim_start_idx(data@, a as int, b as int) == trim_start_idx(data@, ts as int, b as int),
        ensures
            ts == trim_start_idx(data@, a as int, b as int),
            a <= ts <= b,
        decreases b - ts,
    {
        if ts >= b {
            break;
        }
        let c = data[ts];
        if c == 32 || (c >= 9 && c <= 13) {
            ts = ts + 1;
        } else {
            break;
        }
    }
    proof {
        lemma_trim_end_props(data@, ts as int, b as int);
    }
    let mut te = b;
    loop
        invariant
            ts <= te <= b <= data@.len(),
            trim_end_idx(data@, ts as int, b as int) == trim_end_idx(data@, ts as int, te as int),
        ensures
            te == trim_end_idx(data@, ts as int, b as int),
            ts <= te <= b,
        decreases te,
    {
        if te <= ts {
            break;
        }
        let c = data[te - 1];
        if c == 32 || (c >= 9 && c <= 13) {
            te = te - 1;
        } else {
            break;
        }
    }
    (ts, te)
}

} // verus!
