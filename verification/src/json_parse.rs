//! Strict parser for the canonical JSON encoding.
//!
//! [`sp_val`] is the specification: a partial function from bytes to a value
//! and the unconsumed rest.  It accepts exactly the encodings produced by
//! [`crate::json_ser::ser_jval`] — no whitespace, no alternative escapes, no
//! leading zeros — so parsing is a function and every accepted byte string
//! has exactly one reading.  The executable parser is proved to return
//! precisely what the specification says, on every input.
//!
//! The `fuel` argument only bounds nesting depth so that the definition is
//! well founded; callers pass the input length, which every nesting level
//! (one byte of bracket) stays below.

use vstd::prelude::*;
use vstd::utf8::{decode_utf8, valid_utf8};

use crate::json::{jpairs_of, jvals_of, lemma_jpairs_of, lemma_jvals_of, JVal, JsonValue};
use crate::json_ser::is_digit_byte;

verus! {

/// True when `b` is a lowercase hexadecimal digit.
pub open spec fn is_hex_lc(b: u8) -> bool {
    is_digit_byte(b) || (0x61 <= b <= 0x66)
}

/// Numeric value of a lowercase hexadecimal digit.
pub open spec fn hex_val(b: u8) -> nat
    recommends
        is_hex_lc(b),
{
    if b < 0x40 {
        (b - 0x30) as nat
    } else {
        (b - 0x57) as nat
    }
}

/// Parses escaped string content up to and including the closing quote.
/// Returns the unescaped bytes and the rest of the input.
pub open spec fn sp_strbytes(bs: Seq<u8>) -> Option<(Seq<u8>, Seq<u8>)>
    decreases bs.len(),
{
    if bs.len() == 0 {
        None
    } else if bs[0] == 0x22 {
        Some((Seq::empty(), bs.subrange(1, bs.len() as int)))
    } else if bs[0] == 0x5c {
        if bs.len() >= 2 && (bs[1] == 0x22 || bs[1] == 0x5c) {
            match sp_strbytes(bs.subrange(2, bs.len() as int)) {
                Some((c, r)) => Some((seq![bs[1]] + c, r)),
                None => None,
            }
        } else if bs.len() >= 6 && bs[1] == 0x75 && bs[2] == 0x30 && bs[3] == 0x30 && is_hex_lc(
            bs[4],
        ) && is_hex_lc(bs[5]) && hex_val(bs[4]) * 16 + hex_val(bs[5]) < 0x20 {
            match sp_strbytes(bs.subrange(6, bs.len() as int)) {
                Some((c, r)) => Some((seq![(hex_val(bs[4]) * 16 + hex_val(bs[5])) as u8] + c, r)),
                None => None,
            }
        } else {
            None
        }
    } else if bs[0] >= 0x20 {
        match sp_strbytes(bs.subrange(1, bs.len() as int)) {
            Some((c, r)) => Some((seq![bs[0]] + c, r)),
            None => None,
        }
    } else {
        None
    }
}

/// Length of the leading run of decimal digits.
pub open spec fn digits_len(bs: Seq<u8>) -> int
    decreases bs.len(),
{
    if bs.len() == 0 || !is_digit_byte(bs[0]) {
        0
    } else {
        1 + digits_len(bs.subrange(1, bs.len() as int))
    }
}

/// Value of a digit string, most significant digit first.
pub open spec fn digits_val(ds: Seq<u8>) -> nat
    decreases ds.len(),
{
    if ds.len() == 0 {
        0
    } else {
        (digits_val(ds.subrange(0, ds.len() - 1)) * 10 + (ds[ds.len() - 1] - 0x30)) as nat
    }
}

/// The leading digit run lies within the input and is all digits.
pub proof fn lemma_digits_len_bounds(bs: Seq<u8>)
    ensures
        0 <= digits_len(bs) <= bs.len(),
        forall|t: int| 0 <= t < digits_len(bs) ==> is_digit_byte(#[trigger] bs[t]),
    decreases bs.len(),
{
    if bs.len() > 0 && is_digit_byte(bs[0]) {
        let tail = bs.subrange(1, bs.len() as int);
        lemma_digits_len_bounds(tail);
        assert forall|t: int| 0 <= t < digits_len(bs) implies is_digit_byte(#[trigger] bs[t]) by {
            if t >= 1 {
                assert(is_digit_byte(tail[t - 1]));
            }
        }
    }
}

/// Parses a canonical decimal integer: optional minus, no leading zeros,
/// no `-0`, and a value that fits in an `i64`.
pub open spec fn sp_int(bs: Seq<u8>) -> Option<(i64, Seq<u8>)> {
    let neg = bs.len() > 0 && bs[0] == 0x2d;
    let tail = if neg {
        bs.subrange(1, bs.len() as int)
    } else {
        bs
    };
    let k = digits_len(tail);
    if k == 0 {
        None
    } else {
        let ds = tail.subrange(0, k);
        let rest = tail.subrange(k, tail.len() as int);
        let val = digits_val(ds);
        if ds[0] == 0x30 && (k != 1 || neg) {
            None
        } else if neg {
            if 1 <= val <= 0x8000000000000000 {
                Some(((-(val as int)) as i64, rest))
            } else {
                None
            }
        } else {
            if val <= 0x7fffffffffffffff {
                Some((val as i64, rest))
            } else {
                None
            }
        }
    }
}

/// Parses one canonical JSON value and returns the rest of the input.
pub open spec fn sp_val(bs: Seq<u8>, fuel: nat) -> Option<(JVal, Seq<u8>)>
    decreases fuel, bs.len(), 0int,
{
    if bs.len() == 0 {
        None
    } else if bs[0] == 0x6e {
        if bs.len() >= 4 && bs[1] == 0x75 && bs[2] == 0x6c && bs[3] == 0x6c {
            Some((JVal::Null, bs.subrange(4, bs.len() as int)))
        } else {
            None
        }
    } else if bs[0] == 0x74 {
        if bs.len() >= 4 && bs[1] == 0x72 && bs[2] == 0x75 && bs[3] == 0x65 {
            Some((JVal::Bool(true), bs.subrange(4, bs.len() as int)))
        } else {
            None
        }
    } else if bs[0] == 0x66 {
        if bs.len() >= 5 && bs[1] == 0x61 && bs[2] == 0x6c && bs[3] == 0x73 && bs[4] == 0x65 {
            Some((JVal::Bool(false), bs.subrange(5, bs.len() as int)))
        } else {
            None
        }
    } else if bs[0] == 0x22 {
        match sp_strbytes(bs.subrange(1, bs.len() as int)) {
            Some((content, rest)) => if valid_utf8(content) {
                Some((JVal::Str(decode_utf8(content)), rest))
            } else {
                None
            },
            None => None,
        }
    } else if bs[0] == 0x5b {
        if fuel == 0 {
            None
        } else if bs.len() >= 2 && bs[1] == 0x5d {
            Some((JVal::Arr(Seq::empty()), bs.subrange(2, bs.len() as int)))
        } else {
            match sp_elems(bs.subrange(1, bs.len() as int), (fuel - 1) as nat) {
                Some((es, rest)) => Some((JVal::Arr(es), rest)),
                None => None,
            }
        }
    } else if bs[0] == 0x7b {
        if fuel == 0 {
            None
        } else if bs.len() >= 2 && bs[1] == 0x7d {
            Some((JVal::Obj(Seq::empty()), bs.subrange(2, bs.len() as int)))
        } else {
            match sp_members(bs.subrange(1, bs.len() as int), (fuel - 1) as nat) {
                Some((ps, rest)) => Some((JVal::Obj(ps), rest)),
                None => None,
            }
        }
    } else if bs[0] == 0x2d || is_digit_byte(bs[0]) {
        match sp_int(bs) {
            Some((i, rest)) => Some((JVal::Int(i), rest)),
            None => None,
        }
    } else {
        None
    }
}

/// Parses one or more comma-separated elements followed by `]`.
pub open spec fn sp_elems(bs: Seq<u8>, fuel: nat) -> Option<(Seq<JVal>, Seq<u8>)>
    decreases fuel, bs.len(), 1int,
{
    match sp_val(bs, fuel) {
        Some((v, rest)) => if rest.len() >= 1 && rest[0] == 0x2c {
            if rest.len() < bs.len() {
                match sp_elems(rest.subrange(1, rest.len() as int), fuel) {
                    Some((es, r2)) => Some((seq![v] + es, r2)),
                    None => None,
                }
            } else {
                None
            }
        } else if rest.len() >= 1 && rest[0] == 0x5d {
            Some((seq![v], rest.subrange(1, rest.len() as int)))
        } else {
            None
        },
        None => None,
    }
}

/// Parses one or more `"key":value` members followed by `}`.
pub open spec fn sp_members(bs: Seq<u8>, fuel: nat) -> Option<
    (Seq<(Seq<char>, JVal)>, Seq<u8>),
>
    decreases fuel, bs.len(), 1int,
{
    if bs.len() == 0 || bs[0] != 0x22 {
        None
    } else {
        match sp_strbytes(bs.subrange(1, bs.len() as int)) {
            Some((content, r1)) => if valid_utf8(content) && r1.len() >= 1 && r1[0] == 0x3a {
                let key = decode_utf8(content);
                let r1t = r1.subrange(1, r1.len() as int);
                if r1t.len() < bs.len() {
                    match sp_val(r1t, fuel) {
                        Some((v, r2)) => if r2.len() >= 1 && r2[0] == 0x2c {
                            if r2.len() < bs.len() {
                                match sp_members(r2.subrange(1, r2.len() as int), fuel) {
                                    Some((ps, r3)) => Some((seq![(key, v)] + ps, r3)),
                                    None => None,
                                }
                            } else {
                                None
                            }
                        } else if r2.len() >= 1 && r2[0] == 0x7d {
                            Some((seq![(key, v)], r2.subrange(1, r2.len() as int)))
                        } else {
                            None
                        },
                        None => None,
                    }
                } else {
                    None
                }
            } else {
                None
            },
            None => None,
        }
    }
}

/// Whole-document parse: one value, nothing after it, fuel from the length.
pub open spec fn sp_json(bs: Seq<u8>) -> Option<JVal> {
    match sp_val(bs, bs.len() as nat) {
        Some((v, rest)) => if rest.len() == 0 {
            Some(v)
        } else {
            None
        },
        None => None,
    }
}

/// The suffix of `bs` from position `p` on.
pub open spec fn tail_from(bs: Seq<u8>, p: int) -> Seq<u8> {
    bs.subrange(p, bs.len() as int)
}

/// A suffix of a suffix is a suffix.
proof fn lemma_tail_tail(bs: Seq<u8>, p: int, q: int)
    requires
        0 <= p <= q <= bs.len(),
    ensures
        tail_from(bs, p).subrange(q - p, tail_from(bs, p).len() as int) == tail_from(bs, q),
{
    assert(tail_from(bs, p).subrange(q - p, tail_from(bs, p).len() as int) =~= tail_from(bs, q));
}

/// Builds a `String` from UTF-8 bytes, or nothing when the bytes are not
/// valid UTF-8.
///
/// Relies on `String::from_utf8`, whose acceptance and result are exactly
/// UTF-8 decoding as `vstd::utf8` defines it.
#[verifier::external_body]
fn string_from_utf8(v: Vec<u8>) -> (r: Option<String>)
    ensures
        r is Some <==> valid_utf8(v@),
        r matches Some(s) ==> s@ == decode_utf8(v@),
{
    String::from_utf8(v).ok()
}

/// Reads escaped string content (after the opening quote) up to and
/// including the closing quote, exactly as [`sp_strbytes`] describes.
#[verifier::loop_isolation(false)]
fn parse_string_content(bs: &Vec<u8>, start: usize) -> (r: Option<(Vec<u8>, usize)>)
    requires
        start <= bs@.len(),
    ensures
        r is None <==> sp_strbytes(tail_from(bs@, start as int)) is None,
        r matches Some(q) ==> {
            &&& sp_strbytes(tail_from(bs@, start as int)) matches Some(cr)
            &&& cr.0 == q.0@
            &&& start <= q.1 <= bs@.len()
            &&& cr.1 == tail_from(bs@, q.1 as int)
        },
{
    let n = bs.len();
    let mut p = start;
    let mut acc: Vec<u8> = Vec::new();
    loop
        invariant
            start <= p <= n,
            sp_strbytes(tail_from(bs@, start as int)) is Some <==> sp_strbytes(
                tail_from(bs@, p as int),
            ) is Some,
            sp_strbytes(tail_from(bs@, p as int)) matches Some(cr) ==> sp_strbytes(
                tail_from(bs@, start as int),
            ) matches Some(cr0) && cr0.0 == acc@ + cr.0 && cr0.1 == cr.1,
        decreases n - p,
    {
        if p == n {
            return None;
        }
        let b = bs[p];
        let ghost s = tail_from(bs@, p as int);
        proof {
            assert(s[0] == b);
        }
        if b == 0x22 {
            proof {
                lemma_tail_tail(bs@, p as int, p + 1);
                assert(acc@ + Seq::<u8>::empty() =~= acc@);
            }
            return Some((acc, p + 1));
        } else if b == 0x5c {
            if n - p >= 2 && (bs[p + 1] == 0x22 || bs[p + 1] == 0x5c) {
                proof {
                    assert(s.len() >= 2 && s[1] == bs@[p + 1]);
                    lemma_tail_tail(bs@, p as int, p + 2);
                    match sp_strbytes(tail_from(bs@, p + 2)) {
                        Some(cr) => {
                            assert(acc@ + (seq![bs@[p + 1]] + cr.0) =~= acc@.push(bs@[p + 1])
                                + cr.0);
                        },
                        None => {},
                    }
                }
                acc.push(bs[p + 1]);
                p = p + 2;
            } else if n - p >= 6 && bs[p + 1] == 0x75 && bs[p + 2] == 0x30 && bs[p + 3] == 0x30
                && (0x30 <= bs[p + 4] && bs[p + 4] <= 0x39 || 0x61 <= bs[p + 4] && bs[p + 4]
                <= 0x66) && (0x30 <= bs[p + 5] && bs[p + 5] <= 0x39 || 0x61 <= bs[p + 5] && bs[p
                + 5] <= 0x66) {
                let h1 = bs[p + 4];
                let h2 = bs[p + 5];
                let v1: u8 = if h1 < 0x40 {
                    h1 - 0x30
                } else {
                    h1 - 0x57
                };
                let v2: u8 = if h2 < 0x40 {
                    h2 - 0x30
                } else {
                    h2 - 0x57
                };
                let d: u8 = v1 * 16 + v2;
                if d < 0x20 {
                    proof {
                        assert(s.len() >= 6);
                        assert(s[1] == bs@[p + 1] && s[2] == bs@[p + 2] && s[3] == bs@[p + 3]
                            && s[4] == bs@[p + 4] && s[5] == bs@[p + 5]);
                        assert(hex_val(s[4]) == v1 as nat && hex_val(s[5]) == v2 as nat);
                        lemma_tail_tail(bs@, p as int, p + 6);
                        match sp_strbytes(tail_from(bs@, p + 6)) {
                            Some(cr) => {
                                assert(acc@ + (seq![d] + cr.0) =~= acc@.push(d) + cr.0);
                            },
                            None => {},
                        }
                    }
                    acc.push(d);
                    p = p + 6;
                } else {
                    proof {
                        assert(hex_val(s[4]) * 16 + hex_val(s[5]) >= 0x20);
                        assert(sp_strbytes(s) is None);
                    }
                    return None;
                }
            } else {
                proof {
                    assert(sp_strbytes(s) is None);
                }
                return None;
            }
        } else if b >= 0x20 {
            proof {
                lemma_tail_tail(bs@, p as int, p + 1);
                match sp_strbytes(tail_from(bs@, p + 1)) {
                    Some(cr) => {
                        assert(acc@ + (seq![b] + cr.0) =~= acc@.push(b) + cr.0);
                    },
                    None => {},
                }
            }
            acc.push(b);
            p = p + 1;
        } else {
            return None;
        }
    }
}

/// Digit values only grow as more digits are read.
proof fn lemma_digits_val_mono(ds: Seq<u8>, i: int, j: int)
    requires
        0 <= i <= j <= ds.len(),
        forall|t: int| 0 <= t < ds.len() ==> is_digit_byte(#[trigger] ds[t]),
    ensures
        digits_val(ds.subrange(0, i)) <= digits_val(ds.subrange(0, j)),
    decreases j - i,
{
    if i < j {
        lemma_digits_val_mono(ds, i, j - 1);
        let pre = ds.subrange(0, j);
        assert(pre.subrange(0, j - 1) =~= ds.subrange(0, j - 1));
        assert(digits_val(pre) == digits_val(ds.subrange(0, j - 1)) * 10 + (pre[j - 1] - 0x30));
    }
}

/// A digit string that does not start with `0` has a positive value.
pub proof fn lemma_digits_val_pos(ds: Seq<u8>)
    requires
        ds.len() >= 1,
        ds[0] != 0x30,
        forall|t: int| 0 <= t < ds.len() ==> is_digit_byte(#[trigger] ds[t]),
    ensures
        digits_val(ds) >= 1,
    decreases ds.len(),
{
    if ds.len() == 1 {
        assert(ds.subrange(0, 0) =~= Seq::<u8>::empty());
    } else {
        lemma_digits_val_pos(ds.subrange(0, ds.len() - 1));
    }
}

/// Reads a canonical decimal integer exactly as [`sp_int`] describes.
#[verifier::loop_isolation(false)]
fn parse_int(bs: &Vec<u8>, start: usize) -> (r: Option<(i64, usize)>)
    requires
        start <= bs@.len(),
    ensures
        r is None <==> sp_int(tail_from(bs@, start as int)) is None,
        r matches Some(q) ==> {
            &&& sp_int(tail_from(bs@, start as int)) matches Some(vr)
            &&& vr.0 == q.0
            &&& start <= q.1 <= bs@.len()
            &&& vr.1 == tail_from(bs@, q.1 as int)
        },
{
    let n = bs.len();
    let ghost whole = tail_from(bs@, start as int);
    let neg = start < n && bs[start] == 0x2d;
    let dstart = if neg {
        start + 1
    } else {
        start
    };
    let ghost dtail = tail_from(bs@, dstart as int);
    proof {
        if neg {
            lemma_tail_tail(bs@, start as int, dstart as int);
        }
    }
    // find the digit run
    let mut j = dstart;
    while j < n && bs[j] >= 0x30 && bs[j] <= 0x39
        invariant
            dstart <= j <= n,
            digits_len(dtail) == (j - dstart) + digits_len(tail_from(bs@, j as int)),
            forall|t: int| dstart <= t < j ==> is_digit_byte(#[trigger] bs@[t]),
        decreases n - j,
    {
        proof {
            let s = tail_from(bs@, j as int);
            assert(s[0] == bs@[j as int]);
            lemma_tail_tail(bs@, j as int, j + 1);
            assert(digits_len(s) == 1 + digits_len(tail_from(bs@, j + 1)));
        }
        j = j + 1;
    }
    proof {
        let s = tail_from(bs@, j as int);
        if s.len() > 0 {
            assert(s[0] == bs@[j as int]);
        }
        assert(digits_len(s) == 0);
        assert(digits_len(dtail) == j - dstart);
    }
    let k = j - dstart;
    if k == 0 {
        return None;
    }
    let ghost ds = dtail.subrange(0, k as int);
    proof {
        assert(ds =~= bs@.subrange(dstart as int, j as int));
        assert(forall|t: int| 0 <= t < ds.len() ==> is_digit_byte(#[trigger] ds[t]));
        assert(ds[0] == bs@[dstart as int]);
    }
    if bs[dstart] == 0x30 && (k != 1 || neg) {
        return None;
    }
    // accumulate the value, watching the backend-specific bound
    let limit: u64 = if neg {
        0x8000000000000000
    } else {
        0x7fffffffffffffff
    };
    let mut acc: u64 = 0;
    let mut m = dstart;
    proof {
        assert(bs@.subrange(dstart as int, dstart as int) =~= Seq::<u8>::empty());
    }
    while m < j
        invariant
            dstart <= m <= j,
            acc <= limit,
            acc as nat == digits_val(bs@.subrange(dstart as int, m as int)),
        decreases j - m,
    {
        let d: u8 = bs[m] - 0x30;
        let t: u128 = (acc as u128) * 10 + (d as u128);
        proof {
            let pre = bs@.subrange(dstart as int, m + 1);
            assert(pre.subrange(0, pre.len() - 1) =~= bs@.subrange(dstart as int, m as int));
            assert(pre[pre.len() - 1] == bs@[m as int]);
            assert(digits_val(pre) == acc as nat * 10 + (d as nat));
        }
        if t > limit as u128 {
            proof {
                lemma_digits_val_mono(ds, m + 1 - dstart, k as int);
                assert(ds.subrange(0, m + 1 - dstart) =~= bs@.subrange(dstart as int, m + 1));
                assert(ds.subrange(0, k as int) =~= ds);
                assert(digits_val(ds) > limit as nat);
                assert(sp_int(whole) is None);
            }
            return None;
        }
        acc = t as u64;
        m = m + 1;
    }
    proof {
        assert(bs@.subrange(dstart as int, j as int) =~= ds);
        assert(acc as nat == digits_val(ds));
        lemma_tail_tail(bs@, dstart as int, j as int);
        assert(dtail.subrange(k as int, dtail.len() as int) =~= tail_from(bs@, j as int));
    }
    if neg {
        proof {
            lemma_digits_val_pos(ds);
        }
        let value: i64 = if acc == 0x8000000000000000 {
            i64::MIN
        } else {
            -(acc as i64)
        };
        proof {
            assert(value == (-(digits_val(ds) as int)) as i64);
        }
        Some((value, j))
    } else {
        Some((acc as i64, j))
    }
}

/// Reads one JSON value exactly as [`sp_val`] describes.
#[verifier::loop_isolation(false)]
#[verifier::rlimit(80)]
pub fn parse_value(bs: &Vec<u8>, pos: usize, fuel: usize) -> (r: Option<(JsonValue, usize)>)
    requires
        pos <= bs@.len(),
    ensures
        r is None <==> sp_val(tail_from(bs@, pos as int), fuel as nat) is None,
        r matches Some(q) ==> {
            &&& sp_val(tail_from(bs@, pos as int), fuel as nat) matches Some(vr)
            &&& vr.0 == q.0@
            &&& pos <= q.1 <= bs@.len()
            &&& vr.1 == tail_from(bs@, q.1 as int)
        },
    decreases fuel, bs@.len() - pos, 0int,
{
    let n = bs.len();
    let ghost s = tail_from(bs@, pos as int);
    if pos == n {
        return None;
    }
    let b = bs[pos];
    proof {
        assert(s[0] == b);
        assert(forall|t: int| 0 <= t < s.len() ==> s[t] == bs@[pos + t]);
    }
    if b == 0x6e {
        if n - pos >= 4 && bs[pos + 1] == 0x75 && bs[pos + 2] == 0x6c && bs[pos + 3] == 0x6c {
            proof {
                lemma_tail_tail(bs@, pos as int, pos + 4);
            }
            Some((JsonValue::Null, pos + 4))
        } else {
            None
        }
    } else if b == 0x74 {
        if n - pos >= 4 && bs[pos + 1] == 0x72 && bs[pos + 2] == 0x75 && bs[pos + 3] == 0x65 {
            proof {
                lemma_tail_tail(bs@, pos as int, pos + 4);
            }
            Some((JsonValue::Bool(true), pos + 4))
        } else {
            None
        }
    } else if b == 0x66 {
        if n - pos >= 5 && bs[pos + 1] == 0x61 && bs[pos + 2] == 0x6c && bs[pos + 3] == 0x73 && bs[
            pos + 4] == 0x65 {
            proof {
                lemma_tail_tail(bs@, pos as int, pos + 5);
            }
            Some((JsonValue::Bool(false), pos + 5))
        } else {
            None
        }
    } else if b == 0x22 {
        proof {
            lemma_tail_tail(bs@, pos as int, pos + 1);
        }
        match parse_string_content(bs, pos + 1) {
            Some((content, p1)) => {
                match string_from_utf8(content) {
                    Some(text) => Some((JsonValue::Str(text), p1)),
                    None => None,
                }
            },
            None => None,
        }
    } else if b == 0x5b {
        if fuel == 0 {
            None
        } else if n - pos >= 2 && bs[pos + 1] == 0x5d {
            proof {
                lemma_tail_tail(bs@, pos as int, pos + 2);
                assert(jvals_of(Seq::<JsonValue>::empty()) =~= Seq::<JVal>::empty());
            }
            Some((JsonValue::Arr(Vec::new()), pos + 2))
        } else {
            proof {
                lemma_tail_tail(bs@, pos as int, pos + 1);
            }
            match parse_elems(bs, pos + 1, fuel - 1) {
                Some((es, p1)) => Some((JsonValue::Arr(es), p1)),
                None => None,
            }
        }
    } else if b == 0x7b {
        if fuel == 0 {
            None
        } else if n - pos >= 2 && bs[pos + 1] == 0x7d {
            proof {
                lemma_tail_tail(bs@, pos as int, pos + 2);
                assert(jpairs_of(Seq::<(String, JsonValue)>::empty()) =~= Seq::<
                    (Seq<char>, JVal),
                >::empty());
            }
            Some((JsonValue::Obj(Vec::new()), pos + 2))
        } else {
            proof {
                lemma_tail_tail(bs@, pos as int, pos + 1);
            }
            match parse_members(bs, pos + 1, fuel - 1) {
                Some((ps, p1)) => Some((JsonValue::Obj(ps), p1)),
                None => None,
            }
        }
    } else if b == 0x2d || (0x30 <= b && b <= 0x39) {
        match parse_int(bs, pos) {
            Some((i, p1)) => Some((JsonValue::Int(i), p1)),
            None => None,
        }
    } else {
        None
    }
}

/// Reads array elements and the closing bracket, as [`sp_elems`] describes.
#[verifier::loop_isolation(false)]
#[verifier::rlimit(80)]
fn parse_elems(bs: &Vec<u8>, pos: usize, fuel: usize) -> (r: Option<(Vec<JsonValue>, usize)>)
    requires
        pos <= bs@.len(),
    ensures
        r is None <==> sp_elems(tail_from(bs@, pos as int), fuel as nat) is None,
        r matches Some(q) ==> {
            &&& sp_elems(tail_from(bs@, pos as int), fuel as nat) matches Some(vr)
            &&& vr.0 == jvals_of(q.0@)
            &&& pos <= q.1 <= bs@.len()
            &&& vr.1 == tail_from(bs@, q.1 as int)
        },
    decreases fuel, bs@.len() - pos, 1int,
{
    let n = bs.len();
    match parse_value(bs, pos, fuel) {
        Some((v, p1)) => {
            if p1 < n && bs[p1] == 0x2c {
                proof {
                    assert(tail_from(bs@, p1 as int)[0] == bs@[p1 as int]);
                    lemma_tail_tail(bs@, p1 as int, p1 + 1);
                }
                if p1 > pos {
                    match parse_elems(bs, p1 + 1, fuel) {
                        Some((mut es, p2)) => {
                            proof {
                                lemma_jvals_of(es@);
                                lemma_jvals_of(es@.insert(0, v));
                                assert(jvals_of(es@.insert(0, v)) =~= seq![v@] + jvals_of(es@));
                            }
                            es.insert(0, v);
                            Some((es, p2))
                        },
                        None => None,
                    }
                } else {
                    None
                }
            } else if p1 < n && bs[p1] == 0x5d {
                proof {
                    assert(tail_from(bs@, p1 as int)[0] == bs@[p1 as int]);
                    lemma_tail_tail(bs@, p1 as int, p1 + 1);
                }
                let mut es: Vec<JsonValue> = Vec::new();
                es.push(v);
                proof {
                    lemma_jvals_of(es@);
                    assert(jvals_of(es@) =~= seq![v@]);
                }
                Some((es, p1 + 1))
            } else {
                None
            }
        },
        None => None,
    }
}

/// Reads object members and the closing brace, as [`sp_members`] describes.
#[verifier::loop_isolation(false)]
#[verifier::rlimit(80)]
fn parse_members(bs: &Vec<u8>, pos: usize, fuel: usize) -> (r: Option<
    (Vec<(String, JsonValue)>, usize),
>)
    requires
        pos <= bs@.len(),
    ensures
        r is None <==> sp_members(tail_from(bs@, pos as int), fuel as nat) is None,
        r matches Some(q) ==> {
            &&& sp_members(tail_from(bs@, pos as int), fuel as nat) matches Some(vr)
            &&& vr.0 == jpairs_of(q.0@)
            &&& pos <= q.1 <= bs@.len()
            &&& vr.1 == tail_from(bs@, q.1 as int)
        },
    decreases fuel, bs@.len() - pos, 1int,
{
    let n = bs.len();
    let ghost s = tail_from(bs@, pos as int);
    if pos == n || bs[pos] != 0x22 {
        proof {
            if s.len() > 0 {
                assert(s[0] == bs@[pos as int]);
            }
        }
        return None;
    }
    proof {
        assert(s[0] == bs@[pos as int]);
        lemma_tail_tail(bs@, pos as int, pos + 1);
    }
    match parse_string_content(bs, pos + 1) {
        Some((content, p1)) => {
            match string_from_utf8(content) {
                Some(key) => {
                    if p1 < n && bs[p1] == 0x3a {
                        proof {
                            assert(tail_from(bs@, p1 as int)[0] == bs@[p1 as int]);
                            lemma_tail_tail(bs@, p1 as int, p1 + 1);
                        }
                        match parse_value(bs, p1 + 1, fuel) {
                            Some((v, p2)) => {
                                if p2 < n && bs[p2] == 0x2c {
                                    proof {
                                        assert(tail_from(bs@, p2 as int)[0] == bs@[p2 as int]);
                                        lemma_tail_tail(bs@, p2 as int, p2 + 1);
                                    }
                                    match parse_members(bs, p2 + 1, fuel) {
                                        Some((mut ps, p3)) => {
                                            proof {
                                                lemma_jpairs_of(ps@);
                                                lemma_jpairs_of(ps@.insert(0, (key, v)));
                                                assert(jpairs_of(ps@.insert(0, (key, v))) =~= seq![
                                                    (key@, v@),
                                                ] + jpairs_of(ps@));
                                            }
                                            ps.insert(0, (key, v));
                                            Some((ps, p3))
                                        },
                                        None => None,
                                    }
                                } else if p2 < n && bs[p2] == 0x7d {
                                    proof {
                                        assert(tail_from(bs@, p2 as int)[0] == bs@[p2 as int]);
                                        lemma_tail_tail(bs@, p2 as int, p2 + 1);
                                    }
                                    let mut ps: Vec<(String, JsonValue)> = Vec::new();
                                    ps.push((key, v));
                                    proof {
                                        lemma_jpairs_of(ps@);
                                        assert(jpairs_of(ps@) =~= seq![(key@, v@)]);
                                    }
                                    Some((ps, p2 + 1))
                                } else {
                                    None
                                }
                            },
                            None => None,
                        }
                    } else {
                        None
                    }
                },
                None => None,
            }
        },
        None => None,
    }
}

/// Parses a whole byte string as one canonical JSON document.
pub fn parse_json_bytes(bs: &Vec<u8>) -> (r: Option<JsonValue>)
    ensures
        r is None <==> sp_json(bs@) is None,
        r matches Some(v) ==> sp_json(bs@) == Some(v@),
{
    proof {
        assert(tail_from(bs@, 0) =~= bs@);
    }
    match parse_value(bs, 0, bs.len()) {
        Some((v, end)) => {
            if end == bs.len() {
                proof {
                    assert(tail_from(bs@, end as int).len() == 0);
                }
                Some(v)
            } else {
                None
            }
        },
        None => None,
    }
}

} // verus!
