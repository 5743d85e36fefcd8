//! Parsing inverts serialization.
//!
//! The central result, [`lemma_parse_of_ser`], says that the strict parser
//! applied to the canonical encoding of any value gives that value back.
//! Because the parser is a function of the bytes, the same result also pins
//! the encoding down: a byte string parses to at most one value, and a
//! value has exactly one canonical encoding.

use vstd::prelude::*;
use vstd::utf8::{encode_utf8, encode_utf8_decode_utf8, encode_utf8_valid_utf8};

use crate::json::JVal;
use crate::json_parse::{
    digits_len, digits_val, hex_val, is_hex_lc, sp_elems, sp_int, sp_json, sp_members,
    sp_strbytes, sp_val,
};
use crate::json_ser::{
    dec_digits, esc, esc_byte, hex_byte, is_digit_byte, ser_elems, ser_int, ser_jval, ser_member,
    ser_members,
};

verus! {

/// Reading two lowercase hex digits gives back the escaped byte.
proof fn lemma_hex_byte(b: u8)
    requires
        b < 0x20,
    ensures
        is_hex_lc(hex_byte((b / 16) as nat)),
        is_hex_lc(hex_byte((b % 16) as nat)),
        hex_val(hex_byte((b / 16) as nat)) * 16 + hex_val(hex_byte((b % 16) as nat)) == b,
        hex_byte((b / 16) as nat) != 0x22 && hex_byte((b / 16) as nat) != 0x5c,
{
}

/// String content round trip: escaped content followed by the closing
/// quote and anything else reads back as the original bytes.
proof fn lemma_rt_strbytes(content: Seq<u8>, rest: Seq<u8>)
    ensures
        sp_strbytes(esc(content) + seq![0x22u8] + rest) == Some::<(Seq<u8>, Seq<u8>)>(
            (content, rest),
        ),
    decreases content.len(),
{
    let input = esc(content) + seq![0x22u8] + rest;
    if content.len() == 0 {
        assert(input[0] == 0x22);
        assert(input.subrange(1, input.len() as int) =~= rest);
    } else {
        let b0 = content[0];
        let ctail = content.subrange(1, content.len() as int);
        let inner = esc(ctail) + seq![0x22u8] + rest;
        lemma_rt_strbytes(ctail, rest);
        assert(esc(content) == esc_byte(b0) + esc(ctail));
        if b0 == 0x22 || b0 == 0x5c {
            assert(input[0] == 0x5c && input[1] == b0);
            assert(input.subrange(2, input.len() as int) =~= inner);
            assert(seq![b0] + ctail =~= content);
        } else if b0 < 0x20 {
            lemma_hex_byte(b0);
            assert(input[0] == 0x5c && input[1] == 0x75 && input[2] == 0x30 && input[3] == 0x30);
            assert(input[4] == hex_byte((b0 / 16) as nat) && input[5] == hex_byte(
                (b0 % 16) as nat,
            ));
            assert(input.subrange(6, input.len() as int) =~= inner);
            assert(seq![(hex_val(input[4]) * 16 + hex_val(input[5])) as u8] + ctail =~= content);
        } else {
            assert(input[0] == b0);
            assert(input.subrange(1, input.len() as int) =~= inner);
            assert(seq![b0] + ctail =~= content);
        }
    }
}

/// Shape of the decimal digits of `n`: at least one byte, all digits,
/// leading digit nonzero unless `n` is zero, and the value reads back.
proof fn lemma_dec_digits(n: nat)
    ensures
        dec_digits(n).len() >= 1,
        forall|t: int| 0 <= t < dec_digits(n).len() ==> is_digit_byte(#[trigger] dec_digits(n)[t]),
        n >= 1 ==> dec_digits(n)[0] != 0x30,
        digits_val(dec_digits(n)) == n,
    decreases n,
{
    if n < 10 {
        let ds = dec_digits(n);
        assert(ds.subrange(0, 0) =~= Seq::<u8>::empty());
        assert(digits_val(ds) == digits_val(ds.subrange(0, 0)) * 10 + (ds[0] - 0x30));
    } else {
        lemma_dec_digits(n / 10);
        let ds = dec_digits(n);
        assert(ds.subrange(0, ds.len() - 1) =~= dec_digits(n / 10));
        assert(ds[0] == dec_digits(n / 10)[0]);
        assert(digits_val(ds) == (n / 10) * 10 + n % 10);
    }
}

/// A run of digits followed by a non-digit has exactly its own length as
/// the leading digit run.
proof fn lemma_digits_len_exact(ds: Seq<u8>, rest: Seq<u8>)
    requires
        forall|t: int| 0 <= t < ds.len() ==> is_digit_byte(#[trigger] ds[t]),
        rest.len() == 0 || !is_digit_byte(rest[0]),
    ensures
        digits_len(ds + rest) == ds.len(),
    decreases ds.len(),
{
    if ds.len() == 0 {
        assert(ds + rest =~= rest);
    } else {
        assert((ds + rest)[0] == ds[0]);
        assert((ds + rest).subrange(1, (ds + rest).len() as int) =~= ds.subrange(
            1,
            ds.len() as int,
        ) + rest);
        lemma_digits_len_exact(ds.subrange(1, ds.len() as int), rest);
    }
}

/// Integer round trip, provided nothing digit-like follows the number.
proof fn lemma_rt_int(i: i64, rest: Seq<u8>)
    requires
        rest.len() == 0 || !is_digit_byte(rest[0]),
    ensures
        sp_int(ser_int(i) + rest) == Some::<(i64, Seq<u8>)>((i, rest)),
{
    let input = ser_int(i) + rest;
    if i >= 0 {
        let n = i as nat;
        lemma_dec_digits(n);
        assert(input =~= dec_digits(n) + rest);
        assert(input[0] == dec_digits(n)[0]);
        lemma_digits_len_exact(dec_digits(n), rest);
        let k = digits_len(input);
        assert(k == dec_digits(n).len());
        assert(input.subrange(0, k) =~= dec_digits(n));
        assert(input.subrange(k, input.len() as int) =~= rest);
        if n == 0 {
            assert(dec_digits(n) =~= seq![0x30u8]);
        }
    } else {
        let n = (-(i as int)) as nat;
        lemma_dec_digits(n);
        assert(input[0] == 0x2d);
        assert(input.subrange(1, input.len() as int) =~= dec_digits(n) + rest);
        let tail = dec_digits(n) + rest;
        assert(tail[0] == dec_digits(n)[0]);
        lemma_digits_len_exact(dec_digits(n), rest);
        let k = digits_len(tail);
        assert(k == dec_digits(n).len());
        assert(tail.subrange(0, k) =~= dec_digits(n));
        assert(tail.subrange(k, tail.len() as int) =~= rest);
        assert(n >= 1);
    }
}

/// The encoding of a value is never empty, and its first byte is a value
/// start: never a delimiter (`,`, `]`, `}`, `:`).
proof fn lemma_ser_first(v: JVal)
    ensures
        ser_jval(v).len() >= 1,
        ser_jval(v)[0] != 0x2c && ser_jval(v)[0] != 0x5d && ser_jval(v)[0] != 0x7d && ser_jval(v)[0]
            != 0x3a,
{
    match v {
        JVal::Int(i) => {
            if i >= 0 {
                lemma_dec_digits(i as nat);
                assert(ser_jval(v)[0] == dec_digits(i as nat)[0]);
            } else {
                assert(ser_jval(v)[0] == 0x2d);
            }
        },
        _ => {},
    }
}

/// Value round trip: the canonical encoding of `v`, followed by anything
/// that does not look like more digits, parses back to exactly `v`.
#[verifier::rlimit(100)]
pub proof fn lemma_rt_val(v: JVal, rest: Seq<u8>, fuel: nat)
    requires
        rest.len() == 0 || !is_digit_byte(rest[0]),
        fuel >= ser_jval(v).len() + rest.len(),
    ensures
        sp_val(ser_jval(v) + rest, fuel) == Some::<(JVal, Seq<u8>)>((v, rest)),
    decreases v,
{
    let input = ser_jval(v) + rest;
    match v {
        JVal::Null => {
            assert(input[0] == 0x6e && input[1] == 0x75 && input[2] == 0x6c && input[3] == 0x6c);
            assert(input.subrange(4, input.len() as int) =~= rest);
        },
        JVal::Bool(b) => {
            if b {
                assert(input[0] == 0x74 && input[1] == 0x72 && input[2] == 0x75 && input[3]
                    == 0x65);
                assert(input.subrange(4, input.len() as int) =~= rest);
            } else {
                assert(input[0] == 0x66 && input[1] == 0x61 && input[2] == 0x6c && input[3]
                    == 0x73 && input[4] == 0x65);
                assert(input.subrange(5, input.len() as int) =~= rest);
            }
        },
        JVal::Int(i) => {
            lemma_rt_int(i, rest);
            if i >= 0 {
                lemma_dec_digits(i as nat);
                assert(input[0] == dec_digits(i as nat)[0]);
            } else {
                assert(input[0] == 0x2d);
            }
        },
        JVal::Str(s) => {
            let content = encode_utf8(s);
            assert(input[0] == 0x22);
            assert(input.subrange(1, input.len() as int) =~= esc(content) + seq![0x22u8] + rest);
            lemma_rt_strbytes(content, rest);
            encode_utf8_valid_utf8(s);
            encode_utf8_decode_utf8(s);
        },
        JVal::Arr(es) => {
            assert(input[0] == 0x5b);
            if es.len() == 0 {
                assert(es =~= Seq::<JVal>::empty());
                assert(ser_elems(es) =~= Seq::<u8>::empty());
                assert(input =~= seq![0x5bu8, 0x5du8] + rest);
                assert(input[1] == 0x5d);
                assert(input.subrange(2, input.len() as int) =~= rest);
            } else {
                assert(decreases_to!(v => v->Arr_0));
                lemma_ser_first(es[0]);
                assert(ser_elems(es)[0] == ser_jval(es[0])[0]);
                assert(ser_jval(v) == seq![0x5bu8] + ser_elems(es) + seq![0x5du8]);
                assert(input[1] == ser_elems(es)[0]);
                assert(input[1] != 0x5d);
                assert(input.subrange(1, input.len() as int) =~= ser_elems(es) + seq![0x5du8]
                    + rest);
                lemma_rt_elems(es, rest, (fuel - 1) as nat);
            }
        },
        JVal::Obj(ps) => {
            assert(input[0] == 0x7b);
            if ps.len() == 0 {
                assert(ps =~= Seq::<(Seq<char>, JVal)>::empty());
                assert(ser_members(ps) =~= Seq::<u8>::empty());
                assert(input =~= seq![0x7bu8, 0x7du8] + rest);
                assert(input[1] == 0x7d);
                assert(input.subrange(2, input.len() as int) =~= rest);
            } else {
                assert(decreases_to!(v => v->Obj_0));
                assert(ser_member(ps[0])[0] == 0x22);
                assert(ser_members(ps)[0] == ser_member(ps[0])[0]);
                assert(ser_jval(v) == seq![0x7bu8] + ser_members(ps) + seq![0x7du8]);
                assert(input[1] == ser_members(ps)[0]);
                assert(input[1] != 0x7d);
                assert(input.subrange(1, input.len() as int) =~= ser_members(ps) + seq![0x7du8]
                    + rest);
                lemma_rt_members(ps, rest, (fuel - 1) as nat);
            }
        },
    }
}

/// Element list round trip, up to and including the closing bracket.
proof fn lemma_rt_elems(es: Seq<JVal>, rest: Seq<u8>, fuel: nat)
    requires
        es.len() >= 1,
        fuel >= ser_elems(es).len() + 1 + rest.len(),
    ensures
        sp_elems(ser_elems(es) + seq![0x5du8] + rest, fuel) == Some::<(Seq<JVal>, Seq<u8>)>(
            (es, rest),
        ),
    decreases es,
{
    let input = ser_elems(es) + seq![0x5du8] + rest;
    let e0 = es[0];
    assert(decreases_to!(es => es[0]));
    if es.len() == 1 {
        let tail0 = seq![0x5du8] + rest;
        assert(input =~= ser_jval(e0) + tail0);
        lemma_rt_val(e0, tail0, fuel);
        assert(tail0[0] == 0x5d);
        assert(tail0.subrange(1, tail0.len() as int) =~= rest);
        assert(seq![e0] =~= es);
    } else {
        let etail = es.subrange(1, es.len() as int);
        assert(decreases_to!(es => es.subrange(1, es.len() as int)));
        let tail0 = seq![0x2cu8] + ser_elems(etail) + seq![0x5du8] + rest;
        assert(input =~= ser_jval(e0) + tail0);
        lemma_rt_val(e0, tail0, fuel);
        assert(tail0[0] == 0x2c);
        lemma_ser_first(e0);
        assert(tail0.len() < input.len());
        assert(tail0.subrange(1, tail0.len() as int) =~= ser_elems(etail) + seq![0x5du8] + rest);
        lemma_rt_elems(etail, rest, fuel);
        assert(seq![e0] + etail =~= es);
    }
}

/// Member list round trip, up to and including the closing brace.
#[verifier::rlimit(100)]
proof fn lemma_rt_members(ps: Seq<(Seq<char>, JVal)>, rest: Seq<u8>, fuel: nat)
    requires
        ps.len() >= 1,
        fuel >= ser_members(ps).len() + 1 + rest.len(),
    ensures
        sp_members(ser_members(ps) + seq![0x7du8] + rest, fuel) == Some::<
            (Seq<(Seq<char>, JVal)>, Seq<u8>),
        >((ps, rest)),
    decreases ps,
{
    let input = ser_members(ps) + seq![0x7du8] + rest;
    let p0 = ps[0];
    let key_bytes = encode_utf8(p0.0);
    assert(decreases_to!(ps => ps[0]));
    assert(decreases_to!(ps[0] => ps[0].1));
    assert(ser_member(p0)[0] == 0x22);
    assert(ser_members(ps)[0] == ser_member(p0)[0]);
    assert(input[0] == ser_members(ps)[0]);
    if ps.len() == 1 {
        let after_val = seq![0x7du8] + rest;
        assert(input =~= seq![0x22u8] + (esc(key_bytes) + seq![0x22u8] + (seq![0x3au8] + (ser_jval(
            p0.1,
        ) + after_val))));
        assert(input.subrange(1, input.len() as int) =~= esc(key_bytes) + seq![0x22u8] + (seq![
            0x3au8,
        ] + (ser_jval(p0.1) + after_val)));
        lemma_rt_strbytes(key_bytes, seq![0x3au8] + (ser_jval(p0.1) + after_val));
        encode_utf8_valid_utf8(p0.0);
        encode_utf8_decode_utf8(p0.0);
        let r1 = seq![0x3au8] + (ser_jval(p0.1) + after_val);
        assert(r1[0] == 0x3a);
        assert(r1.subrange(1, r1.len() as int) =~= ser_jval(p0.1) + after_val);
        assert(r1.subrange(1, r1.len() as int).len() < input.len());
        lemma_rt_val(p0.1, after_val, fuel);
        assert(after_val[0] == 0x7d);
        assert(after_val.subrange(1, after_val.len() as int) =~= rest);
        assert(seq![(p0.0, p0.1)] =~= ps);
    } else {
        let ptail = ps.subrange(1, ps.len() as int);
        assert(decreases_to!(ps => ps.subrange(1, ps.len() as int)));
        let after_val = seq![0x2cu8] + ser_members(ptail) + seq![0x7du8] + rest;
        assert(ser_members(ps) =~= ser_member(p0) + seq![0x2cu8] + ser_members(ptail));
        assert(input =~= seq![0x22u8] + (esc(key_bytes) + seq![0x22u8] + (seq![0x3au8] + (ser_jval(
            p0.1,
        ) + after_val))));
        assert(input.subrange(1, input.len() as int) =~= esc(key_bytes) + seq![0x22u8] + (seq![
            0x3au8,
        ] + (ser_jval(p0.1) + after_val)));
        lemma_rt_strbytes(key_bytes, seq![0x3au8] + (ser_jval(p0.1) + after_val));
        encode_utf8_valid_utf8(p0.0);
        encode_utf8_decode_utf8(p0.0);
        let r1 = seq![0x3au8] + (ser_jval(p0.1) + after_val);
        assert(r1[0] == 0x3a);
        assert(r1.subrange(1, r1.len() as int) =~= ser_jval(p0.1) + after_val);
        assert(r1.subrange(1, r1.len() as int).len() < input.len());
        lemma_rt_val(p0.1, after_val, fuel);
        assert(after_val[0] == 0x2c);
        assert(after_val.len() < input.len());
        assert(after_val.subrange(1, after_val.len() as int) =~= ser_members(ptail) + seq![0x7du8]
            + rest);
        lemma_rt_members(ptail, rest, fuel);
        assert(seq![(p0.0, p0.1)] + ptail =~= ps);
    }
}

/// Whole-document round trip: parsing the canonical encoding of any value
/// yields that value.
pub proof fn lemma_parse_of_ser(v: JVal)
    ensures
        sp_json(ser_jval(v)) == Some(v),
{
    let bs = ser_jval(v);
    assert(bs + Seq::<u8>::empty() =~= bs);
    lemma_rt_val(v, Seq::empty(), bs.len() as nat);
}

} // verus!
