//! Accepted input is canonical.
//!
//! The round-trip results say the parser accepts every canonical
//! encoding.  The results here give the converse: whatever the strict
//! parser accepts re-serializes to exactly the bytes it consumed.  The
//! two directions together make acceptance and canonical encoding the
//! same relation.

use vstd::prelude::*;
use vstd::utf8::{decode_utf8_encode_utf8, encode_utf8};

use crate::json::JVal;
use crate::json_parse::{
    digits_len, digits_val, hex_val, is_hex_lc, sp_elems, sp_int, sp_json, sp_members,
    sp_strbytes, sp_val,
};
use crate::json_ser::{
    dec_digits, esc, esc_byte, hex_byte, is_digit_byte, ser_elems, ser_int, ser_jval, ser_member,
    ser_members,
};

verus! {

/// Escaping the value of two hex digits writes those digits back.
proof fn lemma_hex_byte_rev(h: u8)
    requires
        is_hex_lc(h),
    ensures
        hex_byte(hex_val(h)) == h,
{
}

/// Whatever string content the parser accepts was the escaped form of
/// what it returned.
proof fn lemma_strbytes_sound(bs: Seq<u8>)
    ensures
        sp_strbytes(bs) matches Some(cr) ==> bs == esc(cr.0) + seq![0x22u8] + cr.1,
    decreases bs.len(),
{
    match sp_strbytes(bs) {
        None => {},
        Some(cr) => {
        if bs[0] == 0x22 {
            assert(esc(cr.0) =~= Seq::<u8>::empty());
            assert(bs =~= esc(cr.0) + seq![0x22u8] + bs.subrange(1, bs.len() as int));
        } else if bs[0] == 0x5c {
            if bs.len() >= 2 && (bs[1] == 0x22 || bs[1] == 0x5c) {
                let inner = bs.subrange(2, bs.len() as int);
                lemma_strbytes_sound(inner);
                let ic = sp_strbytes(inner)->Some_0;
                let c = ic.0;
                assert(inner == esc(c) + seq![0x22u8] + ic.1);
                assert(cr.0 == seq![bs[1]] + c && cr.1 == ic.1);
                assert(cr.0[0] == bs[1]);
                assert(esc_byte(bs[1]) =~= seq![0x5cu8, bs[1]]);
                assert(cr.0.subrange(1, cr.0.len() as int) =~= c);
                assert(esc(cr.0) == esc_byte(bs[1]) + esc(c));
                assert(bs =~= seq![0x5cu8, bs[1]] + inner);
                assert(bs =~= esc(cr.0) + seq![0x22u8] + cr.1);
            } else {
                let inner = bs.subrange(6, bs.len() as int);
                lemma_strbytes_sound(inner);
                let ic = sp_strbytes(inner)->Some_0;
                let c = ic.0;
                assert(inner == esc(c) + seq![0x22u8] + ic.1);
                let d = (hex_val(bs[4]) * 16 + hex_val(bs[5])) as u8;
                lemma_hex_byte_rev(bs[4]);
                lemma_hex_byte_rev(bs[5]);
                assert(hex_byte((d / 16) as nat) == bs[4] && hex_byte((d % 16) as nat) == bs[5]);
                assert(cr.0 == seq![d] + c && cr.1 == ic.1);
                assert(cr.0[0] == d);
                assert(cr.0.subrange(1, cr.0.len() as int) =~= c);
                assert(esc(cr.0) == esc_byte(d) + esc(c));
                assert(esc_byte(d) =~= seq![0x5cu8, 0x75u8, 0x30u8, 0x30u8, bs[4], bs[5]]);
                assert(bs =~= seq![0x5cu8, 0x75u8, 0x30u8, 0x30u8, bs[4], bs[5]] + inner);
                assert(bs =~= esc(cr.0) + seq![0x22u8] + cr.1);
            }
        } else {
            let inner = bs.subrange(1, bs.len() as int);
            lemma_strbytes_sound(inner);
            let ic = sp_strbytes(inner)->Some_0;
            let c = ic.0;
            assert(inner == esc(c) + seq![0x22u8] + ic.1);
            assert(cr.0 == seq![bs[0]] + c && cr.1 == ic.1);
            assert(cr.0[0] == bs[0]);
            assert(esc_byte(bs[0]) =~= seq![bs[0]]);
            assert(cr.0.subrange(1, cr.0.len() as int) =~= c);
            assert(esc(cr.0) == esc_byte(bs[0]) + esc(c));
            assert(bs =~= seq![bs[0]] + inner);
            assert(bs =~= esc(cr.0) + seq![0x22u8] + cr.1);
        }
        },
    }
}

/// A digit string with no leading zero is the decimal form of its value.
proof fn lemma_dec_of_val(ds: Seq<u8>)
    requires
        ds.len() >= 1,
        forall|t: int| 0 <= t < ds.len() ==> is_digit_byte(#[trigger] ds[t]),
        ds[0] == 0x30 ==> ds.len() == 1,
    ensures
        dec_digits(digits_val(ds)) == ds,
    decreases ds.len(),
{
    if ds.len() == 1 {
        assert(ds.subrange(0, 0) =~= Seq::<u8>::empty());
        assert(digits_val(Seq::<u8>::empty()) == 0);
        assert(is_digit_byte(ds[0]));
        assert(digits_val(ds) == (ds[0] - 0x30) as nat);
        assert(dec_digits(digits_val(ds)) =~= ds);
    } else {
        let front = ds.subrange(0, ds.len() - 1);
        let d = (ds[ds.len() - 1] - 0x30) as nat;
        lemma_dec_of_val(front);
        crate::json_parse::lemma_digits_val_pos(front);
        let val = digits_val(ds);
        assert(val == digits_val(front) * 10 + d);
        assert(val / 10 == digits_val(front) && val % 10 == d) by (nonlinear_arith)
            requires
                val == digits_val(front) * 10 + d,
                d < 10,
        ;
        assert(val >= 10) by (nonlinear_arith)
            requires
                val == digits_val(front) * 10 + d,
                digits_val(front) >= 1,
        ;
        assert(dec_digits(val) == dec_digits(digits_val(front)) + seq![(0x30 + d) as u8]);
        assert(dec_digits(val) =~= ds);
    }
}

/// Whatever integer the parser accepts was written in canonical decimal.
proof fn lemma_int_sound(bs: Seq<u8>)
    ensures
        sp_int(bs) matches Some(ir) ==> bs == ser_int(ir.0) + ir.1,
{
    match sp_int(bs) {
        None => {},
        Some(ir) => {
        let neg = bs.len() > 0 && bs[0] == 0x2d;
        let tail = if neg {
            bs.subrange(1, bs.len() as int)
        } else {
            bs
        };
        let k = digits_len(tail);
        let ds = tail.subrange(0, k);
        let rest = tail.subrange(k, tail.len() as int);
        crate::json_parse::lemma_digits_len_bounds(tail);
        assert(forall|t: int| 0 <= t < ds.len() ==> is_digit_byte(#[trigger] ds[t]));
        lemma_dec_of_val(ds);
        assert(tail =~= ds + rest);
        if neg {
            assert(ser_int(ir.0) == seq![0x2du8] + dec_digits((-(ir.0 as int)) as nat));
            assert((-(ir.0 as int)) as nat == digits_val(ds));
            assert(bs =~= seq![0x2du8] + tail);
            assert(bs =~= ser_int(ir.0) + rest);
        } else {
            assert(ir.0 as nat == digits_val(ds));
            assert(bs =~= ser_int(ir.0) + rest);
        }
        },
    }
}

/// Whatever value the parser accepts re-serializes to the bytes it
/// consumed.
pub proof fn lemma_val_sound(bs: Seq<u8>, fuel: nat)
    ensures
        sp_val(bs, fuel) matches Some(vr) ==> bs == ser_jval(vr.0) + vr.1,
    decreases fuel, bs.len(), 0int,
{
    match sp_val(bs, fuel) {
        None => {},
        Some(vr) => {
        let b = bs[0];
        if b == 0x6e || b == 0x74 {
            assert(bs =~= ser_jval(vr.0) + bs.subrange(4, bs.len() as int));
        } else if b == 0x66 {
            assert(bs =~= ser_jval(vr.0) + bs.subrange(5, bs.len() as int));
        } else if b == 0x22 {
            let inner = bs.subrange(1, bs.len() as int);
            lemma_strbytes_sound(inner);
            let content = sp_strbytes(inner)->Some_0.0;
            decode_utf8_encode_utf8(content);
            assert(vr.0 == JVal::Str(vstd::utf8::decode_utf8(content)));
            assert(encode_utf8(vstd::utf8::decode_utf8(content)) == content);
            assert(bs =~= seq![0x22u8] + (esc(content) + seq![0x22u8] + vr.1));
            assert(bs =~= ser_jval(vr.0) + vr.1);
        } else if b == 0x5b {
            if bs.len() >= 2 && bs[1] == 0x5d {
                assert(ser_elems(Seq::<JVal>::empty()) =~= Seq::<u8>::empty());
                assert(bs =~= ser_jval(vr.0) + bs.subrange(2, bs.len() as int));
            } else {
                let inner = bs.subrange(1, bs.len() as int);
                lemma_elems_sound(inner, (fuel - 1) as nat);
                let er = sp_elems(inner, (fuel - 1) as nat)->Some_0;
                assert(inner == ser_elems(er.0) + seq![0x5du8] + er.1);
                assert(bs =~= seq![0x5bu8] + inner);
                assert(bs =~= (seq![0x5bu8] + ser_elems(er.0) + seq![0x5du8]) + er.1);
            }
        } else if b == 0x7b {
            if bs.len() >= 2 && bs[1] == 0x7d {
                assert(ser_members(Seq::<(Seq<char>, JVal)>::empty()) =~= Seq::<u8>::empty());
                assert(bs =~= ser_jval(vr.0) + bs.subrange(2, bs.len() as int));
            } else {
                let inner = bs.subrange(1, bs.len() as int);
                lemma_members_sound(inner, (fuel - 1) as nat);
                let mr = sp_members(inner, (fuel - 1) as nat)->Some_0;
                assert(inner == ser_members(mr.0) + seq![0x7du8] + mr.1);
                assert(bs =~= seq![0x7bu8] + inner);
                assert(bs =~= (seq![0x7bu8] + ser_members(mr.0) + seq![0x7du8]) + mr.1);
            }
        } else {
            lemma_int_sound(bs);
        }
        },
    }
}

/// Whatever element list the parser accepts re-serializes, with its
/// closing bracket, to the bytes it consumed.
proof fn lemma_elems_sound(bs: Seq<u8>, fuel: nat)
    ensures
        sp_elems(bs, fuel) matches Some(er) ==> er.0.len() >= 1 && bs == ser_elems(er.0) + seq![
            0x5du8,
        ] + er.1,
    decreases fuel, bs.len(), 1int,
{
    match sp_elems(bs, fuel) {
        None => {},
        Some(er) => {
        lemma_val_sound(bs, fuel);
        let vr = sp_val(bs, fuel)->Some_0;
        let v = vr.0;
        let rest = vr.1;
        if rest.len() >= 1 && rest[0] == 0x2c {
            let inner = rest.subrange(1, rest.len() as int);
            lemma_elems_sound(inner, fuel);
            let ir = sp_elems(inner, fuel)->Some_0;
            assert(er.0 == seq![v] + ir.0);
            assert(er.0.len() >= 2);
            assert(er.0[0] == v);
            assert(er.0.subrange(1, er.0.len() as int) =~= ir.0);
            assert(ser_elems(er.0) == ser_jval(v) + seq![0x2cu8] + ser_elems(ir.0));
            assert(rest =~= seq![0x2cu8] + inner);
            assert(bs =~= (ser_jval(v) + seq![0x2cu8] + ser_elems(ir.0)) + seq![0x5du8] + ir.1);
        } else {
            assert(er.0 == seq![v]);
            assert(ser_elems(er.0) == ser_jval(v));
            assert(rest =~= seq![0x5du8] + rest.subrange(1, rest.len() as int));
            assert(bs =~= ser_jval(v) + seq![0x5du8] + rest.subrange(1, rest.len() as int));
        }
        },
    }
}

/// Whatever member list the parser accepts re-serializes, with its
/// closing brace, to the bytes it consumed.
#[verifier::rlimit(100)]
proof fn lemma_members_sound(bs: Seq<u8>, fuel: nat)
    ensures
        sp_members(bs, fuel) matches Some(mr) ==> mr.0.len() >= 1 && bs == ser_members(mr.0)
            + seq![0x7du8] + mr.1,
    decreases fuel, bs.len(), 1int,
{
    match sp_members(bs, fuel) {
        None => {},
        Some(mr) => {
        let keytail = bs.subrange(1, bs.len() as int);
        lemma_strbytes_sound(keytail);
        let sr = sp_strbytes(keytail)->Some_0;
        let content = sr.0;
        let r1 = sr.1;
        let key = vstd::utf8::decode_utf8(content);
        decode_utf8_encode_utf8(content);
        assert(encode_utf8(key) == content);
        let r1t = r1.subrange(1, r1.len() as int);
        lemma_val_sound(r1t, fuel);
        let vr = sp_val(r1t, fuel)->Some_0;
        let v = vr.0;
        let r2 = vr.1;
        assert(ser_member((key, v)) =~= seq![0x22u8] + esc(content) + seq![0x22u8, 0x3au8]
            + ser_jval(v));
        assert(bs =~= seq![0x22u8] + (esc(content) + seq![0x22u8] + r1));
        assert(r1 =~= seq![0x3au8] + r1t);
        assert(r1t == ser_jval(v) + r2);
        assert(bs =~= ser_member((key, v)) + r2);
        if r2.len() >= 1 && r2[0] == 0x2c {
            let inner = r2.subrange(1, r2.len() as int);
            lemma_members_sound(inner, fuel);
            let ir = sp_members(inner, fuel)->Some_0;
            assert(mr.0 == seq![(key, v)] + ir.0);
            assert(mr.0.len() >= 2);
            assert(mr.0[0] == (key, v));
            assert(mr.0.subrange(1, mr.0.len() as int) =~= ir.0);
            assert(ser_members(mr.0) == ser_member((key, v)) + seq![0x2cu8] + ser_members(ir.0));
            assert(r2 =~= seq![0x2cu8] + inner);
            assert(bs =~= (ser_member((key, v)) + seq![0x2cu8] + ser_members(ir.0)) + seq![0x7du8]
                + ir.1);
        } else {
            assert(mr.0 == seq![(key, v)]);
            assert(ser_members(mr.0) == ser_member((key, v)));
            assert(r2 =~= seq![0x7du8] + r2.subrange(1, r2.len() as int));
            assert(bs =~= ser_member((key, v)) + seq![0x7du8] + r2.subrange(1, r2.len() as int));
        }
        },
    }
}

/// Whatever document the parser accepts is the canonical encoding of the
/// value it returns.
pub proof fn lemma_json_sound(bs: Seq<u8>)
    ensures
        sp_json(bs) matches Some(v) ==> bs == ser_jval(v),
{
    match sp_json(bs) {
        None => {},
        Some(v) => {
            lemma_val_sound(bs, bs.len() as nat);
            let vr = sp_val(bs, bs.len() as nat)->Some_0;
            assert(bs =~= ser_jval(vr.0) + vr.1);
        },
    }
}

} // verus!
