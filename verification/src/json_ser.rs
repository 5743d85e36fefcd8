//! Canonical JSON encoding.
//!
//! [`ser_jval`] fixes one byte encoding for every [`JVal`]: no whitespace,
//! object members in stored order, `i64` integers in shortest decimal form,
//! and strings as UTF-8 with `"`, `\` and control bytes escaped.  The writer
//! [`to_json_bytes`] produces exactly this encoding.

use vstd::prelude::*;
use vstd::utf8::encode_utf8;

use crate::json::{jpairs_of, jval_of, jvals_of, lemma_jpairs_of, lemma_jvals_of, JVal, JsonValue};

verus! {

/// True when `b` is the code of an ASCII decimal digit.
pub open spec fn is_digit_byte(b: u8) -> bool {
    0x30 <= b <= 0x39
}

/// Lowercase hexadecimal digit for a nibble value.
pub open spec fn hex_byte(d: nat) -> u8
    recommends
        d < 16,
{
    if d < 10 {
        (0x30 + d) as u8
    } else {
        (0x57 + d) as u8
    }
}

/// Encoding of one string byte: quote and backslash get a two-byte escape,
/// control bytes a six-byte `\u00..` escape, everything else stands as is.
pub open spec fn esc_byte(b: u8) -> Seq<u8> {
    if b == 0x22 {
        seq![0x5cu8, 0x22u8]
    } else if b == 0x5c {
        seq![0x5cu8, 0x5cu8]
    } else if b < 0x20 {
        seq![0x5cu8, 0x75u8, 0x30u8, 0x30u8, hex_byte((b / 16) as nat), hex_byte((b % 16) as nat)]
    } else {
        seq![b]
    }
}

/// Escaped form of a whole byte string.
pub open spec fn esc(bs: Seq<u8>) -> Seq<u8>
    decreases bs.len(),
{
    if bs.len() == 0 {
        Seq::empty()
    } else {
        esc_byte(bs[0]) + esc(bs.subrange(1, bs.len() as int))
    }
}

/// Decimal digits of `n`, most significant first, no leading zeros.
pub open spec fn dec_digits(n: nat) -> Seq<u8>
    decreases n,
{
    if n < 10 {
        seq![(0x30 + n) as u8]
    } else {
        dec_digits(n / 10) + seq![(0x30 + n % 10) as u8]
    }
}

/// Decimal encoding of a signed integer.
pub open spec fn ser_int(i: i64) -> Seq<u8> {
    if i < 0 {
        seq![0x2du8] + dec_digits((-(i as int)) as nat)
    } else {
        dec_digits(i as nat)
    }
}

/// The canonical byte encoding of a JSON value.
pub open spec fn ser_jval(v: JVal) -> Seq<u8>
    decreases v,
{
    match v {
        JVal::Null => seq![0x6eu8, 0x75u8, 0x6cu8, 0x6cu8],
        JVal::Bool(b) => if b {
            seq![0x74u8, 0x72u8, 0x75u8, 0x65u8]
        } else {
            seq![0x66u8, 0x61u8, 0x6cu8, 0x73u8, 0x65u8]
        },
        JVal::Int(i) => ser_int(i),
        JVal::Str(s) => seq![0x22u8] + esc(encode_utf8(s)) + seq![0x22u8],
        JVal::Arr(es) => seq![0x5bu8] + ser_elems(es) + seq![0x5du8],
        JVal::Obj(ps) => seq![0x7bu8] + ser_members(ps) + seq![0x7du8],
    }
}

/// Comma-separated encodings of array elements.
pub open spec fn ser_elems(es: Seq<JVal>) -> Seq<u8>
    decreases es,
{
    if es.len() == 0 {
        Seq::empty()
    } else if es.len() == 1 {
        ser_jval(es[0])
    } else {
        proof {
            assert(decreases_to!(es => es.subrange(1, es.len() as int)));
        }
        ser_jval(es[0]) + seq![0x2cu8] + ser_elems(es.subrange(1, es.len() as int))
    }
}

/// One object member: quoted escaped key, colon, value.
pub open spec fn ser_member(p: (Seq<char>, JVal)) -> Seq<u8>
    decreases p,
{
    proof {
        assert(decreases_to!(p => p.1));
    }
    seq![0x22u8] + esc(encode_utf8(p.0)) + seq![0x22u8, 0x3au8] + ser_jval(p.1)
}

/// Comma-separated encodings of object members.
pub open spec fn ser_members(ps: Seq<(Seq<char>, JVal)>) -> Seq<u8>
    decreases ps,
{
    if ps.len() == 0 {
        Seq::empty()
    } else if ps.len() == 1 {
        proof {
            assert(decreases_to!(ps => ps[0]));
            assert(decreases_to!(ps[0] => ps[0].1));
        }
        ser_member(ps[0])
    } else {
        proof {
            assert(decreases_to!(ps => ps[0]));
            assert(decreases_to!(ps[0] => ps[0].1));
            assert(decreases_to!(ps => ps.subrange(1, ps.len() as int)));
        }
        ser_member(ps[0]) + seq![0x2cu8] + ser_members(ps.subrange(1, ps.len() as int))
    }
}

/// Escaping distributes over extension at the end.
pub proof fn lemma_esc_snoc(bs: Seq<u8>, b: u8)
    ensures
        esc(bs.push(b)) == esc(bs) + esc_byte(b),
    decreases bs.len(),
{
    if bs.len() == 0 {
        let s1 = bs.push(b);
        assert(s1[0] == b);
        assert(s1.subrange(1, 1) =~= Seq::<u8>::empty());
        assert(esc(s1) == esc_byte(b) + esc(s1.subrange(1, 1)));
        assert(esc(s1.subrange(1, 1)) == Seq::<u8>::empty());
        assert(esc(bs.push(b)) =~= esc(bs) + esc_byte(b));
    } else {
        assert(bs.push(b).subrange(1, bs.len() as int + 1) =~= bs.subrange(1, bs.len() as int).push(b));
        lemma_esc_snoc(bs.subrange(1, bs.len() as int), b);
        assert(esc(bs.push(b)) =~= esc(bs) + esc_byte(b));
    }
}

/// Element encoding distributes over extension at the end.
pub proof fn lemma_ser_elems_snoc(es: Seq<JVal>, v: JVal)
    ensures
        ser_elems(es.push(v)) == if es.len() == 0 {
            ser_jval(v)
        } else {
            ser_elems(es) + seq![0x2cu8] + ser_jval(v)
        },
    decreases es.len(),
{
    if es.len() == 0 {
        assert(es.push(v)[0] == v);
    } else {
        assert(es.push(v).subrange(1, es.len() as int + 1) =~= es.subrange(1, es.len() as int).push(v));
        lemma_ser_elems_snoc(es.subrange(1, es.len() as int), v);
        if es.len() == 1 {
            assert(ser_elems(es.push(v)) =~= ser_elems(es) + seq![0x2cu8] + ser_jval(v));
        } else {
            assert(ser_elems(es.push(v)) =~= ser_elems(es) + seq![0x2cu8] + ser_jval(v));
        }
    }
}

/// Member encoding distributes over extension at the end.
pub proof fn lemma_ser_members_snoc(ps: Seq<(Seq<char>, JVal)>, p: (Seq<char>, JVal))
    ensures
        ser_members(ps.push(p)) == if ps.len() == 0 {
            ser_member(p)
        } else {
            ser_members(ps) + seq![0x2cu8] + ser_member(p)
        },
    decreases ps.len(),
{
    if ps.len() == 0 {
        assert(ps.push(p)[0] == p);
    } else {
        assert(ps.push(p).subrange(1, ps.len() as int + 1) =~= ps.subrange(1, ps.len() as int).push(p));
        lemma_ser_members_snoc(ps.subrange(1, ps.len() as int), p);
        assert(ser_members(ps.push(p)) =~= ser_members(ps) + seq![0x2cu8] + ser_member(p));
    }
}

/// Appends the escaped bytes of `s` to `out`.
#[verifier::loop_isolation(false)]
fn write_escaped(s: &str, out: &mut Vec<u8>)
    ensures
        final(out)@ == old(out)@ + esc(encode_utf8(s@)),
{
    let bs = s.as_bytes();
    let n = bs.len();
    proof {
        assert(bs@.subrange(0, 0) =~= Seq::<u8>::empty());
        assert(out@ =~= out@ + esc(bs@.subrange(0, 0)));
    }
    for i in 0..n
        invariant
            out@ == old(out)@ + esc(bs@.subrange(0, i as int)),
    {
        let b = bs[i];
        if b == 0x22 {
            out.push(0x5c);
            out.push(0x22);
        } else if b == 0x5c {
            out.push(0x5c);
            out.push(0x5c);
        } else if b < 0x20 {
            out.push(0x5c);
            out.push(0x75);
            out.push(0x30);
            out.push(0x30);
            let hi = b / 16;
            let lo = b % 16;
            out.push(if hi < 10 { 0x30 + hi } else { 0x57 + hi });
            out.push(if lo < 10 { 0x30 + lo } else { 0x57 + lo });
        } else {
            out.push(b);
        }
        proof {
            assert(bs@.subrange(0, i + 1) =~= bs@.subrange(0, i as int).push(bs@[i as int]));
            lemma_esc_snoc(bs@.subrange(0, i as int), bs@[i as int]);
            assert(out@ =~= old(out)@ + esc(bs@.subrange(0, i + 1)));
        }
    }
    proof {
        assert(bs@.subrange(0, n as int) =~= bs@);
    }
}

/// Appends the decimal digits of `n` to `out`.
fn write_u64(n: u64, out: &mut Vec<u8>)
    ensures
        final(out)@ == old(out)@ + dec_digits(n as nat),
    decreases n,
{
    if n < 10 {
        out.push(0x30 + (n as u8));
    } else {
        write_u64(n / 10, out);
        out.push(0x30 + ((n % 10) as u8));
    }
}

/// Appends the decimal encoding of `i` to `out`.
fn write_int(i: i64, out: &mut Vec<u8>)
    ensures
        final(out)@ == old(out)@ + ser_int(i),
{
    if i >= 0 {
        write_u64(i as u64, out);
    } else if i == i64::MIN {
        out.push(0x2d);
        write_u64(9223372036854775808u64, out);
        proof {
            assert(out@ =~= old(out)@ + ser_int(i));
        }
    } else {
        out.push(0x2d);
        write_u64((-i) as u64, out);
        proof {
            assert(out@ =~= old(out)@ + ser_int(i));
        }
    }
}

/// Appends the canonical encoding of `v` to `out`.
#[verifier::loop_isolation(false)]
#[verifier::rlimit(60)]
pub fn write_value(v: &JsonValue, out: &mut Vec<u8>)
    ensures
        final(out)@ == old(out)@ + ser_jval(v@),
    decreases v,
{
    match v {
        JsonValue::Null => {
            out.push(0x6e);
            out.push(0x75);
            out.push(0x6c);
            out.push(0x6c);
            proof {
                assert(out@ =~= old(out)@ + ser_jval(v@));
            }
        },
        JsonValue::Bool(b) => {
            if *b {
                out.push(0x74);
                out.push(0x72);
                out.push(0x75);
                out.push(0x65);
            } else {
                out.push(0x66);
                out.push(0x61);
                out.push(0x6c);
                out.push(0x73);
                out.push(0x65);
            }
            proof {
                assert(out@ =~= old(out)@ + ser_jval(v@));
            }
        },
        JsonValue::Int(i) => {
            write_int(*i, out);
        },
        JsonValue::Str(s) => {
            out.push(0x22);
            write_escaped(s.as_str(), out);
            out.push(0x22);
            proof {
                assert(out@ =~= old(out)@ + ser_jval(v@));
            }
        },
        JsonValue::Arr(es) => {
            out.push(0x5b);
            let ghost base = out@;
            let n = es.len();
            proof {
                lemma_jvals_of(es@);
                assert(jvals_of(es@.subrange(0, 0)) =~= Seq::<JVal>::empty());
                assert(base =~= base + ser_elems(jvals_of(es@.subrange(0, 0))));
            }
            for j in 0..n
                invariant
                    out@ == base + ser_elems(jvals_of(es@.subrange(0, j as int))),
            {
                if j > 0 {
                    out.push(0x2c);
                }
                proof {
                    assert(decreases_to!(*v => (*v)->Arr_0));
                    assert(decreases_to!((*v)->Arr_0 => (*v)->Arr_0@));
                    assert(decreases_to!(es@ => es@[j as int]));
                }
                write_value(&es[j], out);
                proof {
                    lemma_jvals_of(es@.subrange(0, j as int));
                    lemma_jvals_of(es@.subrange(0, j + 1));
                    assert(jvals_of(es@.subrange(0, j + 1)) =~= jvals_of(
                        es@.subrange(0, j as int),
                    ).push(jval_of(es@[j as int])));
                    lemma_ser_elems_snoc(jvals_of(es@.subrange(0, j as int)), jval_of(es@[j as int]));
                    assert(out@ =~= base + ser_elems(jvals_of(es@.subrange(0, j + 1))));
                }
            }
            out.push(0x5d);
            proof {
                assert(es@.subrange(0, es@.len() as int) =~= es@);
                assert(out@ =~= old(out)@ + ser_jval(v@));
            }
        },
        JsonValue::Obj(ps) => {
            out.push(0x7b);
            let ghost base = out@;
            let n = ps.len();
            proof {
                lemma_jpairs_of(ps@);
                assert(jpairs_of(ps@.subrange(0, 0)) =~= Seq::<(Seq<char>, JVal)>::empty());
                assert(base =~= base + ser_members(jpairs_of(ps@.subrange(0, 0))));
            }
            for j in 0..n
                invariant
                    out@ == base + ser_members(jpairs_of(ps@.subrange(0, j as int))),
            {
                if j > 0 {
                    out.push(0x2c);
                }
                out.push(0x22);
                write_escaped(ps[j].0.as_str(), out);
                out.push(0x22);
                out.push(0x3a);
                proof {
                    assert(decreases_to!(*v => (*v)->Obj_0));
                    assert(decreases_to!((*v)->Obj_0 => (*v)->Obj_0@));
                    assert(decreases_to!(ps@ => ps@[j as int]));
                    assert(decreases_to!(ps@[j as int] => ps@[j as int].1));
                }
                write_value(&ps[j].1, out);
                proof {
                    lemma_jpairs_of(ps@.subrange(0, j as int));
                    lemma_jpairs_of(ps@.subrange(0, j + 1));
                    assert(jpairs_of(ps@.subrange(0, j + 1)) =~= jpairs_of(
                        ps@.subrange(0, j as int),
                    ).push((ps@[j as int].0@, jval_of(ps@[j as int].1))));
                    lemma_ser_members_snoc(
                        jpairs_of(ps@.subrange(0, j as int)),
                        (ps@[j as int].0@, jval_of(ps@[j as int].1)),
                    );
                    assert(out@ =~= base + ser_members(jpairs_of(ps@.subrange(0, j + 1))));
                }
            }
            out.push(0x7d);
            proof {
                assert(ps@.subrange(0, ps@.len() as int) =~= ps@);
                assert(out@ =~= old(out)@ + ser_jval(v@));
            }
        },
    }
}

/// The canonical encoding of `v` as a fresh byte vector.
pub fn to_json_bytes(v: &JsonValue) -> (r: Vec<u8>)
    ensures
        r@ == ser_jval(v@),
{
    let mut out: Vec<u8> = Vec::new();
    write_value(v, &mut out);
    out
}

} // verus!
