//! A small JSON document model.
//!
//! Session payloads are dynamically typed key/value bags, so the library
//! carries its own JSON value type.  Integers are kept as `i64`; this model
//! has no floating-point numbers.  The mathematical counterpart of a
//! [`JsonValue`] is [`JVal`], which speaks of character and value sequences
//! instead of heap types.

use vstd::prelude::*;

verus! {

/// A JSON value: the dynamic content of one session entry.
#[derive(Debug, PartialEq)]
pub enum JsonValue {
    Null,
    Bool(bool),
    Int(i64),
    Str(String),
    Arr(Vec<JsonValue>),
    Obj(Vec<(String, JsonValue)>),
}

/// The mathematical shape of a [`JsonValue`].
#[verifier::ext_equal]
pub enum JVal {
    Null,
    Bool(bool),
    Int(i64),
    Str(Seq<char>),
    Arr(Seq<JVal>),
    Obj(Seq<(Seq<char>, JVal)>),
}

/// The abstraction of a [`JsonValue`]: structure with views of its strings.
pub open spec fn jval_of(v: JsonValue) -> JVal
    decreases v,
{
    match v {
        JsonValue::Null => JVal::Null,
        JsonValue::Bool(b) => JVal::Bool(b),
        JsonValue::Int(i) => JVal::Int(i),
        JsonValue::Str(s) => JVal::Str(s@),
        JsonValue::Arr(es) => {
            proof {
                assert(decreases_to!(v => v->Arr_0));
                assert(decreases_to!(v->Arr_0 => v->Arr_0@));
            }
            JVal::Arr(jvals_of(es@))
        },
        JsonValue::Obj(ps) => {
            proof {
                assert(decreases_to!(v => v->Obj_0));
                assert(decreases_to!(v->Obj_0 => v->Obj_0@));
            }
            JVal::Obj(jpairs_of(ps@))
        },
    }
}

/// Elementwise abstraction of a sequence of values.
pub open spec fn jvals_of(es: Seq<JsonValue>) -> Seq<JVal>
    decreases es,
{
    if es.len() == 0 {
        Seq::empty()
    } else {
        proof {
            assert(decreases_to!(es => es.subrange(1, es.len() as int)));
        }
        seq![jval_of(es[0])] + jvals_of(es.subrange(1, es.len() as int))
    }
}

/// Elementwise abstraction of a sequence of key/value pairs.
pub open spec fn jpairs_of(ps: Seq<(String, JsonValue)>) -> Seq<(Seq<char>, JVal)>
    decreases ps,
{
    if ps.len() == 0 {
        Seq::empty()
    } else {
        proof {
            assert(decreases_to!(ps => ps[0]));
            assert(decreases_to!(ps[0] => ps[0].1));
            assert(decreases_to!(ps => ps.subrange(1, ps.len() as int)));
        }
        seq![(ps[0].0@, jval_of(ps[0].1))] + jpairs_of(ps.subrange(1, ps.len() as int))
    }
}

impl View for JsonValue {
    type V = JVal;

    open spec fn view(&self) -> JVal {
        jval_of(*self)
    }
}

/// `jvals_of` maps the abstraction over the sequence, element by element.
pub proof fn lemma_jvals_of(es: Seq<JsonValue>)
    ensures
        jvals_of(es).len() == es.len(),
        forall|i: int| 0 <= i < es.len() ==> #[trigger] jvals_of(es)[i] == jval_of(es[i]),
    decreases es.len(),
{
    if es.len() > 0 {
        lemma_jvals_of(es.subrange(1, es.len() as int));
    }
}

/// `jpairs_of` maps the abstraction over the pairs, element by element.
pub proof fn lemma_jpairs_of(ps: Seq<(String, JsonValue)>)
    ensures
        jpairs_of(ps).len() == ps.len(),
        forall|i: int|
            0 <= i < ps.len() ==> #[trigger] jpairs_of(ps)[i] == (ps[i].0@, jval_of(ps[i].1)),
    decreases ps.len(),
{
    if ps.len() > 0 {
        lemma_jpairs_of(ps.subrange(1, ps.len() as int));
    }
}

/// Structural copy of a value; the copy has the same abstraction.
#[verifier::loop_isolation(false)]
pub fn clone_value(v: &JsonValue) -> (r: JsonValue)
    ensures
        r@ == v@,
    decreases v,
{
    match v {
        JsonValue::Null => JsonValue::Null,
        JsonValue::Bool(b) => JsonValue::Bool(*b),
        JsonValue::Int(i) => JsonValue::Int(*i),
        JsonValue::Str(s) => JsonValue::Str(s.clone()),
        JsonValue::Arr(es) => {
            let mut out: Vec<JsonValue> = Vec::new();
            let n = es.len();
            for j in 0..n
                invariant
                    n == es@.len(),
                    out@.len() == j,
                    forall|k: int| 0 <= k < j ==> out@[k]@ == #[trigger] es@[k]@,
            {
                proof {
                    assert(decreases_to!(*v => (*v)->Arr_0));
                    assert(decreases_to!((*v)->Arr_0 => (*v)->Arr_0@));
                    assert(decreases_to!(es@ => es@[j as int]));
                }
                let e = clone_value(&es[j]);
                out.push(e);
            }
            proof {
                lemma_jvals_of(out@);
                lemma_jvals_of(es@);
                assert forall|i: int| 0 <= i < es@.len() implies jvals_of(out@)[i] == jvals_of(
                    es@,
                )[i] by {
                    assert(out@[i]@ == es@[i]@);
                }
                assert(jvals_of(out@) =~= jvals_of(es@));
            }
            JsonValue::Arr(out)
        },
        JsonValue::Obj(ps) => {
            let mut out: Vec<(String, JsonValue)> = Vec::new();
            let n = ps.len();
            for j in 0..n
                invariant
                    n == ps@.len(),
                    out@.len() == j,
                    forall|k: int|
                        0 <= k < j ==> out@[k].0@ == #[trigger] ps@[k].0@ && out@[k].1@
                            == ps@[k].1@,
            {
                proof {
                    assert(decreases_to!(*v => (*v)->Obj_0));
                    assert(decreases_to!((*v)->Obj_0 => (*v)->Obj_0@));
                    assert(decreases_to!(ps@ => ps@[j as int]));
                    assert(decreases_to!(ps@[j as int] => ps@[j as int].1));
                }
                let key = ps[j].0.clone();
                let val = clone_value(&ps[j].1);
                out.push((key, val));
            }
            proof {
                lemma_jpairs_of(out@);
                lemma_jpairs_of(ps@);
                assert(jpairs_of(out@) =~= jpairs_of(ps@));
            }
            JsonValue::Obj(out)
        },
    }
}

} // verus!
