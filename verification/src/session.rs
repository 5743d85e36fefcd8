//! Session data and the session error taxonomy.
//!
//! A session is a bag of string keys and JSON values with a `modified`
//! flag.  Reading never touches the flag; `set`, `remove` and `clear`
//! raise it unconditionally.  Keys are unique; the bag keeps insertion
//! order, which also fixes its canonical wire encoding.

use vstd::prelude::*;
use vstd::string::StringExecFns;

use crate::json::{clone_value, jpairs_of, jval_of, lemma_jpairs_of, JVal, JsonValue};
use crate::json_parse::{parse_json_bytes, sp_json};
use crate::json_rt::lemma_parse_of_ser;
use crate::json_sound::lemma_json_sound;
use crate::json_ser::{ser_jval, to_json_bytes};
use crate::strutil::str_eq;

verus! {

/// An opaque session handle or token, exchanged with the client.
pub type SessionId = String;

/// Failures a session store can report.
///
/// `Invalid` marks a token that is malformed or fails verification;
/// `Serialization` marks a payload that cannot be encoded or decoded;
/// `Storage` is reserved for backends with real storage faults; `Expired`
/// is reserved for time-based invalidation.  Neither reserved kind is
/// produced by the two stores in this crate.
#[derive(Debug, Clone, PartialEq, Eq)]
pub enum SessionError {
    Serialization(String),
    Storage(String),
    Expired,
    Invalid,
}

/// A key/value bag with a modification flag.
#[derive(Debug, PartialEq)]
pub struct SessionData {
    pub data: Vec<(String, JsonValue)>,
    pub modified: bool,
}

/// The abstraction of a [`SessionData`].
#[verifier::ext_equal]
pub struct SdView {
    pub pairs: Seq<(Seq<char>, JVal)>,
    pub modified: bool,
}

impl View for SessionData {
    type V = SdView;

    open spec fn view(&self) -> SdView {
        SdView { pairs: jpairs_of(self.data@), modified: self.modified }
    }
}

/// Index of the first pair with key `k`, or `-1` when there is none.
pub open spec fn key_index(pairs: Seq<(Seq<char>, JVal)>, k: Seq<char>) -> int
    decreases pairs.len(),
{
    if pairs.len() == 0 {
        -1
    } else if pairs[0].0 == k {
        0
    } else {
        let r = key_index(pairs.subrange(1, pairs.len() as int), k);
        if r == -1 {
            -1
        } else {
            1 + r
        }
    }
}

/// What `key_index` finds: the first pair with the key, if any.
pub proof fn lemma_key_index(pairs: Seq<(Seq<char>, JVal)>, k: Seq<char>)
    ensures
        -1 <= key_index(pairs, k) < pairs.len(),
        key_index(pairs, k) == -1 <==> (forall|i: int|
            0 <= i < pairs.len() ==> #[trigger] pairs[i].0 != k),
        key_index(pairs, k) >= 0 ==> pairs[key_index(pairs, k)].0 == k,
        forall|t: int| 0 <= t < key_index(pairs, k) ==> #[trigger] pairs[t].0 != k,
    decreases pairs.len(),
{
    if pairs.len() > 0 {
        let tail = pairs.subrange(1, pairs.len() as int);
        lemma_key_index(tail, k);
        assert(forall|i: int| 1 <= i < pairs.len() ==> #[trigger] pairs[i] == tail[i - 1]);
        if pairs[0].0 != k {
            if key_index(tail, k) == -1 {
                assert forall|i: int| 0 <= i < pairs.len() implies #[trigger] pairs[i].0 != k by {
                    if i >= 1 {
                        assert(tail[i - 1].0 != k);
                    }
                }
            } else {
                assert forall|t: int|
                    0 <= t < key_index(pairs, k) implies #[trigger] pairs[t].0 != k by {
                    if t >= 1 {
                        assert(tail[t - 1].0 != k);
                    }
                }
            }
        }
    }
}

impl SdView {
    /// Keys are pairwise distinct.
    pub open spec fn wf(self) -> bool {
        forall|i: int, j: int|
            0 <= i < j < self.pairs.len() ==> #[trigger] self.pairs[i].0
                != #[trigger] self.pairs[j].0
    }

    /// True when some pair holds the key.
    pub open spec fn has_key(self, k: Seq<char>) -> bool {
        key_index(self.pairs, k) >= 0
    }

    /// The value stored under the key.
    pub open spec fn val_of(self, k: Seq<char>) -> JVal
        recommends
            self.has_key(k),
    {
        self.pairs[key_index(self.pairs, k)].1
    }
}

impl SessionData {
    /// An empty, unmodified session.
    pub fn new() -> (r: SessionData)
        ensures
            r@.pairs == Seq::<(Seq<char>, JVal)>::empty(),
            !r@.modified,
            r@.wf(),
    {
        SessionData { data: Vec::new(), modified: false }
    }

    /// A reading of the stored value: the value under `key`, or nothing
    /// when the key is absent.  Reading never sets `modified`.
    #[verifier::loop_isolation(false)]
    pub fn get(&self, key: &str) -> (r: Option<&JsonValue>)
        ensures
            r is Some <==> self@.has_key(key@),
            r matches Some(v) ==> v@ == self@.val_of(key@),
    {
        let n = self.data.len();
        proof {
            lemma_jpairs_of(self.data@);
            lemma_key_index(self@.pairs, key@);
        }
        for i in 0..n
            invariant
                n == self.data@.len(),
                forall|t: int| 0 <= t < i ==> #[trigger] self@.pairs[t].0 != key@,
        {
            proof {
                lemma_jpairs_of(self.data@);
            }
            if str_eq(self.data[i].0.as_str(), key) {
                proof {
                    assert(self@.pairs[i as int].0 == key@);
                    assert(key_index(self@.pairs, key@) == i);
                }
                return Some(&self.data[i].1);
            }
            proof {
                assert(self@.pairs[i as int].0 != key@);
            }
        }
        None
    }

    /// Typed reading as a string; absent or differently shaped values
    /// read as nothing, never as an error.
    pub fn get_str(&self, key: &str) -> (r: Option<String>)
        ensures
            r is Some <==> self@.has_key(key@) && self@.val_of(key@) is Str,
            r matches Some(s) ==> s@ == self@.val_of(key@)->Str_0,
    {
        match self.get(key) {
            Some(JsonValue::Str(s)) => Some(s.clone()),
            _ => None,
        }
    }

    /// Typed reading as an integer; soft-fails like [`Self::get_str`].
    pub fn get_i64(&self, key: &str) -> (r: Option<i64>)
        ensures
            r is Some <==> self@.has_key(key@) && self@.val_of(key@) is Int,
            r matches Some(i) ==> i == self@.val_of(key@)->Int_0,
    {
        match self.get(key) {
            Some(JsonValue::Int(i)) => Some(*i),
            _ => None,
        }
    }

    /// Typed reading as a boolean; soft-fails like [`Self::get_str`].
    pub fn get_bool(&self, key: &str) -> (r: Option<bool>)
        ensures
            r is Some <==> self@.has_key(key@) && self@.val_of(key@) is Bool,
            r matches Some(b) ==> b == self@.val_of(key@)->Bool_0,
    {
        match self.get(key) {
            Some(JsonValue::Bool(b)) => Some(*b),
            _ => None,
        }
    }

    /// Stores `value` under `key`, replacing in place or appending, and
    /// marks the session modified.
    #[verifier::loop_isolation(false)]
    pub fn set(&mut self, key: &str, value: JsonValue)
        requires
            old(self)@.wf(),
        ensures
            final(self)@.wf(),
            final(self)@.modified,
            final(self)@.has_key(key@),
            final(self)@.val_of(key@) == value@,
            ({
                let ki = key_index(old(self)@.pairs, key@);
                if ki >= 0 {
                    final(self)@.pairs == old(self)@.pairs.update(ki, (key@, value@))
                } else {
                    final(self)@.pairs == old(self)@.pairs.push((key@, value@))
                }
            }),
    {
        let ghost opairs = self@.pairs;
        let n = self.data.len();
        proof {
            lemma_jpairs_of(self.data@);
            lemma_key_index(opairs, key@);
        }
        let mut i: usize = 0;
        while i < n
            invariant
                n == self.data@.len(),
                self@.pairs == opairs,
                self@ == old(self)@,
                i <= n,
                forall|t: int| 0 <= t < i ==> #[trigger] opairs[t].0 != key@,
            decreases n - i,
        {
            proof {
                lemma_jpairs_of(self.data@);
            }
            if str_eq(self.data[i].0.as_str(), key) {
                proof {
                    assert(opairs[i as int].0 == key@);
                    assert(key_index(opairs, key@) == i);
                }
                let ghost exdata = self.data@;
                self.data.remove(i);
                self.data.insert(i, (String::from_str(key), value));
                self.modified = true;
                proof {
                    lemma_jpairs_of(self.data@);
                    lemma_jpairs_of(exdata);
                    assert(jpairs_of(exdata) == opairs);
                    assert(self.data@ =~= exdata.update(i as int, self.data@[i as int]));
                    assert(self.data@[i as int].0@ == key@);
                    assert forall|t: int|
                        0 <= t < self@.pairs.len() implies #[trigger] self@.pairs[t]
                        == opairs.update(i as int, (key@, value@))[t] by {
                        if t != i as int {
                            assert(self.data@[t] == exdata[t]);
                        }
                    }
                    assert(self@.pairs =~= opairs.update(i as int, (key@, value@)));
                    lemma_key_index(self@.pairs, key@);
                    assert(self@.pairs[i as int].0 == key@);
                    assert forall|t: int| 0 <= t < i implies self@.pairs[t].0 != key@ by {
                        assert(self@.pairs[t] == opairs[t]);
                    }
                    assert(key_index(self@.pairs, key@) >= 0);
                    assert(key_index(self@.pairs, key@) == i);
                    assert forall|a: int, b: int|
                        0 <= a < b < self@.pairs.len() implies #[trigger] self@.pairs[a].0
                        != #[trigger] self@.pairs[b].0 by {
                        assert(old(self)@.pairs[a].0 != old(self)@.pairs[b].0);
                    }
                }
                return ;
            }
            proof {
                assert(opairs[i as int].0 != key@);
            }
            i = i + 1;
        }
        proof {
            assert(key_index(opairs, key@) == -1);
        }
        let ghost exdata = self.data@;
        self.data.push((String::from_str(key), value));
        self.modified = true;
        proof {
            lemma_jpairs_of(self.data@);
            lemma_jpairs_of(exdata);
            assert(jpairs_of(exdata) == opairs);
            assert(self.data@[opairs.len() as int].0@ == key@);
            assert forall|t: int|
                0 <= t < self@.pairs.len() implies #[trigger] self@.pairs[t] == opairs.push(
                (key@, value@),
            )[t] by {
                if t < opairs.len() {
                    assert(self.data@[t] == exdata[t]);
                }
            }
            assert(self@.pairs =~= opairs.push((key@, value@)));
            lemma_key_index(self@.pairs, key@);
            assert(self@.pairs[opairs.len() as int].0 == key@);
            assert(key_index(self@.pairs, key@) == opairs.len());
            assert forall|a: int, b: int|
                0 <= a < b < self@.pairs.len() implies #[trigger] self@.pairs[a].0
                != #[trigger] self@.pairs[b].0 by {
                if b < opairs.len() {
                    assert(old(self)@.pairs[a].0 != old(self)@.pairs[b].0);
                } else {
                    assert(opairs[a].0 != key@);
                }
            }
        }
    }

    /// Removes the pair under `key`, if any, and marks the session
    /// modified — whether or not the key was present.
    #[verifier::loop_isolation(false)]
    pub fn remove(&mut self, key: &str)
        requires
            old(self)@.wf(),
        ensures
            final(self)@.wf(),
            final(self)@.modified,
            !final(self)@.has_key(key@),
            ({
                let ki = key_index(old(self)@.pairs, key@);
                if ki >= 0 {
                    final(self)@.pairs == old(self)@.pairs.remove(ki)
                } else {
                    final(self)@.pairs == old(self)@.pairs
                }
            }),
    {
        let ghost opairs = self@.pairs;
        let n = self.data.len();
        proof {
            lemma_jpairs_of(self.data@);
            lemma_key_index(opairs, key@);
        }
        let mut i: usize = 0;
        while i < n
            invariant
                n == self.data@.len(),
                self@.pairs == opairs,
                self@ == old(self)@,
                i <= n,
                forall|t: int| 0 <= t < i ==> #[trigger] opairs[t].0 != key@,
            decreases n - i,
        {
            proof {
                lemma_jpairs_of(self.data@);
            }
            if str_eq(self.data[i].0.as_str(), key) {
                proof {
                    assert(opairs[i as int].0 == key@);
                    assert(key_index(opairs, key@) == i);
                }
                let ghost exdata = self.data@;
                self.data.remove(i);
                self.modified = true;
                proof {
                    lemma_jpairs_of(self.data@);
                    lemma_jpairs_of(exdata);
                    assert(jpairs_of(exdata) == opairs);
                    assert forall|t: int|
                        0 <= t < self@.pairs.len() implies #[trigger] self@.pairs[t]
                        == opairs.remove(i as int)[t] by {
                        if t < i as int {
                            assert(self.data@[t] == exdata[t]);
                        } else {
                            assert(self.data@[t] == exdata[t + 1]);
                        }
                    }
                    assert(self@.pairs =~= opairs.remove(i as int));
                    assert forall|a: int, b: int|
                        0 <= a < b < self@.pairs.len() implies #[trigger] self@.pairs[a].0
                        != #[trigger] self@.pairs[b].0 by {
                        let a0 = if a < i as int { a } else { a + 1 };
                        let b0 = if b < i as int { b } else { b + 1 };
                        assert(opairs[a0].0 != opairs[b0].0);
                    }
                    lemma_key_index(self@.pairs, key@);
                    assert forall|t: int|
                        0 <= t < self@.pairs.len() implies #[trigger] self@.pairs[t].0
                        != key@ by {
                        let t0 = if t < i as int { t } else { t + 1 };
                        assert(self@.pairs[t] == opairs[t0]);
                        if t0 != i as int {
                            assert(opairs[t0].0 != opairs[i as int].0);
                        }
                    }
                }
                return ;
            }
            proof {
                assert(opairs[i as int].0 != key@);
            }
            i = i + 1;
        }
        self.modified = true;
        proof {
            assert(key_index(opairs, key@) == -1);
            lemma_key_index(self@.pairs, key@);
        }
    }

    /// Empties the bag and marks the session modified.
    pub fn clear(&mut self)
        ensures
            final(self)@.wf(),
            final(self)@.modified,
            final(self)@.pairs == Seq::<(Seq<char>, JVal)>::empty(),
    {
        self.data.clear();
        self.modified = true;
        proof {
            lemma_jpairs_of(self.data@);
            assert(self@.pairs =~= Seq::<(Seq<char>, JVal)>::empty());
        }
    }
}

impl Default for SessionData {
    /// Same as [`SessionData::new`].
    fn default() -> (r: SessionData)
        ensures
            r@.pairs == Seq::<(Seq<char>, JVal)>::empty(),
            !r@.modified,
            r@.wf(),
    {
        SessionData::new()
    }
}

/// Structural copy of a session; the copy has the same abstraction.
#[verifier::loop_isolation(false)]
pub fn clone_session(s: &SessionData) -> (r: SessionData)
    ensures
        r@ == s@,
{
    let mut out: Vec<(String, JsonValue)> = Vec::new();
    let n = s.data.len();
    for j in 0..n
        invariant
            n == s.data@.len(),
            out@.len() == j,
            forall|k: int|
                0 <= k < j ==> out@[k].0@ == #[trigger] s.data@[k].0@ && out@[k].1@
                    == s.data@[k].1@,
    {
        let key = s.data[j].0.clone();
        let val = clone_value(&s.data[j].1);
        out.push((key, val));
    }
    proof {
        lemma_jpairs_of(out@);
        lemma_jpairs_of(s.data@);
        assert forall|i: int| 0 <= i < n implies jpairs_of(out@)[i] == jpairs_of(s.data@)[i] by {
            assert(out@[i].0@ == s.data@[i].0@);
            assert(out@[i].1@ == s.data@[i].1@);
        }
        assert(jpairs_of(out@) =~= jpairs_of(s.data@));
    }
    SessionData { data: out, modified: s.modified }
}

/// Keys of the bag are pairwise distinct.
pub open spec fn unique_keys(pairs: Seq<(Seq<char>, JVal)>) -> bool {
    forall|i: int, j: int|
        0 <= i < j < pairs.len() ==> #[trigger] pairs[i].0 != #[trigger] pairs[j].0
}

/// The session document as a JSON value: `{"data":{...},"modified":b}`.
pub open spec fn session_jval(s: SdView) -> JVal {
    JVal::Obj(
        seq![
            ("data"@, JVal::Obj(s.pairs)),
            ("modified"@, JVal::Bool(s.modified)),
        ],
    )
}

/// The canonical wire encoding of a session.
pub open spec fn ser_session(s: SdView) -> Seq<u8> {
    ser_jval(session_jval(s))
}

/// The sessions a byte string decodes to: the canonical encoding of
/// exactly one well-formed session, or nothing.
pub open spec fn sp_session(bs: Seq<u8>) -> Option<SdView> {
    match sp_json(bs) {
        Some(jv) => match jv {
            JVal::Obj(ps) => if ps.len() == 2 && ps[0].0 == "data"@ && ps[0].1 is Obj && ps[1].0
                == "modified"@ && ps[1].1 is Bool && unique_keys(ps[0].1->Obj_0) {
                Some(SdView { pairs: ps[0].1->Obj_0, modified: ps[1].1->Bool_0 })
            } else {
                None
            },
            _ => None,
        },
        None => None,
    }
}

/// Decoding inverts encoding: the canonical encoding of any well-formed
/// session decodes back to exactly that session.
pub proof fn lemma_session_round_trip(s: SdView)
    requires
        s.wf(),
    ensures
        sp_session(ser_session(s)) == Some(s),
{
    lemma_parse_of_ser(session_jval(s));
    assert(sp_session(ser_session(s)) matches Some(x) && x =~= s);
}

/// Decoding is strict: whatever bytes decode to a session are exactly
/// that session's canonical encoding, and the session is well formed.
pub proof fn lemma_session_sound(bs: Seq<u8>)
    ensures
        sp_session(bs) matches Some(s) ==> bs == ser_session(s) && s.wf(),
{
    match sp_session(bs) {
        None => {},
        Some(s) => {
            lemma_json_sound(bs);
            let jv = sp_json(bs)->Some_0;
            match jv {
                JVal::Obj(ps) => {
                    assert(ps[0].1 is Obj && ps[0].1->Obj_0 == s.pairs);
                    assert(ps[1].1 is Bool && ps[1].1->Bool_0 == s.modified);
                    assert(ps =~= seq![
                        ("data"@, JVal::Obj(s.pairs)),
                        ("modified"@, JVal::Bool(s.modified)),
                    ]);
                    assert(jv == session_jval(s));
                },
                _ => {},
            }
        },
    }
}

/// Encodes a session into its canonical bytes.
pub fn encode_session(s: &SessionData) -> (r: Vec<u8>)
    ensures
        r@ == ser_session(s@),
{
    let copy = clone_session(s);
    let mut members: Vec<(String, JsonValue)> = Vec::new();
    members.push((String::from_str("data"), JsonValue::Obj(copy.data)));
    members.push((String::from_str("modified"), JsonValue::Bool(copy.modified)));
    let doc = JsonValue::Obj(members);
    proof {
        lemma_jpairs_of(members@);
        assert(jpairs_of(members@) =~= session_jval(s@)->Obj_0);
        assert(doc@ =~= session_jval(s@));
    }
    to_json_bytes(&doc)
}

/// Decodes canonical bytes into a session, or nothing when the bytes are
/// not the canonical encoding of a well-formed session.
#[verifier::loop_isolation(false)]
pub fn decode_session(bytes: &Vec<u8>) -> (r: Option<SessionData>)
    ensures
        r is Some <==> sp_session(bytes@) is Some,
        r matches Some(sd) ==> sp_session(bytes@) == Some(sd@) && sd@.wf(),
{
    let parsed = match parse_json_bytes(bytes) {
        Some(v) => v,
        None => {
            return None;
        },
    };
    let ghost docv = parsed@;
    let (dkey, dval, mkey, mval) = match parsed {
        JsonValue::Obj(mut ps) => {
            proof {
                lemma_jpairs_of(ps@);
            }
            if ps.len() != 2 {
                return None;
            }
            let ghost ops = ps@;
            let (mk, mv) = ps.pop().unwrap();
            let (dk, dv) = ps.pop().unwrap();
            proof {
                assert(docv == JVal::Obj(jpairs_of(ops)));
                assert(jpairs_of(ops)[0] == (dk@, jval_of(dv)));
                assert(jpairs_of(ops)[1] == (mk@, jval_of(mv)));
            }
            (dk, dv, mk, mv)
        },
        _ => {
            return None;
        },
    };
    proof {
        assert(docv matches JVal::Obj(m) && m.len() == 2 && m[0] == (dkey@, jval_of(dval)) && m[1]
            == (mkey@, jval_of(mval)));
    }
    if !str_eq(dkey.as_str(), "data") || !str_eq(mkey.as_str(), "modified") {
        return None;
    }
    let pairs = match dval {
        JsonValue::Obj(ps) => ps,
        _ => {
            return None;
        },
    };
    let m = match mval {
        JsonValue::Bool(b) => b,
        _ => {
            return None;
        },
    };
    // reject duplicate keys: a decoded session must be well formed
    let n = pairs.len();
    proof {
        lemma_jpairs_of(pairs@);
    }
    let mut i: usize = 0;
    while i < n
        invariant
            n == pairs@.len(),
            forall|a: int, b: int|
                0 <= a < b < n && a < i ==> #[trigger] jpairs_of(pairs@)[a].0
                    != #[trigger] jpairs_of(pairs@)[b].0,
        decreases n - i,
    {
        let mut j = i + 1;
        while j < n
            invariant
                i < j <= n,
                n == pairs@.len(),
                forall|b: int| i < b < j ==> #[trigger] jpairs_of(pairs@)[b].0 != jpairs_of(
                    pairs@,
                )[i as int].0,
            decreases n - j,
        {
            if str_eq(pairs[i].0.as_str(), pairs[j].0.as_str()) {
                proof {
                    assert(jpairs_of(pairs@)[i as int].0 == jpairs_of(pairs@)[j as int].0);
                    assert(!unique_keys(jpairs_of(pairs@)));
                }
                return None;
            }
            j = j + 1;
        }
        i = i + 1;
    }
    proof {
        assert(unique_keys(jpairs_of(pairs@)));
    }
    let sd = SessionData { data: pairs, modified: m };
    proof {
        assert(sp_session(bytes@) matches Some(x) && x =~= sd@);
    }
    Some(sd)
}

} // verus!
