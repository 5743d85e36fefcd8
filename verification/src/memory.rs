//! Stateful in-memory sessions: data lives on the server, the client
//! holds an opaque random handle.
//!
//! Identifiers are 256 bits of randomness, hex-encoded to 64 lowercase
//! characters; collisions are not checked, matching the negligible
//! probability.  A save under an existing identifier overwrites that
//! entry unconditionally.  Callers that share one store across threads
//! wrap it in a lock scoped per call; the store itself holds no lock.

use vstd::prelude::*;

use crate::is_hex_digit;
use crate::session::{clone_session, SdView, SessionData, SessionError, SessionId};
use crate::strutil::str_eq;

verus! {

/// Lowercase hexadecimal digit for a nibble value.
pub open spec fn hex_char(v: nat) -> char
    recommends
        v < 16,
{
    if v < 10 {
        ((48 + v) as u32) as char
    } else {
        ((87 + v) as u32) as char
    }
}

/// Lowercase hexadecimal text of a byte string, two digits per byte.
pub open spec fn hex_of(bs: Seq<u8>) -> Seq<char>
    decreases bs.len(),
{
    if bs.len() == 0 {
        Seq::empty()
    } else {
        seq![hex_char((bs[0] / 16) as nat), hex_char((bs[0] % 16) as nat)] + hex_of(
            bs.subrange(1, bs.len() as int),
        )
    }
}

/// Shape of a hex text: two digits per byte, all lowercase hex.
pub proof fn lemma_hex_of_chars(bs: Seq<u8>)
    ensures
        hex_of(bs).len() == 2 * bs.len(),
        forall|i: int| 0 <= i < hex_of(bs).len() ==> is_hex_digit(#[trigger] hex_of(bs)[i]),
    decreases bs.len(),
{
    if bs.len() > 0 {
        let v1 = (bs[0] / 16) as nat;
        let v2 = (bs[0] % 16) as nat;
        if v1 < 10 {
            assert((((48 + v1) as u32) as char) as u32 == 48 + v1);
        } else {
            assert((((87 + v1) as u32) as char) as u32 == 87 + v1);
        }
        if v2 < 10 {
            assert((((48 + v2) as u32) as char) as u32 == 48 + v2);
        } else {
            assert((((87 + v2) as u32) as char) as u32 == 87 + v2);
        }
        lemma_hex_of_chars(bs.subrange(1, bs.len() as int));
    }
}

/// Relies on `rand::thread_rng`: 32 bytes of cryptographically secure
/// randomness.  Nothing is promised of the values; only the length holds
/// of every outcome.
#[verifier::external_body]
fn random_bytes_32() -> (r: Vec<u8>)
    ensures
        r@.len() == 32,
{
    let bytes: [u8; 32] = rand::Rng::gen(&mut rand::thread_rng());
    bytes.to_vec()
}

/// Relies on `hex::encode`: lowercase hexadecimal, two digits per byte,
/// exactly [`hex_of`].
#[verifier::external_body]
fn hex_encode(bytes: &[u8]) -> (r: String)
    ensures
        r@ == hex_of(bytes@),
{
    hex::encode(bytes)
}

/// Index of the entry holding `id`, or `-1` when there is none.
pub open spec fn store_index(entries: Seq<(Seq<char>, SdView)>, id: Seq<char>) -> int
    decreases entries.len(),
{
    if entries.len() == 0 {
        -1
    } else if entries[0].0 == id {
        0
    } else {
        let r = store_index(entries.subrange(1, entries.len() as int), id);
        if r == -1 {
            -1
        } else {
            1 + r
        }
    }
}

/// What `store_index` finds: the first entry with the identifier.
pub proof fn lemma_store_index(entries: Seq<(Seq<char>, SdView)>, id: Seq<char>)
    ensures
        -1 <= store_index(entries, id) < entries.len(),
        store_index(entries, id) == -1 <==> (forall|i: int|
            0 <= i < entries.len() ==> #[trigger] entries[i].0 != id),
        store_index(entries, id) >= 0 ==> entries[store_index(entries, id)].0 == id,
        forall|t: int| 0 <= t < store_index(entries, id) ==> #[trigger] entries[t].0 != id,
    decreases entries.len(),
{
    if entries.len() > 0 {
        let tail = entries.subrange(1, entries.len() as int);
        lemma_store_index(tail, id);
        assert(forall|i: int| 1 <= i < entries.len() ==> #[trigger] entries[i] == tail[i - 1]);
        if entries[0].0 != id {
            if store_index(tail, id) == -1 {
                assert forall|i: int|
                    0 <= i < entries.len() implies #[trigger] entries[i].0 != id by {
                    if i >= 1 {
                        assert(tail[i - 1].0 != id);
                    }
                }
            } else {
                assert forall|t: int|
                    0 <= t < store_index(entries, id) implies #[trigger] entries[t].0 != id by {
                    if t >= 1 {
                        assert(tail[t - 1].0 != id);
                    }
                }
            }
        }
    }
}

/// Identifiers of the entries are pairwise distinct.
pub open spec fn unique_ids(entries: Seq<(Seq<char>, SdView)>) -> bool {
    forall|i: int, j: int|
        0 <= i < j < entries.len() ==> #[trigger] entries[i].0 != #[trigger] entries[j].0
}

/// In-memory session store, for reference use and tests.
pub struct MemorySessionStore {
    sessions: Vec<(String, SessionData)>,
}

impl View for MemorySessionStore {
    type V = Seq<(Seq<char>, SdView)>;

    closed spec fn view(&self) -> Seq<(Seq<char>, SdView)> {
        Seq::new(self.sessions@.len(), |i: int| (self.sessions@[i].0@, self.sessions@[i].1@))
    }
}

impl MemorySessionStore {
    /// Identifiers are distinct and every stored session is well formed.
    pub open spec fn inv(self) -> bool {
        unique_ids(self@) && (forall|i: int| 0 <= i < self@.len() ==> (#[trigger] self@[i].1).wf())
    }

    /// True when an entry holds the identifier.
    pub open spec fn contains_id(self, id: Seq<char>) -> bool {
        store_index(self@, id) >= 0
    }

    /// The session stored under the identifier.
    pub open spec fn stored(self, id: Seq<char>) -> SdView
        recommends
            self.contains_id(id),
    {
        self@[store_index(self@, id)].1
    }

    /// An empty store.
    pub fn new() -> (r: MemorySessionStore)
        ensures
            r@ == Seq::<(Seq<char>, SdView)>::empty(),
            r.inv(),
    {
        let r = MemorySessionStore { sessions: Vec::new() };
        proof {
            assert(r@ =~= Seq::<(Seq<char>, SdView)>::empty());
        }
        r
    }

    /// A fresh handle: 64 lowercase hexadecimal characters from 256 bits
    /// of randomness.  Distinctness from earlier handles holds only with
    /// overwhelming probability and is not checked.
    fn generate_id() -> (r: SessionId)
        ensures
            r@.len() == 64,
            forall|i: int| 0 <= i < r@.len() ==> is_hex_digit(#[trigger] r@[i]),
    {
        let bytes = random_bytes_32();
        let id = hex_encode(bytes.as_slice());
        proof {
            lemma_hex_of_chars(bytes@);
        }
        id
    }

    /// The stored session under `id`, if any; absence is a successful
    /// empty result, never an error.
    #[verifier::loop_isolation(false)]
    pub fn load(&self, id: &String) -> (r: Result<Option<SessionData>, SessionError>)
        ensures
            r is Ok,
            r matches Ok(o) ==> (o is Some <==> self.contains_id(id@)),
            r matches Ok(Some(sd)) ==> sd@ == self.stored(id@),
    {
        let n = self.sessions.len();
        proof {
            lemma_store_index(self@, id@);
        }
        let mut i: usize = 0;
        while i < n
            invariant
                n == self.sessions@.len(),
                i <= n,
                forall|t: int| 0 <= t < i ==> #[trigger] self@[t].0 != id@,
            decreases n - i,
        {
            if str_eq(self.sessions[i].0.as_str(), id) {
                proof {
                    assert(self@[i as int].0 == id@);
                    assert(store_index(self@, id@) == i);
                }
                return Ok(Some(clone_session(&self.sessions[i].1)));
            }
            proof {
                assert(self@[i as int].0 != id@);
            }
            i = i + 1;
        }
        Ok(None)
    }

    /// Stores a copy of `data`.  With an identifier, that entry is
    /// overwritten unconditionally; without one, a fresh random handle is
    /// allocated and returned.
    #[verifier::loop_isolation(false)]
    pub fn save(&mut self, id: Option<&String>, data: &SessionData) -> (r: Result<
        SessionId,
        SessionError,
    >)
        requires
            old(self).inv(),
            data@.wf(),
        ensures
            final(self).inv(),
            r is Ok,
            r matches Ok(sid) ==> {
                &&& (id matches Some(given) ==> sid@ == given@)
                &&& (id is None ==> sid@.len() == 64 && (forall|i: int|
                    0 <= i < sid@.len() ==> is_hex_digit(#[trigger] sid@[i])))
                &&& ({
                    let ki = store_index(old(self)@, sid@);
                    if ki >= 0 {
                        final(self)@ == old(self)@.update(ki, (sid@, data@))
                    } else {
                        final(self)@ == old(self)@.push((sid@, data@))
                    }
                })
                &&& final(self).contains_id(sid@)
                &&& final(self).stored(sid@) == data@
            },
    {
        let sid: String = match id {
            Some(s) => s.clone(),
            None => Self::generate_id(),
        };
        let ghost oents = self@;
        let n = self.sessions.len();
        proof {
            lemma_store_index(oents, sid@);
        }
        let mut i: usize = 0;
        while i < n
            invariant
                n == self.sessions@.len(),
                self@ == oents,
                self.inv(),
                i <= n,
                forall|t: int| 0 <= t < i ==> #[trigger] oents[t].0 != sid@,
            decreases n - i,
        {
            if str_eq(self.sessions[i].0.as_str(), sid.as_str()) {
                proof {
                    assert(oents[i as int].0 == sid@);
                    assert(store_index(oents, sid@) == i);
                }
                self.sessions.remove(i);
                let copy = clone_session(data);
                self.sessions.insert(i, (sid.clone(), copy));
                proof {
                    assert(self@ =~= oents.update(i as int, (sid@, data@)));
                    lemma_store_index(self@, sid@);
                    assert(self@[i as int].0 == sid@);
                    assert forall|t: int| 0 <= t < i implies self@[t].0 != sid@ by {
                        assert(self@[t] == oents[t]);
                    }
                    assert(store_index(self@, sid@) == i);
                    assert forall|a: int, b: int|
                        0 <= a < b < self@.len() implies #[trigger] self@[a].0
                        != #[trigger] self@[b].0 by {
                        assert(oents[a].0 != oents[b].0);
                    }
                }
                return Ok(sid);
            }
            proof {
                assert(self@[i as int].0 != sid@);
            }
            i = i + 1;
        }
        proof {
            assert(store_index(oents, sid@) == -1);
        }
        let copy = clone_session(data);
        self.sessions.push((sid.clone(), copy));
        proof {
            assert(self@ =~= oents.push((sid@, data@)));
            lemma_store_index(self@, sid@);
            assert(self@[oents.len() as int].0 == sid@);
            assert forall|t: int| 0 <= t < oents.len() implies self@[t].0 != sid@ by {
                assert(self@[t] == oents[t]);
            }
            assert(store_index(self@, sid@) == oents.len());
            assert forall|a: int, b: int|
                0 <= a < b < self@.len() implies #[trigger] self@[a].0 != #[trigger] self@[b].0 by {
                if b < oents.len() {
                    assert(oents[a].0 != oents[b].0);
                } else {
                    assert(oents[a].0 != sid@);
                }
            }
        }
        Ok(sid)
    }

    /// Removes the entry under `id`, if any; removing an absent entry
    /// succeeds.
    #[verifier::loop_isolation(false)]
    pub fn delete(&mut self, id: &String) -> (r: Result<(), SessionError>)
        requires
            old(self).inv(),
        ensures
            final(self).inv(),
            r is Ok,
            !final(self).contains_id(id@),
            ({
                let ki = store_index(old(self)@, id@);
                if ki >= 0 {
                    final(self)@ == old(self)@.remove(ki)
                } else {
                    final(self)@ == old(self)@
                }
            }),
    {
        let ghost oents = self@;
        let n = self.sessions.len();
        proof {
            lemma_store_index(oents, id@);
        }
        let mut i: usize = 0;
        while i < n
            invariant
                n == self.sessions@.len(),
                self@ == oents,
                self.inv(),
                i <= n,
                forall|t: int| 0 <= t < i ==> #[trigger] oents[t].0 != id@,
            decreases n - i,
        {
            if str_eq(self.sessions[i].0.as_str(), id) {
                proof {
                    assert(oents[i as int].0 == id@);
                    assert(store_index(oents, id@) == i);
                }
                self.sessions.remove(i);
                proof {
                    assert(self@ =~= oents.remove(i as int));
                    assert forall|a: int, b: int|
                        0 <= a < b < self@.len() implies #[trigger] self@[a].0
                        != #[trigger] self@[b].0 by {
                        let a0 = if a < i as int { a } else { a + 1 };
                        let b0 = if b < i as int { b } else { b + 1 };
                        assert(oents[a0].0 != oents[b0].0);
                    }
                    lemma_store_index(self@, id@);
                    assert forall|t: int| 0 <= t < self@.len() implies #[trigger] self@[t].0
                        != id@ by {
                        let t0 = if t < i as int { t } else { t + 1 };
                        assert(self@[t] == oents[t0]);
                        if t0 != i as int {
                            assert(oents[t0].0 != oents[i as int].0);
                        }
                    }
                }
                return Ok(());
            }
            proof {
                assert(self@[i as int].0 != id@);
            }
            i = i + 1;
        }
        proof {
            assert(store_index(oents, id@) == -1);
            lemma_store_index(self@, id@);
        }
        Ok(())
    }

    /// Cleanup removes nothing: this reference store tracks no expiry.
    pub fn cleanup(&self) -> (r: Result<usize, SessionError>)
        ensures
            r matches Ok(c) && c == 0,
    {
        Ok(0)
    }
}

impl Default for MemorySessionStore {
    /// Same as [`MemorySessionStore::new`].
    fn default() -> (r: MemorySessionStore)
        ensures
            r@ == Seq::<(Seq<char>, SdView)>::empty(),
            r.inv(),
    {
        MemorySessionStore::new()
    }
}

/// Overwrite law: after storing `v` under an identifier the store already
/// held, that identifier reads back `v`, and every other identifier reads
/// back what it held before.
pub proof fn lemma_store_overwrite(
    entries: Seq<(Seq<char>, SdView)>,
    id: Seq<char>,
    v: SdView,
    other: Seq<char>,
)
    requires
        unique_ids(entries),
        store_index(entries, id) >= 0,
        other != id,
    ensures
        ({
            let upd = entries.update(store_index(entries, id), (id, v));
            &&& store_index(upd, id) == store_index(entries, id)
            &&& upd[store_index(upd, id)].1 == v
            &&& store_index(upd, other) == store_index(entries, other)
            &&& store_index(upd, other) >= 0 ==> upd[store_index(upd, other)].1
                == entries[store_index(entries, other)].1
        }),
{
    let ki = store_index(entries, id);
    let upd = entries.update(ki, (id, v));
    lemma_store_index(entries, id);
    lemma_store_index(entries, other);
    lemma_store_index(upd, id);
    lemma_store_index(upd, other);
    assert forall|t: int| 0 <= t < ki implies #[trigger] upd[t].0 != id by {
        assert(upd[t] == entries[t]);
    }
    assert(upd[ki].0 == id);
    assert(store_index(upd, id) == ki);
    let ko = store_index(entries, other);
    if ko == -1 {
        assert forall|t: int| 0 <= t < upd.len() implies #[trigger] upd[t].0 != other by {
            if t != ki {
                assert(upd[t] == entries[t]);
            }
        }
    } else {
        assert(ko != ki);
        assert(upd[ko] == entries[ko]);
        assert forall|t: int| 0 <= t < ko implies #[trigger] upd[t].0 != other by {
            if t != ki {
                assert(upd[t] == entries[t]);
            } else {
                assert(upd[t].0 == id);
            }
        }
        assert(store_index(upd, other) == ko);
    }
}

/// Delete law: after removing an identifier, it is no longer present,
/// and every other identifier reads back what it held before.
pub proof fn lemma_store_delete(entries: Seq<(Seq<char>, SdView)>, id: Seq<char>, other: Seq<char>)
    requires
        unique_ids(entries),
        store_index(entries, id) >= 0,
        other != id,
    ensures
        ({
            let rem = entries.remove(store_index(entries, id));
            &&& store_index(rem, id) == -1
            &&& store_index(rem, other) >= 0 <==> store_index(entries, other) >= 0
            &&& store_index(rem, other) >= 0 ==> rem[store_index(rem, other)].1
                == entries[store_index(entries, other)].1
        }),
{
    let ki = store_index(entries, id);
    let rem = entries.remove(ki);
    lemma_store_index(entries, id);
    lemma_store_index(entries, other);
    lemma_store_index(rem, id);
    lemma_store_index(rem, other);
    assert forall|t: int| 0 <= t < rem.len() implies #[trigger] rem[t].0 != id by {
        let t0 = if t < ki {
            t
        } else {
            t + 1
        };
        assert(rem[t] == entries[t0]);
        if t0 != ki {
            assert(entries[t0].0 != entries[ki].0);
        }
    }
    let ko = store_index(entries, other);
    if ko == -1 {
        assert forall|t: int| 0 <= t < rem.len() implies #[trigger] rem[t].0 != other by {
            let t0 = if t < ki {
                t
            } else {
                t + 1
            };
            assert(rem[t] == entries[t0]);
        }
    } else {
        let kr = if ko < ki {
            ko
        } else {
            ko - 1
        };
        assert(rem[kr] == entries[ko]);
        assert forall|t: int| 0 <= t < kr implies #[trigger] rem[t].0 != other by {
            let t0 = if t < ki {
                t
            } else {
                t + 1
            };
            assert(rem[t] == entries[t0]);
            assert(t0 < ko);
        }
        assert(store_index(rem, other) == kr);
    }
}

} // verus!
