//! The store capability: the interface the web layer drives, implemented
//! by both backends.
//!
//! Each backend fixes the meaning of the four operations through its own
//! relation; callers that hold a concrete store see its exact contract on
//! the inherent methods, while generic callers program against the
//! relations here.

use vstd::prelude::*;

use crate::cookie::{sig_ok, spec_token, CookieSessionStore};
use crate::memory::{lemma_store_index, store_index, MemorySessionStore};
use crate::session::{SdView, SessionData, SessionError, SessionId};

verus! {

/// The abstraction of a `load` result.
pub open spec fn load_view(r: Result<Option<SessionData>, SessionError>) -> Result<
    Option<SdView>,
    SessionError,
> {
    match r {
        Ok(Some(sd)) => Ok(Some(sd@)),
        Ok(None) => Ok(None),
        Err(e) => Err(e),
    }
}

/// The abstraction of a `save` result.
pub open spec fn save_view(r: Result<SessionId, SessionError>) -> Result<
    Seq<char>,
    SessionError,
> {
    match r {
        Ok(sid) => Ok(sid@),
        Err(e) => Err(e),
    }
}

/// The abstraction of an optional identifier argument.
pub open spec fn id_view(id: Option<&String>) -> Option<Seq<char>> {
    match id {
        Some(s) => Some(s@),
        None => None,
    }
}

/// A session store: resolves, persists and removes sessions behind an
/// opaque identifier or token.
pub trait SessionStore: Sized {
    /// Internal consistency, established by construction and kept by
    /// every operation.
    spec fn st_inv(&self) -> bool;

    /// The outcomes `load` may have on this store and identifier.
    spec fn load_rel(&self, id: Seq<char>, r: Result<Option<SdView>, SessionError>) -> bool;

    /// The outcomes `save` may have, relating the store before and after.
    spec fn save_rel(
        pre: Self,
        post: Self,
        id: Option<Seq<char>>,
        data: SdView,
        r: Result<Seq<char>, SessionError>,
    ) -> bool;

    /// The outcomes `delete` may have, relating the store before and
    /// after.
    spec fn delete_rel(pre: Self, post: Self, id: Seq<char>, r: Result<(), SessionError>) -> bool;

    /// Resolves an identifier or token to its session, if any.
    fn load(&self, id: &String) -> (r: Result<Option<SessionData>, SessionError>)
        requires
            self.st_inv(),
        ensures
            self.load_rel(id@, load_view(r)),
            r matches Ok(Some(sd)) ==> sd@.wf(),
    ;

    /// Persists `data`, returning the identifier or token under which it
    /// can be loaded again.
    fn save(&mut self, id: Option<&String>, data: &SessionData) -> (r: Result<
        SessionId,
        SessionError,
    >)
        requires
            old(self).st_inv(),
            data@.wf(),
        ensures
            final(self).st_inv(),
            Self::save_rel(*old(self), *final(self), id_view(id), data@, save_view(r)),
    ;

    /// Removes a session, where the backend holds one.
    fn delete(&mut self, id: &String) -> (r: Result<(), SessionError>)
        requires
            old(self).st_inv(),
        ensures
            final(self).st_inv(),
            Self::delete_rel(*old(self), *final(self), id@, r),
    ;

    /// Purges expired sessions and reports how many were removed;
    /// neither backend here tracks expiry, so both report zero.
    fn cleanup(&self) -> (r: Result<usize, SessionError>)
        requires
            self.st_inv(),
        ensures
            r is Ok,
    ;
}

impl SessionStore for CookieSessionStore {
    open spec fn st_inv(&self) -> bool {
        true
    }

    open spec fn load_rel(&self, id: Seq<char>, r: Result<Option<SdView>, SessionError>) -> bool {
        &&& (r matches Err(e) && e is Invalid) <==> !sig_ok(self.key(), id)
        &&& (r matches Err(e) ==> (e is Invalid || e is Serialization))
        &&& (r matches Ok(o) ==> o is Some)
        &&& (r matches Ok(Some(sv)) ==> sv.wf() && id == spec_token(self.key(), sv))
        &&& (forall|s: SdView|
            s.wf() && id == #[trigger] spec_token(self.key(), s) ==> r == Ok::<
                Option<SdView>,
                SessionError,
            >(Some(s)))
    }

    open spec fn save_rel(
        pre: Self,
        post: Self,
        id: Option<Seq<char>>,
        data: SdView,
        r: Result<Seq<char>, SessionError>,
    ) -> bool {
        &&& post == pre
        &&& r == Ok::<Seq<char>, SessionError>(spec_token(pre.key(), data))
    }

    open spec fn delete_rel(
        pre: Self,
        post: Self,
        id: Seq<char>,
        r: Result<(), SessionError>,
    ) -> bool {
        post == pre && r is Ok
    }

    fn load(&self, id: &String) -> (r: Result<Option<SessionData>, SessionError>) {
        CookieSessionStore::load(self, id)
    }

    fn save(&mut self, id: Option<&String>, data: &SessionData) -> (r: Result<
        SessionId,
        SessionError,
    >) {
        CookieSessionStore::save(self, id, data)
    }

    fn delete(&mut self, id: &String) -> (r: Result<(), SessionError>) {
        CookieSessionStore::delete(self, id)
    }

    fn cleanup(&self) -> (r: Result<usize, SessionError>) {
        CookieSessionStore::cleanup(self)
    }
}

impl SessionStore for MemorySessionStore {
    open spec fn st_inv(&self) -> bool {
        self.inv()
    }

    open spec fn load_rel(&self, id: Seq<char>, r: Result<Option<SdView>, SessionError>) -> bool {
        &&& r is Ok
        &&& (r matches Ok(o) ==> (o is Some <==> self.contains_id(id)))
        &&& (r matches Ok(Some(sv)) ==> sv == self.stored(id))
    }

    open spec fn save_rel(
        pre: Self,
        post: Self,
        id: Option<Seq<char>>,
        data: SdView,
        r: Result<Seq<char>, SessionError>,
    ) -> bool {
        &&& r is Ok
        &&& (r matches Ok(sid) ==> {
            &&& (id matches Some(given) ==> sid == given)
            &&& ({
                let ki = store_index(pre@, sid);
                if ki >= 0 {
                    post@ == pre@.update(ki, (sid, data))
                } else {
                    post@ == pre@.push((sid, data))
                }
            })
            &&& post.contains_id(sid)
            &&& post.stored(sid) == data
        })
    }

    open spec fn delete_rel(
        pre: Self,
        post: Self,
        id: Seq<char>,
        r: Result<(), SessionError>,
    ) -> bool {
        &&& r is Ok
        &&& !post.contains_id(id)
        &&& ({
            let ki = store_index(pre@, id);
            if ki >= 0 {
                post@ == pre@.remove(ki)
            } else {
                post@ == pre@
            }
        })
    }

    fn load(&self, id: &String) -> (r: Result<Option<SessionData>, SessionError>) {
        let r = MemorySessionStore::load(self, id);
        proof {
            lemma_store_index(self@, id@);
            if self.contains_id(id@) {
                assert(self.stored(id@).wf());
            }
        }
        r
    }

    fn save(&mut self, id: Option<&String>, data: &SessionData) -> (r: Result<
        SessionId,
        SessionError,
    >) {
        MemorySessionStore::save(self, id, data)
    }

    fn delete(&mut self, id: &String) -> (r: Result<(), SessionError>) {
        MemorySessionStore::delete(self, id)
    }

    fn cleanup(&self) -> (r: Result<usize, SessionError>) {
        MemorySessionStore::cleanup(self)
    }
}

} // verus!
