//! Stateless signed sessions: the whole session travels inside the token.
//!
//! A token is `base64(payload) + "." + base64(hmac-sha256(key, base64(payload)))`,
//! where the payload is the canonical JSON encoding of the session and the
//! message authentication code is computed over the bytes of the base64
//! text, not over the raw payload.  Base64 uses the URL-safe alphabet with
//! `=` padding.  Verification recomputes the code and compares without a
//! data-dependent early exit.

use base64::Engine;
use hmac::Mac;
use vstd::prelude::*;
use vstd::slice::slice_to_vec;
use vstd::utf8::encode_utf8;

use crate::session::{
    lemma_session_round_trip, lemma_session_sound, ser_session, sp_session, SdView, SessionData,
    SessionError, decode_session, encode_session,
};
use crate::strutil::ct_str_eq;

verus! {

/// One character of the URL-safe base64 alphabet, or `=` for padding.
pub open spec fn is_b64_char(c: char) -> bool {
    ('A' <= c && c <= 'Z') || ('a' <= c && c <= 'z') || ('0' <= c && c <= '9') || c == '-' || c
        == '_' || c == '='
}

/// The URL-safe base64 alphabet, by six-bit value.
pub open spec fn b64_char(v: nat) -> char
    recommends
        v < 64,
{
    if v < 26 {
        ((65 + v) as u32) as char
    } else if v < 52 {
        ((71 + v) as u32) as char
    } else if v < 62 {
        ((v - 4) as u32) as char
    } else if v == 62 {
        '-'
    } else {
        '_'
    }
}

/// URL-safe base64 with padding: three bytes become four characters; a
/// short final group is padded with `=`.
pub open spec fn b64_of(bs: Seq<u8>) -> Seq<char>
    decreases bs.len(),
{
    if bs.len() == 0 {
        Seq::empty()
    } else if bs.len() == 1 {
        let b0 = bs[0] as nat;
        seq![b64_char(b0 / 4), b64_char((b0 % 4) * 16), '=', '=']
    } else if bs.len() == 2 {
        let b0 = bs[0] as nat;
        let b1 = bs[1] as nat;
        seq![b64_char(b0 / 4), b64_char((b0 % 4) * 16 + b1 / 16), b64_char((b1 % 16) * 4), '=']
    } else {
        let b0 = bs[0] as nat;
        let b1 = bs[1] as nat;
        let b2 = bs[2] as nat;
        seq![
            b64_char(b0 / 4),
            b64_char((b0 % 4) * 16 + b1 / 16),
            b64_char((b1 % 16) * 4 + b2 / 64),
            b64_char(b2 % 64),
        ] + b64_of(bs.subrange(3, bs.len() as int))
    }
}

/// Every alphabet character is a base64 character; none is a dot.
proof fn lemma_b64_char(v: nat)
    requires
        v < 64,
    ensures
        is_b64_char(b64_char(v)),
        b64_char(v) != '.',
{
    if v < 26 {
        assert((((65 + v) as u32) as char) as u32 == 65 + v);
    } else if v < 52 {
        assert((((71 + v) as u32) as char) as u32 == 71 + v);
    } else if v < 62 {
        assert((((v - 4) as u32) as char) as u32 == v - 4);
    }
}

/// Shape of a base64 text: four characters for every started group of
/// three bytes, all from the alphabet — in particular, never a dot.
pub proof fn lemma_b64_of_chars(bs: Seq<u8>)
    ensures
        b64_of(bs).len() == 4 * ((bs.len() + 2) / 3),
        forall|i: int| 0 <= i < b64_of(bs).len() ==> is_b64_char(#[trigger] b64_of(bs)[i]),
        forall|i: int| 0 <= i < b64_of(bs).len() ==> #[trigger] b64_of(bs)[i] != '.',
    decreases bs.len(),
{
    if bs.len() == 0 {
    } else if bs.len() == 1 {
        let b0 = bs[0] as nat;
        lemma_b64_char(b0 / 4);
        lemma_b64_char((b0 % 4) * 16);
    } else if bs.len() == 2 {
        let b0 = bs[0] as nat;
        let b1 = bs[1] as nat;
        lemma_b64_char(b0 / 4);
        lemma_b64_char((b0 % 4) * 16 + b1 / 16);
        lemma_b64_char((b1 % 16) * 4);
    } else {
        let b0 = bs[0] as nat;
        let b1 = bs[1] as nat;
        let b2 = bs[2] as nat;
        lemma_b64_char(b0 / 4);
        lemma_b64_char((b0 % 4) * 16 + b1 / 16);
        lemma_b64_char((b1 % 16) * 4 + b2 / 64);
        lemma_b64_char(b2 % 64);
        lemma_b64_of_chars(bs.subrange(3, bs.len() as int));
    }
}

/// One byte of the tag HMAC-SHA256 computes for `msg` under `key`: a
/// function of key, message and position alone.
pub uninterp spec fn hmac_sha256_byte(key: Seq<u8>, msg: Seq<u8>, i: int) -> u8;

/// The authentication tag of `msg` under `key`: 32 bytes whose content
/// only the HMAC-SHA256 computation fixes.
pub open spec fn hmac_sha256_of(key: Seq<u8>, msg: Seq<u8>) -> Seq<u8> {
    Seq::new(32, |i: int| hmac_sha256_byte(key, msg, i))
}

/// Relies on `hmac::Hmac<sha2::Sha256>`: the tag depends on key and
/// message alone and is 32 bytes long; `new_from_slice` accepts keys of
/// any length, so it cannot fail here.
#[verifier::external_body]
fn hmac_sha256(key: &[u8], msg: &[u8]) -> (r: Vec<u8>)
    ensures
        r@ == hmac_sha256_of(key@, msg@),
        forall|i: int| 0 <= i < 32 ==> r@[i] == hmac_sha256_byte(key@, msg@, i),
{
    let mut mac = <hmac::Hmac<sha2::Sha256> as Mac>::new_from_slice(key)
        .expect("HMAC accepts keys of any length");
    mac.update(msg);
    mac.finalize().into_bytes().to_vec()
}

/// Relies on `base64`'s URL-safe engine with padding: encoding is exactly
/// [`b64_of`].
#[verifier::external_body]
fn b64_encode(bytes: &[u8]) -> (r: String)
    ensures
        r@ == b64_of(bytes@),
{
    base64::engine::general_purpose::URL_SAFE.encode(bytes)
}

/// Relies on `base64`'s URL-safe engine with padding.  Its decoder is
/// canonical — it rejects non-canonical padding and trailing bits — so it
/// accepts exactly the outputs of [`b64_of`] and inverts them.
#[verifier::external_body]
fn b64_decode(s: &str) -> (r: Option<Vec<u8>>)
    ensures
        r matches Some(v) ==> s@ == b64_of(v@),
        r matches Some(v) ==> forall|b: Seq<u8>| s@ == #[trigger] b64_of(b) ==> v@ == b,
        r is None ==> forall|b: Seq<u8>| s@ != #[trigger] b64_of(b),
{
    base64::engine::general_purpose::URL_SAFE.decode(s.as_bytes()).ok()
}

/// Index of the first `.` in the token, or `-1` when there is none.
pub open spec fn dot_index(t: Seq<char>) -> int
    decreases t.len(),
{
    if t.len() == 0 {
        -1
    } else if t[0] == '.' {
        0
    } else {
        let r = dot_index(t.subrange(1, t.len() as int));
        if r == -1 {
            -1
        } else {
            1 + r
        }
    }
}

/// What `dot_index` finds: the first dot, if any.
pub proof fn lemma_dot_index(t: Seq<char>)
    ensures
        -1 <= dot_index(t) < t.len(),
        dot_index(t) == -1 <==> (forall|i: int| 0 <= i < t.len() ==> #[trigger] t[i] != '.'),
        dot_index(t) >= 0 ==> t[dot_index(t)] == '.',
        forall|i: int| 0 <= i < dot_index(t) ==> #[trigger] t[i] != '.',
    decreases t.len(),
{
    if t.len() > 0 {
        let tail = t.subrange(1, t.len() as int);
        lemma_dot_index(tail);
        assert(forall|i: int| 1 <= i < t.len() ==> #[trigger] t[i] == tail[i - 1]);
        if t[0] != '.' {
            if dot_index(tail) == -1 {
                assert forall|i: int| 0 <= i < t.len() implies #[trigger] t[i] != '.' by {
                    if i >= 1 {
                        assert(tail[i - 1] != '.');
                    }
                }
            } else {
                assert forall|i: int| 0 <= i < dot_index(t) implies #[trigger] t[i] != '.' by {
                    if i >= 1 {
                        assert(tail[i - 1] != '.');
                    }
                }
            }
        }
    }
}

/// The token splits at the first dot into two non-empty segments.
pub open spec fn has_structure(t: Seq<char>) -> bool {
    dot_index(t) >= 1 && dot_index(t) + 1 < t.len()
}

/// The segment before the first dot.
pub open spec fn data_part(t: Seq<char>) -> Seq<char>
    recommends
        has_structure(t),
{
    t.subrange(0, dot_index(t))
}

/// The segment after the first dot.
pub open spec fn sig_part(t: Seq<char>) -> Seq<char>
    recommends
        has_structure(t),
{
    t.subrange(dot_index(t) + 1, t.len() as int)
}

/// The signature text owed to a data segment under `key`: the base64 of
/// the tag over the bytes of the base64 text itself.
pub open spec fn spec_sig(key: Seq<u8>, dp: Seq<char>) -> Seq<char> {
    b64_of(hmac_sha256_of(key, encode_utf8(dp)))
}

/// A token is verified when it has the two-segment structure and its
/// signature segment is exactly the one owed to its data segment.
pub open spec fn sig_ok(key: Seq<u8>, t: Seq<char>) -> bool {
    has_structure(t) && sig_part(t) == spec_sig(key, data_part(t))
}

/// The token produced for session `s` under `key`.
pub open spec fn spec_token(key: Seq<u8>, s: SdView) -> Seq<char> {
    let dp = b64_of(ser_session(s));
    dp + seq!['.'] + spec_sig(key, dp)
}

/// Splitting a dotless prefix, a dot, and any suffix finds exactly that
/// dot.
proof fn lemma_dot_concat(dp: Seq<char>, x: Seq<char>)
    requires
        forall|i: int| 0 <= i < dp.len() ==> #[trigger] dp[i] != '.',
    ensures
        dot_index(dp + seq!['.'] + x) == dp.len(),
        data_part(dp + seq!['.'] + x) == dp,
        sig_part(dp + seq!['.'] + x) == x,
    decreases dp.len(),
{
    let t = dp + seq!['.'] + x;
    if dp.len() == 0 {
        assert(t[0] == '.');
        assert(data_part(t) =~= dp);
        assert(sig_part(t) =~= x);
    } else {
        assert(t[0] == dp[0]);
        let dtail = dp.subrange(1, dp.len() as int);
        assert(t.subrange(1, t.len() as int) =~= dtail + seq!['.'] + x);
        lemma_dot_concat(dtail, x);
        assert(dot_index(t) == dp.len());
        assert(data_part(t) =~= dp);
        assert(sig_part(t) =~= x);
    }
}

/// Structure of every produced token: the data segment is the base64 of
/// the canonical payload, the signature segment is the one owed to it,
/// and the token verifies.
pub proof fn lemma_token_structure(key: Seq<u8>, s: SdView)
    ensures
        has_structure(spec_token(key, s)),
        data_part(spec_token(key, s)) == b64_of(ser_session(s)),
        sig_part(spec_token(key, s)) == spec_sig(key, b64_of(ser_session(s))),
        sig_ok(key, spec_token(key, s)),
{
    let dp = b64_of(ser_session(s));
    let sg = spec_sig(key, dp);
    lemma_b64_of_chars(ser_session(s));
    lemma_dot_concat(dp, sg);
    assert(ser_session(s).len() >= 2);
    lemma_b64_of_chars(hmac_sha256_of(key, encode_utf8(dp)));
    assert(sg.len() == 44);
}

/// Round trip: the token produced for any well-formed session verifies,
/// and its data segment decodes and parses back to exactly that session.
/// Together with the contracts of `save` and `load`, loading a saved
/// token always returns the saved session.
pub proof fn lemma_token_round_trip(key: Seq<u8>, s: SdView)
    requires
        s.wf(),
    ensures
        sig_ok(key, spec_token(key, s)),
        data_part(spec_token(key, s)) == b64_of(ser_session(s)),
        sp_session(ser_session(s)) == Some(s),
{
    lemma_token_structure(key, s);
    lemma_session_round_trip(s);
}

/// Tamper detection, signature side: any token whose data segment is the
/// one produced for `s` but whose signature segment differs from the owed
/// one — a flipped character, a truncation — fails verification.
pub proof fn lemma_tampered_signature(key: Seq<u8>, s: SdView, sig2: Seq<char>)
    requires
        sig2 != spec_sig(key, b64_of(ser_session(s))),
    ensures
        !sig_ok(key, b64_of(ser_session(s)) + seq!['.'] + sig2),
{
    let dp = b64_of(ser_session(s));
    lemma_b64_of_chars(ser_session(s));
    lemma_dot_concat(dp, sig2);
}

/// Tamper detection, structure side: a token with no dot at all never
/// verifies.
pub proof fn lemma_missing_separator(key: Seq<u8>, t: Seq<char>)
    requires
        forall|i: int| 0 <= i < t.len() ==> #[trigger] t[i] != '.',
    ensures
        !sig_ok(key, t),
{
    lemma_dot_index(t);
}

/// Determinism: the token is a function of the key and the session alone;
/// byte-identical sessions under the same key give identical tokens.
pub proof fn lemma_save_deterministic(key: Seq<u8>, a: SdView, b: SdView)
    requires
        a == b,
    ensures
        spec_token(key, a) == spec_token(key, b),
{
}

/// Cookie-based sessions: data stored in a signed token, nothing held on
/// the server.  Suited to small sessions; transports usually bound the
/// token to a few kilobytes, which is the caller's concern.
pub struct CookieSessionStore {
    secret_key: Vec<u8>,
    max_age_secs: u64,
}

impl CookieSessionStore {
    /// The signing key fixed at construction.
    pub closed spec fn key(self) -> Seq<u8> {
        self.secret_key@
    }

    /// The maximum age parameter: accepted at construction, not enforced
    /// by this store.
    pub closed spec fn max_age(self) -> u64 {
        self.max_age_secs
    }

    /// A store over a copy of `secret_key`; `max_age_secs` is kept but no
    /// expiry is implemented.
    pub fn new(secret_key: &[u8], max_age_secs: u64) -> (r: CookieSessionStore)
        ensures
            r.key() == secret_key@,
            r.max_age() == max_age_secs,
    {
        CookieSessionStore { secret_key: slice_to_vec(secret_key), max_age_secs }
    }

    /// The signature text owed to `data` under this store's key.
    fn sign(&self, data: &str) -> (r: String)
        ensures
            r@ == spec_sig(self.key(), data@),
    {
        let tag = hmac_sha256(self.secret_key.as_slice(), data.as_bytes());
        b64_encode(tag.as_slice())
    }

    /// Whether `signature` is exactly the text owed to `data`; compared
    /// without a data-dependent early exit.
    fn verify(&self, data: &str, signature: &str) -> (r: bool)
        ensures
            r == (signature@ == spec_sig(self.key(), data@)),
    {
        let expected = self.sign(data);
        ct_str_eq(expected.as_str(), signature)
    }

    /// Resolves a token.  Fails with `Invalid` exactly when the token
    /// lacks the two-segment structure or its signature does not verify;
    /// fails with `Serialization` when the signature verifies but the
    /// payload is not the canonical encoding of a session.  A session
    /// comes back exactly for the tokens `save` produces: every saved
    /// token loads back to its session, and whatever load accepts is the
    /// very token of the session it returns.
    pub fn load(&self, id: &String) -> (r: Result<Option<SessionData>, SessionError>)
        ensures
            (r matches Err(e) && e is Invalid) <==> !sig_ok(self.key(), id@),
            r matches Err(e) ==> (e is Invalid || e is Serialization),
            r matches Ok(o) ==> o is Some,
            r matches Ok(Some(sd)) ==> sd@.wf() && id@ == spec_token(self.key(), sd@),
            forall|s: SdView|
                s.wf() && id@ == #[trigger] spec_token(self.key(), s) ==> (r matches Ok(Some(sd))
                    && sd@ == s),
    {
        proof {
            lemma_dot_index(id@);
        }
        let n = id.as_str().unicode_len();
        let mut d: usize = 0;
        while d < n && id.as_str().get_char(d) != '.'
            invariant
                d <= n,
                n == id@.len(),
                forall|i: int| 0 <= i < d ==> id@[i] != '.',
            decreases n - d,
        {
            d = d + 1;
        }
        proof {
            if d < n {
                assert(id@[d as int] == '.');
                assert(dot_index(id@) == d);
            } else {
                assert(dot_index(id@) == -1);
            }
            assert forall|s: SdView| id@ == #[trigger] spec_token(self.key(), s) implies sig_ok(
                self.key(),
                id@,
            ) by {
                lemma_token_structure(self.key(), s);
            }
        }
        if d == n || d == 0 || d + 1 == n {
            // no separator, or an empty segment: not a token shape
            return Err(SessionError::Invalid);
        }
        let data_str = id.as_str().substring_char(0, d);
        let sig_str = id.as_str().substring_char(d + 1, n);
        proof {
            assert(data_str@ == data_part(id@));
            assert(sig_str@ == sig_part(id@));
        }
        if !self.verify(data_str, sig_str) {
            return Err(SessionError::Invalid);
        }
        proof {
            assert(sig_ok(self.key(), id@));
            assert forall|s: SdView|
                s.wf() && id@ == #[trigger] spec_token(self.key(), s) implies data_str@ == b64_of(
                ser_session(s),
            ) by {
                lemma_token_structure(self.key(), s);
            }
        }
        let bytes = match b64_decode(data_str) {
            Some(b) => b,
            None => {
                proof {
                    assert forall|s: SdView|
                        !(s.wf() && id@ == #[trigger] spec_token(self.key(), s)) by {
                        if s.wf() && id@ == spec_token(self.key(), s) {
                            lemma_token_structure(self.key(), s);
                        }
                    }
                }
                return Err(SessionError::Serialization(String::from_str(
                    "payload is not base64",
                )));
            },
        };
        match decode_session(&bytes) {
            Some(sd) => {
                proof {
                    assert(data_part(id@) == b64_of(bytes@) && sp_session(bytes@) == Some(sd@));
                    lemma_session_sound(bytes@);
                    assert(bytes@ == ser_session(sd@));
                    assert(id@ =~= data_part(id@) + seq!['.'] + sig_part(id@));
                    assert(sig_part(id@) == spec_sig(self.key(), data_part(id@)));
                    assert(id@ == spec_token(self.key(), sd@));
                    assert forall|s: SdView|
                        s.wf() && id@ == #[trigger] spec_token(self.key(), s) implies sd@ == s by {
                        lemma_token_structure(self.key(), s);
                        lemma_session_round_trip(s);
                        assert(bytes@ == ser_session(s));
                    }
                }
                Ok(Some(sd))
            },
            None => {
                proof {
                    assert forall|s: SdView|
                        !(s.wf() && id@ == #[trigger] spec_token(self.key(), s)) by {
                        if s.wf() && id@ == spec_token(self.key(), s) {
                            lemma_token_structure(self.key(), s);
                            lemma_session_round_trip(s);
                            assert(bytes@ == ser_session(s));
                        }
                    }
                }
                Err(SessionError::Serialization(String::from_str(
                    "payload is not a canonical session",
                )))
            },
        }
    }

    /// Produces the token for `data`.  The passed identifier is accepted
    /// and ignored: every save derives the full token from the session
    /// alone, so byte-identical sessions give byte-identical tokens.
    pub fn save(&self, id: Option<&String>, data: &SessionData) -> (r: Result<
        String,
        SessionError,
    >)
        requires
            data@.wf(),
        ensures
            r matches Ok(t) && t@ == spec_token(self.key(), data@),
    {
        let _ = id;
        let json = encode_session(data);
        let mut token = b64_encode(json.as_slice());
        let ghost dp = token@;
        let signature = self.sign(token.as_str());
        token.append(".");
        token.append(signature.as_str());
        proof {
            reveal_strlit(".");
            assert("."@ =~= seq!['.']);
            assert(token@ =~= dp + seq!['.'] + spec_sig(self.key(), dp));
        }
        Ok(token)
    }

    /// Deletion is a no-op: there is no server-side record behind a
    /// token.
    pub fn delete(&self, id: &String) -> (r: Result<(), SessionError>)
        ensures
            r is Ok,
    {
        let _ = id;
        Ok(())
    }

    /// Cleanup removes nothing: no server state, no expiry tracking.
    pub fn cleanup(&self) -> (r: Result<usize, SessionError>)
        ensures
            r matches Ok(c) && c == 0,
    {
        Ok(0)
    }
}

} // verus!
