//! Recomputes a token with the cryptographic and encoding crates called
//! directly, and holds the library's output against it.

use base64::Engine;
use hmac::Mac;

use ferreiro::cookie::CookieSessionStore;
use ferreiro::json::JsonValue;
use ferreiro::session::SessionData;

fn independent_token(key: &[u8], payload: &[u8]) -> String {
    let data_part = base64::engine::general_purpose::URL_SAFE.encode(payload);
    let mut mac = <hmac::Hmac<sha2::Sha256> as Mac>::new_from_slice(key).unwrap();
    mac.update(data_part.as_bytes());
    let sig_part =
        base64::engine::general_purpose::URL_SAFE.encode(mac.finalize().into_bytes());
    format!("{}.{}", data_part, sig_part)
}

#[test]
fn token_matches_independent_computation() {
    let store = CookieSessionStore::new(b"k", 3600);
    let data = SessionData {
        data: vec![("user_id".to_string(), JsonValue::Str("42".to_string()))],
        modified: false,
    };
    let token = store.save(None, &data).unwrap();
    let expected =
        independent_token(b"k", b"{\"data\":{\"user_id\":\"42\"},\"modified\":false}");
    assert_eq!(token, expected);
}

#[test]
fn independently_built_token_loads() {
    let store = CookieSessionStore::new(b"another key", 600);
    let token = independent_token(
        b"another key",
        b"{\"data\":{\"n\":-3},\"modified\":true}",
    );
    let loaded = store.load(&token).unwrap().unwrap();
    assert_eq!(loaded.get_i64("n"), Some(-3));
    assert!(loaded.modified);
}

#[test]
fn signature_over_wrong_payload_is_rejected() {
    let store = CookieSessionStore::new(b"key", 600);
    let good = independent_token(b"key", b"{\"data\":{},\"modified\":false}");
    let other = independent_token(b"key", b"{\"data\":{},\"modified\":true}");
    let (good_data, _) = good.split_once('.').unwrap();
    let (_, other_sig) = other.split_once('.').unwrap();
    let crossed = format!("{}.{}", good_data, other_sig);
    assert!(store.load(&crossed).is_err());
}
