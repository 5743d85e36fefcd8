use ferreiro::cookie::CookieSessionStore;
use ferreiro::json::JsonValue;
use ferreiro::session::{SessionData, SessionError};

fn sample_session() -> SessionData {
    let mut data = SessionData::new();
    data.set("user_id", JsonValue::Str("42".to_string()));
    data.set("count", JsonValue::Int(5));
    data.set("negative", JsonValue::Int(-17));
    data.set("flag", JsonValue::Bool(true));
    data.set("nothing", JsonValue::Null);
    data.set(
        "items",
        JsonValue::Arr(vec![
            JsonValue::Int(1),
            JsonValue::Str("x".to_string()),
            JsonValue::Null,
        ]),
    );
    data.set(
        "nested",
        JsonValue::Obj(vec![(
            "inner".to_string(),
            JsonValue::Arr(vec![JsonValue::Bool(false)]),
        )]),
    );
    data
}

#[test]
fn round_trip_preserves_data() {
    let store = CookieSessionStore::new(b"a rather long secret key", 3600);
    let data = sample_session();
    let token = store.save(None, &data).unwrap();
    let loaded = store.load(&token).unwrap().unwrap();
    assert_eq!(loaded, data);
}

#[test]
fn round_trip_of_empty_session() {
    let store = CookieSessionStore::new(b"k2", 60);
    let data = SessionData::new();
    let token = store.save(None, &data).unwrap();
    let loaded = store.load(&token).unwrap().unwrap();
    assert_eq!(loaded, data);
    assert!(!loaded.modified);
}

#[test]
fn round_trip_with_unicode_and_escapes() {
    let store = CookieSessionStore::new(b"key", 60);
    let mut data = SessionData::new();
    data.set("greeting", JsonValue::Str("héllo \"wörld\"\\\n\tπ𝄞".to_string()));
    data.set("クレー", JsonValue::Str("值".to_string()));
    let token = store.save(None, &data).unwrap();
    let loaded = store.load(&token).unwrap().unwrap();
    assert_eq!(loaded, data);
}

#[test]
fn tamper_detection_flipping_any_character_fails() {
    let store = CookieSessionStore::new(b"secret", 3600);
    let data = sample_session();
    let token = store.save(None, &data).unwrap();
    let chars: Vec<char> = token.chars().collect();
    for i in 0..chars.len() {
        let mut mutated = chars.clone();
        mutated[i] = if mutated[i] == 'A' { 'B' } else { 'A' };
        let bad: String = mutated.into_iter().collect();
        let r = store.load(&bad);
        assert!(
            matches!(r, Err(SessionError::Invalid)),
            "flipping position {} was not rejected",
            i
        );
    }
}

#[test]
fn tamper_detection_truncation_fails() {
    let store = CookieSessionStore::new(b"secret", 3600);
    let data = sample_session();
    let token = store.save(None, &data).unwrap();
    let mut shorter = token.clone();
    shorter.pop();
    assert!(matches!(store.load(&shorter), Err(SessionError::Invalid)));
}

#[test]
fn tamper_detection_missing_separator_fails() {
    let store = CookieSessionStore::new(b"secret", 3600);
    let data = sample_session();
    let token = store.save(None, &data).unwrap();
    let no_dot: String = token.chars().filter(|c| *c != '.').collect();
    assert!(matches!(store.load(&no_dot), Err(SessionError::Invalid)));
    assert!(matches!(store.load(&String::new()), Err(SessionError::Invalid)));
    assert!(matches!(
        store.load(&"justonepart".to_string()),
        Err(SessionError::Invalid)
    ));
    assert!(matches!(store.load(&".".to_string()), Err(SessionError::Invalid)));
}

#[test]
fn save_is_deterministic() {
    let store = CookieSessionStore::new(b"key", 120);
    let d1 = sample_session();
    let d2 = sample_session();
    let t1 = store.save(None, &d1).unwrap();
    let t2 = store.save(None, &d2).unwrap();
    let t3 = store.save(Some(&"ignored".to_string()), &d1).unwrap();
    assert_eq!(t1, t2);
    assert_eq!(t1, t3);
}

#[test]
fn concrete_scenario_key_k() {
    let store = CookieSessionStore::new(b"k", 3600);
    let data = SessionData {
        data: vec![("user_id".to_string(), JsonValue::Str("42".to_string()))],
        modified: false,
    };
    let token = store.save(None, &data).unwrap();

    // shape: <base64>.<base64>
    let parts: Vec<&str> = token.split('.').collect();
    assert_eq!(parts.len(), 2);
    assert!(!parts[0].is_empty());
    assert!(!parts[1].is_empty());

    let loaded = store.load(&token).unwrap().unwrap();
    assert_eq!(
        loaded.get_str("user_id").as_deref(),
        Some("42")
    );

    // flipping the last character must invalidate the token
    let mut chars: Vec<char> = token.chars().collect();
    let last = chars.len() - 1;
    chars[last] = if chars[last] == 'A' { 'B' } else { 'A' };
    let bad: String = chars.into_iter().collect();
    assert!(matches!(store.load(&bad), Err(SessionError::Invalid)));
}

#[test]
fn delete_and_cleanup_are_noops() {
    let store = CookieSessionStore::new(b"key", 10);
    let data = sample_session();
    let token = store.save(None, &data).unwrap();
    assert!(store.delete(&token).is_ok());
    assert_eq!(store.cleanup().unwrap(), 0);
    // the token still loads: nothing is held server-side
    assert!(store.load(&token).unwrap().is_some());
}

#[test]
fn wrong_key_rejects_token() {
    let one = CookieSessionStore::new(b"first key", 60);
    let two = CookieSessionStore::new(b"second key", 60);
    let data = sample_session();
    let token = one.save(None, &data).unwrap();
    assert!(matches!(two.load(&token), Err(SessionError::Invalid)));
}
