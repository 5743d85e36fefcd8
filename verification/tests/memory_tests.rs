use std::collections::HashSet;

use ferreiro::json::JsonValue;
use ferreiro::memory::MemorySessionStore;
use ferreiro::session::SessionData;

#[test]
fn stateful_uniqueness_of_generated_ids() {
    let mut store = MemorySessionStore::new();
    let data = SessionData::new();
    let mut seen: HashSet<String> = HashSet::new();
    for _ in 0..1000 {
        let id = store.save(None, &data).unwrap();
        assert_eq!(id.len(), 64);
        assert!(id.chars().all(|c| c.is_ascii_hexdigit() && !c.is_uppercase()));
        assert!(seen.insert(id), "a generated identifier repeated");
    }
}

#[test]
fn stateful_overwrite_last_writer_wins() {
    let mut store = MemorySessionStore::new();
    let mut d1 = SessionData::new();
    d1.set("step", JsonValue::Int(1));
    let mut d2 = SessionData::new();
    d2.set("step", JsonValue::Int(2));
    d2.set("extra", JsonValue::Str("later".to_string()));

    let id = store.save(None, &d1).unwrap();
    let returned = store.save(Some(&id), &d2).unwrap();
    assert_eq!(returned, id);

    let loaded = store.load(&id).unwrap().unwrap();
    assert_eq!(loaded, d2);
    assert_ne!(loaded, d1);
}

#[test]
fn concrete_scenario_save_delete_load() {
    let mut store = MemorySessionStore::new();
    let mut data = SessionData::new();
    data.set("cart", JsonValue::Arr(Vec::new()));

    let id = store.save(None, &data).unwrap();
    assert_eq!(id.len(), 64);
    assert!(id.chars().all(|c| c.is_ascii_hexdigit() && !c.is_uppercase()));

    store.delete(&id).unwrap();
    // absence is a successful empty result, not an error
    assert_eq!(store.load(&id).unwrap(), None);
}

#[test]
fn load_of_unknown_id_is_empty_success() {
    let store = MemorySessionStore::new();
    assert_eq!(store.load(&"no-such-id".to_string()).unwrap(), None);
}

#[test]
fn delete_of_unknown_id_succeeds() {
    let mut store = MemorySessionStore::new();
    assert!(store.delete(&"missing".to_string()).is_ok());
}

#[test]
fn cleanup_reports_zero() {
    let mut store = MemorySessionStore::new();
    let data = SessionData::new();
    store.save(None, &data).unwrap();
    assert_eq!(store.cleanup().unwrap(), 0);
}

#[test]
fn sessions_are_stored_by_copy() {
    let mut store = MemorySessionStore::new();
    let mut data = SessionData::new();
    data.set("k", JsonValue::Int(1));
    let id = store.save(None, &data).unwrap();
    // later mutation of the caller's instance does not touch the store
    data.set("k", JsonValue::Int(2));
    let loaded = store.load(&id).unwrap().unwrap();
    assert_eq!(loaded.get_i64("k"), Some(1));
}
