use ferreiro::json::JsonValue;
use ferreiro::session::SessionData;

#[test]
fn soft_fail_typed_read() {
    let mut data = SessionData::new();
    data.set("name", JsonValue::Str("ada".to_string()));
    data.set("age", JsonValue::Int(36));
    data.set("ok", JsonValue::Bool(true));

    // a value of the wrong shape reads as absent, never as an error
    assert_eq!(data.get_i64("name"), None);
    assert_eq!(data.get_bool("name"), None);
    assert_eq!(data.get_str("age"), None);
    assert_eq!(data.get_bool("age"), None);
    assert_eq!(data.get_str("ok"), None);
    assert_eq!(data.get_i64("ok"), None);

    // the right shape reads back
    assert_eq!(data.get_str("name").as_deref(), Some("ada"));
    assert_eq!(data.get_i64("age"), Some(36));
    assert_eq!(data.get_bool("ok"), Some(true));

    // an absent key reads as absent for every shape
    assert_eq!(data.get_str("missing"), None);
    assert_eq!(data.get_i64("missing"), None);
    assert_eq!(data.get_bool("missing"), None);
    assert!(data.get("missing").is_none());
}

#[test]
fn reading_never_marks_modified() {
    let mut data = SessionData::new();
    data.set("k", JsonValue::Int(1));
    data.modified = false;
    let _ = data.get("k");
    let _ = data.get_i64("k");
    let _ = data.get_str("missing");
    assert!(!data.modified);
}

#[test]
fn set_marks_modified_and_replaces() {
    let mut data = SessionData::new();
    assert!(!data.modified);
    data.set("k", JsonValue::Int(1));
    assert!(data.modified);
    data.set("k", JsonValue::Int(2));
    assert_eq!(data.get_i64("k"), Some(2));
    // keys stay unique: replacing does not grow the bag
    assert_eq!(data.data.len(), 1);
    // storing the same value again still counts as a modification
    data.modified = false;
    data.set("k", JsonValue::Int(2));
    assert!(data.modified);
}

#[test]
fn remove_marks_modified_even_when_absent() {
    let mut data = SessionData::new();
    data.set("a", JsonValue::Int(1));
    data.modified = false;
    data.remove("a");
    assert!(data.modified);
    assert!(data.get("a").is_none());

    data.modified = false;
    data.remove("never-there");
    assert!(data.modified);
}

#[test]
fn clear_empties_and_marks_modified() {
    let mut data = SessionData::new();
    data.set("a", JsonValue::Int(1));
    data.set("b", JsonValue::Int(2));
    data.modified = false;
    data.clear();
    assert!(data.modified);
    assert_eq!(data.data.len(), 0);
}

#[test]
fn default_is_empty_and_unmodified() {
    let data = SessionData::default();
    assert!(!data.modified);
    assert!(data.data.is_empty());
}
