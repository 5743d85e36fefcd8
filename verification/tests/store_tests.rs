use ferreiro::cookie::CookieSessionStore;
use ferreiro::json::JsonValue;
use ferreiro::memory::MemorySessionStore;
use ferreiro::session::SessionData;
use ferreiro::store::SessionStore;

fn save_then_load<S: SessionStore>(store: &mut S, data: &SessionData) -> Option<SessionData> {
    let id = store.save(None, data).ok()?;
    store.load(&id).ok().flatten()
}

#[test]
fn both_backends_round_trip_through_the_interface() {
    let mut data = SessionData::new();
    data.set("who", JsonValue::Str("polymorphic caller".to_string()));
    data.set("n", JsonValue::Int(9));

    let mut cookie = CookieSessionStore::new(b"interface key", 300);
    let via_cookie = save_then_load(&mut cookie, &data).unwrap();
    assert_eq!(via_cookie, data);

    let mut memory = MemorySessionStore::new();
    let via_memory = save_then_load(&mut memory, &data).unwrap();
    assert_eq!(via_memory, data);
}

#[test]
fn both_backends_cleanup_successfully() {
    let cookie = CookieSessionStore::new(b"k", 1);
    let memory = MemorySessionStore::new();
    assert!(SessionStore::cleanup(&cookie).is_ok());
    assert!(SessionStore::cleanup(&memory).is_ok());
}
