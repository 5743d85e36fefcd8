use ferreiro::json::JsonValue;
use ferreiro::json_parse::parse_json_bytes;
use ferreiro::json_ser::to_json_bytes;
use ferreiro::session::{decode_session, encode_session, SessionData};

fn ser(v: &JsonValue) -> Vec<u8> {
    to_json_bytes(v)
}

#[test]
fn integers_serialize_to_shortest_decimal() {
    assert_eq!(ser(&JsonValue::Int(0)), b"0".to_vec());
    assert_eq!(ser(&JsonValue::Int(7)), b"7".to_vec());
    assert_eq!(ser(&JsonValue::Int(-42)), b"-42".to_vec());
    assert_eq!(
        ser(&JsonValue::Int(i64::MAX)),
        b"9223372036854775807".to_vec()
    );
    assert_eq!(
        ser(&JsonValue::Int(i64::MIN)),
        b"-9223372036854775808".to_vec()
    );
}

#[test]
fn literals_serialize_exactly() {
    assert_eq!(ser(&JsonValue::Null), b"null".to_vec());
    assert_eq!(ser(&JsonValue::Bool(true)), b"true".to_vec());
    assert_eq!(ser(&JsonValue::Bool(false)), b"false".to_vec());
}

#[test]
fn strings_escape_quotes_backslashes_and_controls() {
    let v = JsonValue::Str("a\"b\\c\nd".to_string());
    assert_eq!(ser(&v), b"\"a\\\"b\\\\c\\u000ad\"".to_vec());
    let u = JsonValue::Str("héllo".to_string());
    assert_eq!(ser(&u), "\"héllo\"".as_bytes().to_vec());
}

#[test]
fn containers_serialize_without_whitespace() {
    let v = JsonValue::Arr(vec![
        JsonValue::Int(1),
        JsonValue::Arr(vec![]),
        JsonValue::Obj(vec![("k".to_string(), JsonValue::Null)]),
    ]);
    assert_eq!(ser(&v), b"[1,[],{\"k\":null}]".to_vec());
}

#[test]
fn parse_inverts_serialize() {
    let cases = vec![
        JsonValue::Null,
        JsonValue::Bool(false),
        JsonValue::Int(-1),
        JsonValue::Int(i64::MIN),
        JsonValue::Str("π \"quoted\" \\ \u{1}".to_string()),
        JsonValue::Arr(vec![JsonValue::Int(10), JsonValue::Str("x".to_string())]),
        JsonValue::Obj(vec![
            ("a".to_string(), JsonValue::Arr(vec![])),
            ("b".to_string(), JsonValue::Obj(vec![])),
        ]),
    ];
    for v in cases {
        let bytes = ser(&v);
        let back = parse_json_bytes(&bytes).expect("canonical bytes must parse");
        assert_eq!(back, v);
    }
}

#[test]
fn parser_rejects_non_canonical_input() {
    let bad: Vec<&[u8]> = vec![
        b"",
        b" 1",
        b"1 ",
        b"01",
        b"-0",
        b"+1",
        b"1.5",
        b"[1, 2]",
        b"{\"a\" :1}",
        b"\"\\q\"",
        b"\"\\u000A\"",
        b"\"\\u0041\"",
        b"\"unterminated",
        b"[1,]",
        b"{",
        b"nulll",
        b"truefalse",
        b"\"\x01\"",
        b"9223372036854775808",
        b"-9223372036854775809",
    ];
    for case in bad {
        assert!(
            parse_json_bytes(&case.to_vec()).is_none(),
            "accepted non-canonical input {:?}",
            case
        );
    }
}

#[test]
fn parser_accepts_boundary_integers() {
    assert_eq!(
        parse_json_bytes(&b"9223372036854775807".to_vec()),
        Some(JsonValue::Int(i64::MAX))
    );
    assert_eq!(
        parse_json_bytes(&b"-9223372036854775808".to_vec()),
        Some(JsonValue::Int(i64::MIN))
    );
}

#[test]
fn session_wire_format_is_data_then_modified() {
    let mut data = SessionData::new();
    data.set("user_id", JsonValue::Str("42".to_string()));
    let bytes = encode_session(&data);
    assert_eq!(
        bytes,
        b"{\"data\":{\"user_id\":\"42\"},\"modified\":true}".to_vec()
    );
    let back = decode_session(&bytes).expect("canonical session must decode");
    assert_eq!(back, data);
}

#[test]
fn session_decoder_rejects_duplicate_keys_and_wrong_shapes() {
    let dup = b"{\"data\":{\"a\":1,\"a\":2},\"modified\":false}".to_vec();
    assert!(decode_session(&dup).is_none());
    let swapped = b"{\"modified\":false,\"data\":{}}".to_vec();
    assert!(decode_session(&swapped).is_none());
    let extra = b"{\"data\":{},\"modified\":false,\"x\":1}".to_vec();
    assert!(decode_session(&extra).is_none());
    let not_obj = b"[1,2]".to_vec();
    assert!(decode_session(&not_obj).is_none());
    let wrong_flag = b"{\"data\":{},\"modified\":0}".to_vec();
    assert!(decode_session(&wrong_flag).is_none());
}
