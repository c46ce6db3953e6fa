use sx_protocol::error::SxErrorCode;
use sx_protocol::path::SxPath;
use sx_protocol::value::SxValue;

#[test]
fn duplicate_keys_rejected() {
    let err = SxValue::object_from_pairs(vec![
        ("a".to_string(), SxValue::I64(1)),
        ("a".to_string(), SxValue::I64(2)),
    ])
    .unwrap_err();
    assert_eq!(err.code, SxErrorCode::DuplicateKey);
}

#[test]
fn object_entries_come_out_in_key_order() {
    let v = SxValue::object_from_pairs(vec![
        ("b".to_string(), SxValue::I64(2)),
        ("a".to_string(), SxValue::I64(1)),
    ])
    .unwrap();
    assert_eq!(v, SxValue::Object(vec![("a".to_string(), SxValue::I64(1)), ("b".to_string(), SxValue::I64(2))]));
    assert_eq!(v.get_field("b"), Some(&SxValue::I64(2)));
}

#[test]
fn path_text_roundtrip() {
    let p = SxPath::parse("/user/items/3").unwrap();
    assert_eq!(p.to_text(), "/user/items/3");
    assert_eq!(SxPath::root().key("a").index(2).to_text(), "/a/2");
}

#[test]
fn printed_paths_parse_back() {
    let p = SxPath::root().key("user").index(0).key("name-1").index(42);
    let text = p.to_text();
    assert_eq!(text, "/user/0/name-1/42");
    assert_eq!(SxPath::parse(&text).unwrap(), p);
    assert_eq!(SxPath::parse(&SxPath::root().to_text()).unwrap(), SxPath::root());
}
