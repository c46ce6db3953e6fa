use sx_protocol::canonical::{escape, normalize_decimal};
use sx_protocol::delta::{objects_sorted, ops_sorted};
use sx_protocol::path::SxPath;
use sx_protocol::value::{DeltaDocument, DeltaOp, DeltaOpKind, SxValue};

#[test]
fn decimals_drop_trailing_zero_digits() {
    assert_eq!(normalize_decimal(12300, 3), (123, 1));
    assert_eq!(normalize_decimal(-12300, 2), (-123, 0));
    assert_eq!(normalize_decimal(-1000, 5), (-1, 2));
    assert_eq!(normalize_decimal(0, 4), (0, 0));
    assert_eq!(normalize_decimal(7, 3), (7, 3));
    assert_eq!(normalize_decimal(i128::MIN, 3), (i128::MIN, 3));
    assert_eq!(normalize_decimal(-170141183460469231731687303715884105720, 1), (-17014118346046923173168730371588410572, 0));
}

#[test]
fn canonical_escape_marks_separators() {
    assert_eq!(escape("a:b,c\\d"), "a\\:b\\,c\\\\d");
    assert_eq!(escape("plain"), "plain");
    assert_eq!(escape(""), "");
}

#[test]
fn key_order_checks() {
    let sorted = SxValue::Object(vec![
        ("a".to_string(), SxValue::Array(vec![SxValue::Object(vec![("x".to_string(), SxValue::Null)])])),
        ("b".to_string(), SxValue::I64(1)),
    ]);
    assert!(objects_sorted(&sorted));
    let unsorted = SxValue::Array(vec![SxValue::Object(vec![
        ("b".to_string(), SxValue::Null),
        ("a".to_string(), SxValue::Null),
    ])]);
    assert!(!objects_sorted(&unsorted));
    let doc = DeltaDocument {
        from_hash: None,
        ops: vec![DeltaOp { kind: DeltaOpKind::SetAt, path: SxPath::root(), value: Some(unsorted), from: None, index: None }],
    };
    assert!(!ops_sorted(&doc));
}
