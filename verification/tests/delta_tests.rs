use sx_protocol::delta::{apply_delta, delta_overflows, diff, diff_overflows};
use sx_protocol::equality::values_equal;
use sx_protocol::error::SxErrorCode;
use sx_protocol::path::SxPath;
use sx_protocol::value::{DeltaDocument, DeltaOp, DeltaOpKind, SxValue};

fn object_of(pairs: Vec<(&str, SxValue)>) -> SxValue {
    SxValue::object_from_pairs(pairs.into_iter().map(|(k, v)| (k.to_string(), v)).collect()).unwrap()
}

fn op(kind: DeltaOpKind, path: &str, value: Option<SxValue>) -> DeltaOp {
    DeltaOp { kind, path: SxPath::parse(path).unwrap(), value, from: None, index: None }
}

fn doc(ops: Vec<DeltaOp>) -> DeltaDocument {
    DeltaDocument { from_hash: None, ops }
}

#[test]
fn apply_basic_set() {
    let base = object_of(vec![("count", SxValue::I64(1))]);
    let delta = doc(vec![op(DeltaOpKind::Increment, "/count", Some(SxValue::I64(2)))]);
    let out = apply_delta(&base, &delta).unwrap();
    assert_eq!(out.get_field("count"), Some(&SxValue::I64(3)));
}

#[test]
fn diff_replace() {
    let a = SxValue::I64(1);
    let b = SxValue::I64(9);
    let d = diff(&a, &b);
    assert_eq!(d.ops.len(), 1);
    assert_eq!(d.ops[0].kind, DeltaOpKind::Increment);
}

#[test]
fn all_delta_ops_smoke() {
    let base = object_of(vec![
        ("n", SxValue::I64(10)),
        ("arr", SxValue::Array(vec![SxValue::I64(1), SxValue::I64(2)])),
        ("obj", object_of(vec![])),
    ]);
    let mut insert = op(DeltaOpKind::Insert, "/arr", Some(SxValue::I64(9)));
    insert.index = Some(2);
    let mut copy = op(DeltaOpKind::Copy, "/copied", None);
    copy.from = Some(SxPath::parse("/x").unwrap());
    let mut mv = op(DeltaOpKind::Move, "/moved", None);
    mv.from = Some(SxPath::parse("/copied").unwrap());
    let delta = doc(vec![
        op(DeltaOpKind::SetAt, "/x", Some(SxValue::I64(1))),
        op(DeltaOpKind::Replace, "/x", Some(SxValue::I64(2))),
        op(DeltaOpKind::Append, "/arr", Some(SxValue::I64(3))),
        op(DeltaOpKind::Prepend, "/arr", Some(SxValue::I64(0))),
        insert,
        op(DeltaOpKind::Increment, "/n", Some(SxValue::I64(2))),
        op(DeltaOpKind::Decrement, "/n", Some(SxValue::I64(1))),
        op(DeltaOpKind::Merge, "/obj", Some(object_of(vec![("a", SxValue::Bool(true))]))),
        copy,
        mv,
        op(DeltaOpKind::Clear, "/obj", None),
        op(DeltaOpKind::Remove, "/x", None),
    ]);
    let out = apply_delta(&base, &delta).unwrap();
    assert_eq!(out.get_field("n"), Some(&SxValue::I64(11)));
    assert!(out.get_field("x").is_none());
    assert!(matches!(out.get_field("moved"), Some(SxValue::I64(2))));
    assert!(matches!(out.get_field("obj"), Some(SxValue::Object(o)) if o.is_empty()));
    assert_eq!(
        out.get_field("arr"),
        Some(&SxValue::Array(vec![
            SxValue::I64(0),
            SxValue::I64(1),
            SxValue::I64(9),
            SxValue::I64(2),
            SxValue::I64(3)
        ]))
    );
}

#[test]
fn set_then_read_back() {
    let base = object_of(vec![("a", object_of(vec![("b", SxValue::I64(1))]))]);
    let delta = doc(vec![op(DeltaOpKind::SetAt, "/a/c", Some(SxValue::String("v".to_string())))]);
    let out = apply_delta(&base, &delta).unwrap();
    let inner = out.get_field("a").unwrap();
    assert_eq!(inner.get_field("c"), Some(&SxValue::String("v".to_string())));
    assert_eq!(inner.get_field("b"), Some(&SxValue::I64(1)));
}

#[test]
fn delta_errors_carry_their_codes() {
    let base = object_of(vec![("n", SxValue::I64(1)), ("s", SxValue::String("x".to_string()))]);
    let cases = vec![
        (op(DeltaOpKind::SetAt, "/n", None), SxErrorCode::ValidationError),
        (op(DeltaOpKind::Append, "/n", Some(SxValue::I64(1))), SxErrorCode::TypeMismatch),
        (op(DeltaOpKind::Increment, "/s", Some(SxValue::I64(1))), SxErrorCode::TypeMismatch),
        (op(DeltaOpKind::Increment, "/n", Some(SxValue::Bool(true))), SxErrorCode::TypeMismatch),
        (op(DeltaOpKind::SetAt, "/missing/x", Some(SxValue::Null)), SxErrorCode::InvalidPath),
        (op(DeltaOpKind::Clear, "/n", None), SxErrorCode::TypeMismatch),
        (op(DeltaOpKind::Move, "/y", None), SxErrorCode::ValidationError),
    ];
    for (o, code) in cases {
        let err = apply_delta(&base, &doc(vec![o])).unwrap_err();
        assert_eq!(err.code, code);
    }
}

#[test]
fn u64_decrement_below_zero_is_refused() {
    let base = object_of(vec![("u", SxValue::U64(1))]);
    let d = doc(vec![op(DeltaOpKind::Decrement, "/u", Some(SxValue::I64(2)))]);
    assert_eq!(apply_delta(&base, &d).unwrap_err().code, SxErrorCode::ValidationError);
    let d = doc(vec![op(DeltaOpKind::Decrement, "/u", Some(SxValue::U64(1)))]);
    assert_eq!(apply_delta(&base, &d).unwrap().get_field("u"), Some(&SxValue::U64(0)));
}

#[test]
fn i64_overflow_is_detected_before_applying() {
    let base = object_of(vec![("n", SxValue::I64(i64::MAX))]);
    let d = doc(vec![op(DeltaOpKind::Increment, "/n", Some(SxValue::I64(1)))]);
    assert!(delta_overflows(&base, &d));
    let d = doc(vec![op(DeltaOpKind::Decrement, "/n", Some(SxValue::I64(1)))]);
    assert!(!delta_overflows(&base, &d));
    assert!(diff_overflows(&SxValue::I64(i64::MIN), &SxValue::I64(i64::MAX)));
    assert!(!diff_overflows(&SxValue::I64(-5), &SxValue::I64(5)));
}

#[test]
fn diff_then_patch_gives_target() {
    let base = object_of(vec![
        ("keep", SxValue::String("same".to_string())),
        ("gone", SxValue::Bool(true)),
        ("n", SxValue::I64(5)),
        ("list", SxValue::Array(vec![SxValue::I64(1), SxValue::I64(2), SxValue::I64(3)])),
        ("nested", object_of(vec![("x", SxValue::U8(1))])),
    ]);
    let target = object_of(vec![
        ("keep", SxValue::String("same".to_string())),
        ("n", SxValue::I64(2)),
        ("list", SxValue::Array(vec![SxValue::I64(1), SxValue::I64(7)])),
        ("nested", object_of(vec![("x", SxValue::U8(2)), ("y", SxValue::Null)])),
        ("added", SxValue::F64(1.5f64.to_bits())),
    ]);
    let d = diff(&base, &target);
    let kinds: Vec<DeltaOpKind> = d.ops.iter().map(|o| o.kind).collect();
    assert_eq!(
        kinds,
        vec![
            DeltaOpKind::Remove,
            DeltaOpKind::SetAt,
            DeltaOpKind::Increment,
            DeltaOpKind::Remove,
            DeltaOpKind::Decrement,
            DeltaOpKind::Replace,
            DeltaOpKind::SetAt,
        ]
    );
    let out = apply_delta(&base, &d).unwrap();
    assert_eq!(out, target);
    assert!(diff(&out, &target).ops.is_empty());
}

#[test]
fn diff_of_equal_floats_is_empty_and_nan_is_replaced() {
    let pz = SxValue::F64(0.0f64.to_bits());
    let nz = SxValue::F64((-0.0f64).to_bits());
    assert!(values_equal(&pz, &nz));
    assert!(diff(&pz, &nz).ops.is_empty());
    let nan = SxValue::F64(f64::NAN.to_bits());
    assert!(!values_equal(&nan, &nan));
    let d = diff(&nan, &nan);
    assert_eq!(d.ops.len(), 1);
    assert_eq!(d.ops[0].kind, DeltaOpKind::Replace);
}

#[test]
fn diff_shrinking_array_removes_from_the_end() {
    let a = SxValue::Array(vec![SxValue::I64(1), SxValue::I64(2), SxValue::I64(3)]);
    let b = SxValue::Array(vec![SxValue::I64(1)]);
    let d = diff(&a, &b);
    let paths: Vec<String> = d.ops.iter().map(|o| o.path.to_text()).collect();
    assert_eq!(paths, vec!["/2".to_string(), "/1".to_string()]);
    assert_eq!(apply_delta(&a, &d).unwrap(), b);
}

#[test]
fn diff_of_a_value_with_itself_is_empty() {
    let v = SxValue::Object(vec![
        ("a".to_string(), SxValue::Array(vec![SxValue::I64(1), SxValue::String("x".to_string())])),
        ("b".to_string(), SxValue::Object(vec![("c".to_string(), SxValue::F64(2.5f64.to_bits()))])),
    ]);
    let d = diff(&v, &v);
    assert!(d.from_hash.is_none());
    assert!(d.ops.is_empty());
}
