use sha2::Digest;
use sx_protocol::schema_digest::schema_hash;
use sx_protocol::schema_text::{field_line_parts, parse_type, schema_outline};
use sx_protocol::compat::check_compatibility;
use sx_protocol::error::SxErrorCode;
use sx_protocol::schema::{
    types_equal, validate, CompatibilityReport, MigrationStep, Schema, SchemaField, SchemaType,
};
use sx_protocol::value::{SxTypedArray, SxTypedArrayType, SxValue};

fn field(id: u32, name: &str, ty: SchemaType, optional: bool, default: Option<SxValue>) -> SchemaField {
    SchemaField { id, name: name.to_string(), ty, optional, default, hints: Vec::new(), renamed_from: None }
}

fn prim(name: &str) -> SchemaType {
    SchemaType::Primitive(name.to_string())
}

fn object(pairs: Vec<(&str, SxValue)>) -> SxValue {
    let mut entries: Vec<(String, SxValue)> = pairs.into_iter().map(|(k, v)| (k.to_string(), v)).collect();
    entries.sort_by(|a, b| a.0.cmp(&b.0));
    SxValue::Object(entries)
}

fn user_schema() -> Schema {
    Schema {
        name: "User".to_string(),
        version: 1,
        fields: vec![
            field(1, "id", prim("uuid"), false, None),
            field(2, "name", prim("string"), false, None),
            field(3, "active", prim("bool"), true, Some(SxValue::Bool(true))),
        ],
    }
}

#[test]
fn parse_and_validate() {
    let schema = user_schema();
    let obj = object(vec![
        ("id", SxValue::Uuid(*uuid::Uuid::new_v4().as_bytes())),
        ("name", SxValue::String("Asha".to_string())),
    ]);
    validate(&schema, &obj).unwrap();
}

#[test]
fn compatibility_report() {
    let old = Schema {
        name: "U".to_string(),
        version: 1,
        fields: vec![field(1, "id", prim("uuid"), false, None), field(2, "name", prim("string"), false, None)],
    };
    let new = Schema {
        name: "U".to_string(),
        version: 2,
        fields: vec![
            field(1, "id", prim("uuid"), false, None),
            field(2, "full_name", prim("string"), false, None),
            field(3, "active", prim("bool"), true, None),
        ],
    };
    let report = check_compatibility(&old, &new);
    assert!(report.compatible);
    assert!(report.steps.iter().any(|s| matches!(s, MigrationStep::RenameField { .. })));
}

#[test]
fn validation_rejects_wrong_type() {
    let schema = Schema {
        name: "U".to_string(),
        version: 1,
        fields: vec![field(1, "id", prim("uuid"), false, None), field(2, "age", prim("i64"), false, None)],
    };
    let obj = object(vec![
        ("id", SxValue::Uuid(*uuid::Uuid::new_v4().as_bytes())),
        ("age", SxValue::String("x".to_string())),
    ]);
    let err = validate(&schema, &obj).unwrap_err();
    assert_eq!(err.code, SxErrorCode::TypeMismatch);
}

#[test]
fn missing_required_field_names_its_path() {
    let schema = user_schema();
    let obj = object(vec![("id", SxValue::Uuid([7; 16]))]);
    let err = validate(&schema, &obj).unwrap_err();
    assert_eq!(err.code, SxErrorCode::RequiredFieldMissing);
    assert_eq!(err.path.unwrap().to_text(), "/name");
    let err = validate(&schema, &SxValue::I64(1)).unwrap_err();
    assert_eq!(err.code, SxErrorCode::TypeMismatch);
    assert!(err.path.is_none());
}

#[test]
fn narrow_integer_types_accept_wide_values_in_range() {
    let schema = Schema {
        name: "N".to_string(),
        version: 1,
        fields: vec![field(1, "small", prim("u8"), false, None), field(2, "signed", prim("i16"), false, None)],
    };
    let ok = object(vec![("small", SxValue::U64(255)), ("signed", SxValue::I64(-32768))]);
    validate(&schema, &ok).unwrap();
    let too_big = object(vec![("small", SxValue::U64(256)), ("signed", SxValue::I64(0))]);
    assert_eq!(validate(&schema, &too_big).unwrap_err().code, SxErrorCode::TypeMismatch);
    let unknown = Schema { name: "N".to_string(), version: 1, fields: vec![field(1, "x", prim("anything"), false, None)] };
    validate(&unknown, &object(vec![("x", SxValue::Null)])).unwrap();
}

#[test]
fn array_items_enums_and_typed_arrays_are_checked() {
    let schema = Schema {
        name: "A".to_string(),
        version: 1,
        fields: vec![
            field(1, "tags", SchemaType::Array(Box::new(prim("string"))), false, None),
            field(2, "color", SchemaType::Enum(vec!["red".to_string(), "blue".to_string()]), false, None),
            field(3, "data", SchemaType::TypedArray(SxTypedArrayType::I32), true, None),
        ],
    };
    let good = object(vec![
        ("tags", SxValue::Array(vec![SxValue::String("a".to_string())])),
        ("color", SxValue::Enum("red".to_string())),
        ("data", SxValue::TypedArray(SxTypedArray::I32(vec![1, 2]))),
    ]);
    validate(&schema, &good).unwrap();
    let bad_item = object(vec![
        ("tags", SxValue::Array(vec![SxValue::String("a".to_string()), SxValue::I64(1)])),
        ("color", SxValue::String("blue".to_string())),
    ]);
    let err = validate(&schema, &bad_item).unwrap_err();
    assert_eq!(err.code, SxErrorCode::TypeMismatch);
    assert_eq!(err.path.unwrap().to_text(), "/tags/1");
    let bad_enum = object(vec![("tags", SxValue::Array(vec![])), ("color", SxValue::Enum("green".to_string()))]);
    assert_eq!(validate(&schema, &bad_enum).unwrap_err().code, SxErrorCode::ValidationError);
    let bad_typed = object(vec![
        ("tags", SxValue::Array(vec![])),
        ("color", SxValue::Enum("red".to_string())),
        ("data", SxValue::TypedArray(SxTypedArray::U8(vec![1]))),
    ]);
    assert_eq!(validate(&schema, &bad_typed).unwrap_err().code, SxErrorCode::TypeMismatch);
}

#[test]
fn schema_is_compatible_with_itself() {
    let s = user_schema();
    let report: CompatibilityReport = check_compatibility(&s, &s);
    assert!(report.compatible);
    assert_eq!(report.steps.len(), 3);
    assert!(report.steps.iter().all(|st| matches!(st, MigrationStep::CopyField { .. })));
}

#[test]
fn incompatible_changes_are_reported_in_id_order() {
    let old = Schema {
        name: "U".to_string(),
        version: 1,
        fields: vec![
            field(5, "gone", prim("string"), false, None),
            field(2, "age", prim("i64"), false, None),
        ],
    };
    let new = Schema {
        name: "U".to_string(),
        version: 2,
        fields: vec![
            field(2, "age", prim("string"), false, None),
            field(9, "must", prim("bool"), false, None),
            field(7, "later", prim("u64"), false, Some(SxValue::U64(4))),
        ],
    };
    let report = check_compatibility(&old, &new);
    assert!(!report.compatible);
    assert_eq!(
        report.steps,
        vec![
            MigrationStep::IncompatibleChange { reason: "field 2 type changed".to_string() },
            MigrationStep::IncompatibleChange { reason: "field 5 removed".to_string() },
            MigrationStep::AddDefaultField { id: 7, name: "later".to_string(), default: SxValue::U64(4) },
            MigrationStep::IncompatibleChange { reason: "new required field 9 without default".to_string() },
        ]
    );
}

#[test]
fn later_field_with_a_repeated_id_wins() {
    let old = Schema {
        name: "U".to_string(),
        version: 1,
        fields: vec![field(1, "first", prim("string"), false, None), field(1, "second", prim("string"), false, None)],
    };
    let new = Schema { name: "U".to_string(), version: 2, fields: vec![field(1, "second", prim("string"), false, None)] };
    let report = check_compatibility(&old, &new);
    assert!(report.compatible);
    assert_eq!(report.steps, vec![MigrationStep::CopyField { id: 1, name: "second".to_string() }]);
}

#[test]
fn type_equality_is_structural() {
    let a = SchemaType::Table(vec![("x".to_string(), SchemaType::Array(Box::new(prim("i64"))))]);
    let b = SchemaType::Table(vec![("x".to_string(), SchemaType::Array(Box::new(prim("i64"))))]);
    let c = SchemaType::Table(vec![("x".to_string(), SchemaType::Array(Box::new(prim("u64"))))]);
    assert!(types_equal(&a, &b));
    assert!(!types_equal(&a, &c));
    assert!(!types_equal(&prim("i64"), &SchemaType::Object("i64".to_string())));
}

#[test]
fn parse_type_names() {
    assert_eq!(parse_type(" typed<f32> ").unwrap(), SchemaType::TypedArray(SxTypedArrayType::F32));
    assert_eq!(
        parse_type("string[][]").unwrap(),
        SchemaType::Array(Box::new(SchemaType::Array(Box::new(SchemaType::Primitive("string".to_string())))))
    );
    assert_eq!(
        parse_type("enum[\"a\", b ,]").unwrap(),
        SchemaType::Enum(vec!["a".to_string(), "b".to_string(), "".to_string()])
    );
    assert_eq!(parse_type("User").unwrap(), SchemaType::Object("User".to_string()));
    let e = parse_type("typed<u16>").unwrap_err();
    assert_eq!(e.message, "unsupported typed array element 'u16'");
}

#[test]
fn schema_outline_and_field_lines() {
    let text = "\r\n  schema User v3 {\r\n  #1 id: uuid\n\n  @pii @b #2 name?: string = \"Asha\",\n}\n#9 after: u8\n";
    let (name, version, lines) = schema_outline(text).unwrap();
    assert_eq!(name, "User");
    assert_eq!(version, 3);
    assert_eq!(lines, vec!["#1 id: uuid".to_string(), "@pii @b #2 name?: string = \"Asha\",".to_string()]);
    let f = field_line_parts(&lines[1]).unwrap();
    assert_eq!(f.id, 2);
    assert_eq!(f.name, "name");
    assert!(f.optional);
    assert_eq!(f.ty, SchemaType::Primitive("string".to_string()));
    assert_eq!(f.default_text, Some("\"Asha\"".to_string()));
    assert_eq!(f.hints, vec!["b".to_string(), "pii".to_string()]);
    let f = field_line_parts("#1 id: uuid").unwrap();
    assert_eq!((f.id, f.optional, f.default_text), (1, false, None));
    assert_eq!(schema_outline("").unwrap_err().message, "schema text is empty");
    assert_eq!(schema_outline("table T {").unwrap_err().message, "schema must start with 'schema'");
    assert_eq!(schema_outline("schema {").unwrap_err().message, "schema header missing name");
    assert_eq!(schema_outline("schema S vx {\n}").unwrap_err().message, "schema has no fields");
    assert_eq!(schema_outline("schema S vx {\n#1 a: u8").unwrap().1, 1);
    assert_eq!(field_line_parts("1 a: u8").unwrap_err().message, "field line must start with '#': 1 a: u8");
    assert_eq!(field_line_parts("#1").unwrap_err().message, "field id missing");
    assert_eq!(field_line_parts("#1 a u8").unwrap_err().message, "field missing ':'");
    assert_eq!(field_line_parts("#x a: u8").unwrap_err().message, "invalid field id: invalid digit found in string");
}

#[test]
fn schema_hash_is_sha256_of_canonical_text() {
    let schema = Schema {
        name: "User".to_string(),
        version: 2,
        fields: vec![
            field(2, "name", prim("string"), false, None),
            field(1, "id", SchemaType::Array(Box::new(prim("uuid"))), true, Some(SxValue::Bool(true))),
        ],
    };
    let text = "schema User v2\n#1 id?: Array(Primitive(\"uuid\")) default:Some(Bool(true)) hints:\n#2 name: Primitive(\"string\") default:None hints:";
    let expected: [u8; 32] = sha2::Sha256::digest(text.as_bytes()).into();
    assert_eq!(schema_hash(&schema, &Vec::new()), expected);
}

#[test]
fn field_ids_are_read_as_u32() {
    let e = field_line_parts("#4294967296 name: string").unwrap_err();
    assert_eq!(e.message, "invalid field id: number too large to fit in target type");
    let e = field_line_parts("#1x name: string").unwrap_err();
    assert_eq!(e.message, "invalid field id: invalid digit found in string");
    let e = field_line_parts("#-1 name: string").unwrap_err();
    assert_eq!(e.message, "invalid field id: invalid digit found in string");
    assert_eq!(field_line_parts("#+4294967295 name: string").unwrap().id, 4294967295);
    let e = field_line_parts("#+ name: string").unwrap_err();
    assert_eq!(e.message, "invalid field id: invalid digit found in string");
}
