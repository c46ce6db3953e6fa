use sha2::Digest;
use sx_protocol::codec::{decode_binary, encode_binary};
use sx_protocol::debug_text::debug_value;
use sx_protocol::decode::DecodeStats;
use sx_protocol::delta::apply_delta;
use sx_protocol::error::{SxErrorCode, SxResult};
use sx_protocol::formatter::FloatText;
use sx_protocol::hashing::{canonicalize, logical_hash, logically_equal, sign_value, verify_signature};
use sx_protocol::parser::{number_literals, parse_sx_text, FloatReading};
use sx_protocol::path::SxPath;
use sx_protocol::schema::{validate, Schema};
use sx_protocol::schema_text::{field_line_parts, schema_outline};
use sx_protocol::value::{DecimalValue, DeltaDocument, DeltaOp, DeltaOpKind, SxTypedArray, SxValue};

fn readings(input: &str) -> Vec<FloatReading> {
    number_literals(input)
        .into_iter()
        .map(|text| {
            let reading = match text.parse::<f64>() {
                Ok(f) => Ok((f.to_bits(), (f as f32).to_bits())),
                Err(e) => Err(e.to_string()),
            };
            FloatReading { text, reading }
        })
        .collect()
}

fn parse(input: &str) -> SxResult<SxValue> {
    parse_sx_text(input, &readings(input))
}

fn sorted_object(pairs: Vec<(&str, SxValue)>) -> SxValue {
    let mut entries: Vec<(String, SxValue)> = pairs.into_iter().map(|(k, v)| (k.to_string(), v)).collect();
    entries.sort_by(|a, b| a.0.cmp(&b.0));
    SxValue::Object(entries)
}

fn canon(v: &SxValue) -> SxResult<String> {
    canonicalize(v, &Vec::new(), &Vec::new())
}

fn hash(v: &SxValue) -> [u8; 32] {
    logical_hash(v, &Vec::new(), &Vec::new()).unwrap()
}

#[test]
fn same_logical_hash_for_object_ordering() {
    let a = sorted_object(vec![("id", SxValue::I64(1)), ("name", SxValue::String("Asha".to_string()))]);
    let b = sorted_object(vec![("name", SxValue::String("Asha".to_string())), ("id", SxValue::I64(1))]);
    assert!(logically_equal(&a, &b, &Vec::new(), &Vec::new()).unwrap());
}

#[test]
fn different_logical_data_different_hash() {
    let a = SxValue::String("a".to_string());
    let b = SxValue::String("b".to_string());
    assert_ne!(hash(&a), hash(&b));
}

#[test]
fn text_binary_hash_delta_flow() {
    let text = "{name:\"Asha\",count:1,active:false}";
    let parsed = parse(text).unwrap();
    let bin = encode_binary(&parsed, None, None).unwrap();
    let mut stats = DecodeStats::default();
    let decoded = decode_binary(&bin, &mut stats).unwrap();
    assert_eq!(parsed, decoded);

    let h1 = hash(&parsed);
    let h2 = hash(&decoded);
    assert_eq!(h1, h2);

    let delta = DeltaDocument {
        from_hash: None,
        ops: vec![DeltaOp {
            kind: DeltaOpKind::Increment,
            path: SxPath::parse("/count").unwrap(),
            value: Some(SxValue::I64(2)),
            from: None,
            index: None,
        }],
    };
    let patched = apply_delta(&decoded, &delta).unwrap();
    let SxValue::Object(map) = patched else {
        panic!("object expected")
    };
    let count = map.iter().find(|(k, _)| k == "count").map(|(_, v)| v);
    assert_eq!(count, Some(&SxValue::I64(3)));
}

fn parse_schema(input: &str) -> SxResult<Schema> {
    let mut rs = Vec::new();
    if let Ok((_, _, lines)) = schema_outline(input) {
        for line in lines {
            if let Ok(parts) = field_line_parts(&line) {
                if let Some(text) = &parts.default_text {
                    rs.extend(readings(text));
                }
            }
        }
    }
    sx_protocol::schema_parse::parse_schema(input, &rs).unwrap()
}

#[test]
fn schema_validation_flow() {
    let schema = parse_schema(
        r#"
        schema User v1 {
          #1 id: uuid
          #2 name: string
          #3 active?: bool = true
        }
        "#,
    )
    .unwrap();

    let obj = sorted_object(vec![
        ("id", SxValue::Uuid(*uuid::Uuid::new_v4().as_bytes())),
        ("name", SxValue::String("Asha".to_string())),
    ]);
    validate(&schema, &obj).unwrap();
}

#[test]
fn canonical_text_of_scalars() {
    assert_eq!(canon(&SxValue::Null).unwrap(), "null");
    assert_eq!(canon(&SxValue::Bool(false)).unwrap(), "false");
    assert_eq!(canon(&SxValue::U16(7)).unwrap(), "u:7");
    assert_eq!(canon(&SxValue::I32(-12)).unwrap(), "i:-12");
    assert_eq!(canon(&SxValue::Decimal(DecimalValue { scaled: 12300, scale: 3 })).unwrap(), "d:123@1");
    assert_eq!(canon(&SxValue::String("a:b,c".to_string())).unwrap(), "s:a\\:b\\,c");
    assert_eq!(canon(&SxValue::Bytes(vec![0, 255])).unwrap(), "b:00ff");
    assert_eq!(canon(&SxValue::Email("Asha@Example.COM".to_string())).unwrap(), "email:asha@example.com");
    assert_eq!(canon(&SxValue::Date("2024-01-02".to_string())).unwrap(), "date:2024-01-02");
}

#[test]
fn canonical_text_normalizes_timestamps() {
    let v = SxValue::Timestamp("2024-01-01T00:00:00+02:00".to_string());
    assert_eq!(canon(&v).unwrap(), "ts:2023-12-31T22:00:00.000000000Z");
    let bad = SxValue::Timestamp("yesterday".to_string());
    let e = canon(&bad).unwrap_err();
    assert_eq!(e.code, SxErrorCode::ValidationError);
    assert!(e.message.starts_with("invalid timestamp 'yesterday': "));
}

#[test]
fn canonical_text_sorts_map_entries_and_keeps_object_order() {
    let m = SxValue::MapEntries(vec![
        (SxValue::String("b".to_string()), SxValue::I64(2)),
        (SxValue::String("a".to_string()), SxValue::I64(1)),
    ]);
    assert_eq!(canon(&m).unwrap(), "map{s:a:i:1,s:b:i:2}");
    let o = sorted_object(vec![("x", SxValue::Array(vec![SxValue::U8(1), SxValue::Null]))]);
    assert_eq!(canon(&o).unwrap(), "{x:[u:1,null]}");
}

#[test]
fn canonical_text_takes_float_texts_from_tables() {
    let v = SxValue::Array(vec![
        SxValue::F64(1.5f64.to_bits()),
        SxValue::TypedArray(SxTypedArray::F64(vec![2.5f64.to_bits()])),
    ]);
    let debug = vec![FloatText { wide: true, bits: 2.5f64.to_bits(), text: "2.5".to_string() }];
    let normal = vec![FloatText { wide: true, bits: 1.5f64.to_bits(), text: "1.5".to_string() }];
    assert_eq!(canonicalize(&v, &debug, &normal).unwrap(), "[f:1.5,typed:F64([2.5])]");
}

#[test]
fn debug_text_of_values() {
    let v = SxValue::Array(vec![SxValue::I64(-3), SxValue::String("q\"".to_string())]);
    assert_eq!(debug_value(&v, &Vec::new()), "Array([I64(-3), String(\"q\\\"\")])");
}

#[test]
fn hashes_are_sha256_of_canonical_text() {
    let v = SxValue::I64(5);
    let expected: [u8; 32] = sha2::Sha256::digest(b"i:5").into();
    assert_eq!(hash(&v), expected);
}

#[test]
fn signatures_are_unsupported() {
    let v = SxValue::Null;
    let e = sign_value(&v, "ed25519", &[1, 2]).unwrap_err();
    assert_eq!(e.code, SxErrorCode::UnsupportedFeature);
    let e = verify_signature(&v, "ed25519", &[1], &[2]).unwrap_err();
    assert_eq!(e.code, SxErrorCode::UnsupportedFeature);
    assert_eq!(e.message, "signature algorithms are unsupported in v1; hash-only mode implemented");
}

#[test]
fn schema_text_reads_defaults_and_reports_field_errors() {
    let schema = parse_schema("schema T v3 {\n  #2 ratio?: f64 = 1.5\n  #1 n: i64 = 4\n}").unwrap();
    assert_eq!(schema.name, "T");
    assert_eq!(schema.version, 3);
    assert_eq!(schema.fields.len(), 2);
    assert_eq!(schema.fields[0].id, 2);
    assert_eq!(schema.fields[0].default, Some(SxValue::F64(1.5f64.to_bits())));
    assert_eq!(schema.fields[1].default, Some(SxValue::I64(4)));
    let e = parse_schema("schema T v1 {\n  #x a: string\n}").unwrap_err();
    assert_eq!(e.code, SxErrorCode::ParseError);
    assert_eq!(e.message, "invalid field id: invalid digit found in string");
    assert!(sx_protocol::schema_parse::parse_schema("schema T v1 {\n  #1 a: f64 = 2.5\n}", &Vec::new()).is_none());
}
