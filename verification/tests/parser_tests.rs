use sx_protocol::codec::{decode_binary, encode_binary};
use sx_protocol::decode::DecodeStats;
use sx_protocol::delta::apply_delta;
use sx_protocol::diagnostics::ParseDiagnostic;
use sx_protocol::error::{SxErrorCode, SxResult};
use sx_protocol::parser::{
    number_literals, parse_sx_text, parse_sx_text_with_diagnostics, try_parse_sx_text, FloatReading,
};
use sx_protocol::path::SxPath;
use sx_protocol::value::{
    DecimalValue, DeltaDocument, DeltaOp, DeltaOpKind, MoneyValue, SxColumn, SxTypedArray, SxValue,
};

fn readings(input: &str) -> Vec<FloatReading> {
    number_literals(input)
        .into_iter()
        .map(|text| {
            let reading = match text.parse::<f64>() {
                Ok(f) => Ok((f.to_bits(), (f as f32).to_bits())),
                Err(e) => Err(e.to_string()),
            };
            FloatReading { text, reading }
        })
        .collect()
}

fn parse(input: &str) -> SxResult<SxValue> {
    parse_sx_text(input, &readings(input))
}

fn diag(input: &str) -> ParseDiagnostic {
    parse_sx_text_with_diagnostics(input, &readings(input)).unwrap_err()
}

fn field<'a>(m: &'a [(String, SxValue)], k: &str) -> Option<&'a SxValue> {
    m.iter().find(|(n, _)| n == k).map(|(_, v)| v)
}

#[test]
fn parse_object_and_typed_array() {
    let input = r#"{ user: { id: uuid("018f4b5e-7a24-7c8a-b28d-3f951a1b7f13"), active: true }, temps: f32[1.2, 3.4,], }"#;
    let v = parse(input).unwrap();
    let SxValue::Object(m) = v else {
        panic!("expected object")
    };
    assert!(field(&m, "user").is_some());
    assert!(field(&m, "temps").is_some());
}

#[test]
fn parse_delta() {
    let input = r#"delta from hash("abc") { set /a = 1, increment /n by 2, remove /x }"#;
    let v = parse(input).unwrap();
    let SxValue::Delta(d) = v else {
        panic!("expected delta")
    };
    assert_eq!(d.ops.len(), 3);
}

#[test]
fn parse_table_and_message() {
    let t = parse("table T { temp: f32[1.0, 2.0], active: bool[true, false] }").unwrap();
    assert!(matches!(t, SxValue::Table(_)));
    let m = parse("message M { a: 1 }").unwrap();
    assert!(matches!(m, SxValue::Message(_)));
}

#[test]
fn parsed_values_in_detail() {
    let v = parse(r#"{ b: [1, -2.5, "x", null, false], a: bytes("base64:aGk="), u: u8[1, 300], c: ident }"#).unwrap();
    let SxValue::Object(m) = v else {
        panic!("expected object")
    };
    let keys: Vec<&str> = m.iter().map(|(k, _)| k.as_str()).collect();
    assert_eq!(keys, vec!["a", "b", "c", "u"]);
    assert_eq!(field(&m, "a"), Some(&SxValue::Bytes(b"hi".to_vec())));
    assert_eq!(
        field(&m, "b"),
        Some(&SxValue::Array(vec![
            SxValue::I64(1),
            SxValue::F64((-2.5f64).to_bits()),
            SxValue::String("x".to_string()),
            SxValue::Null,
            SxValue::Bool(false),
        ]))
    );
    assert_eq!(field(&m, "u"), Some(&SxValue::TypedArray(SxTypedArray::U8(vec![1, 44]))));
    assert_eq!(field(&m, "c"), Some(&SxValue::String("ident".to_string())));
}

#[test]
fn parse_table_columns() {
    let t = parse("table { temp: f64[1.5], names: [\"a\"] }").unwrap();
    let SxValue::Table(t) = t else {
        panic!("expected table")
    };
    assert_eq!(t.columns.len(), 2);
    assert_eq!(t.columns[0].0, "names");
    assert_eq!(t.columns[0].1, SxColumn::Values(vec![SxValue::String("a".to_string())]));
    assert_eq!(t.columns[1].1, SxColumn::Typed(SxTypedArray::F64(vec![1.5f64.to_bits()])));
}

#[test]
fn parse_decimal_and_money() {
    assert_eq!(
        parse(r#"decimal("12.345", scale: 2)"#).unwrap(),
        SxValue::Decimal(DecimalValue { scaled: 1234, scale: 2 })
    );
    assert_eq!(
        parse(r#"decimal(" -1.5 ", scale: 3)"#).unwrap(),
        SxValue::Decimal(DecimalValue { scaled: -1500, scale: 3 })
    );
    assert_eq!(parse(r#"decimal("7")"#).unwrap(), SxValue::Decimal(DecimalValue { scaled: 7, scale: 0 }));
    assert_eq!(
        parse(r#"money("EUR", 1250, scale: 2)"#).unwrap(),
        SxValue::Money(MoneyValue { currency: "EUR".to_string(), scaled: 1250, scale: 2 })
    );
    let d = diag(r#"decimal("x.1")"#);
    assert_eq!((d.message.as_str(), d.line, d.column), ("invalid decimal integer part", 1, 1));
    let d = diag(r#"decimal("abc")"#);
    assert_eq!(d.message, "invalid decimal value");
}

#[test]
fn decimal_overflow_does_not_return() {
    let input = r#"decimal("1", scale: 40)"#;
    assert!(try_parse_sx_text(input, &readings(input)).is_none());
}

#[test]
fn parse_delta_operations() {
    let v = parse(r#"delta { insert /arr at 1 "x" move /b from /a copy /c from /a clear /d }"#).unwrap();
    let SxValue::Delta(d) = v else {
        panic!("expected delta")
    };
    assert_eq!(d.from_hash, None);
    assert_eq!(d.ops.len(), 4);
    assert_eq!(d.ops[0].kind, DeltaOpKind::Insert);
    assert_eq!(d.ops[0].index, Some(1));
    assert_eq!(d.ops[0].value, Some(SxValue::String("x".to_string())));
    assert_eq!(d.ops[1].kind, DeltaOpKind::Move);
    assert_eq!(d.ops[1].from, Some(SxPath::parse("/a").unwrap()));
    assert_eq!(d.ops[3].kind, DeltaOpKind::Clear);
    assert_eq!(d.ops[3].value, None);
}

#[test]
fn parse_schema_text() {
    let v = parse("schema User v2 { @pii #7 name?: string, age: u8 }").unwrap();
    let SxValue::Object(m) = v else {
        panic!("expected object")
    };
    let keys: Vec<&str> = m.iter().map(|(k, _)| k.as_str()).collect();
    assert_eq!(keys, vec!["$fields", "$schema_name", "$schema_version"]);
    assert_eq!(field(&m, "$schema_version"), Some(&SxValue::I64(2)));
    let Some(SxValue::Array(fields)) = field(&m, "$fields") else {
        panic!("expected fields")
    };
    let SxValue::Object(f0) = &fields[0] else {
        panic!("expected field object")
    };
    assert_eq!(field(f0, "id"), Some(&SxValue::I64(7)));
    assert_eq!(field(f0, "optional"), Some(&SxValue::Bool(true)));
    assert_eq!(field(f0, "hints"), Some(&SxValue::Array(vec![SxValue::String("pii".to_string())])));
    let SxValue::Object(f1) = &fields[1] else {
        panic!("expected field object")
    };
    assert_eq!(field(f1, "id"), Some(&SxValue::I64(2)));
    assert_eq!(field(f1, "type"), Some(&SxValue::String("u8".to_string())));
}

#[test]
fn parse_errors_with_positions() {
    let d = diag("{a: 1, a: 2}");
    assert_eq!((d.message.as_str(), d.line, d.column), ("duplicate key 'a'", 1, 12));
    let d = diag("{a: 1}\n x");
    assert_eq!((d.message.as_str(), d.line, d.column), ("unexpected trailing tokens", 2, 2));
    let d = diag("{a 1}");
    assert_eq!(d.message, "expected Colon");
    let d = diag("[1 2]");
    assert_eq!(d.message, "expected ',' or ']'");
    let d = diag("foo(\"x\")");
    assert_eq!(d.message, "unsupported typed literal 'foo'");
    let d = diag("/p");
    assert_eq!(d.message, "unexpected token Path(\"/p\")");
    let d = diag("bool[true, 1]");
    assert_eq!(d.message, "expected true/false in bool[]");
    let e = parse("{a: }").unwrap_err();
    assert_eq!(e.code, SxErrorCode::ParseError);
    assert_eq!(e.message, "unexpected token RBrace at 1:5");
}

#[test]
fn float_readings_are_used() {
    let input = "[1.5, 2e3]";
    let mut rs = readings(input);
    assert_eq!(rs.len(), 2);
    rs[1].reading = Err("bad".to_string());
    let d = parse_sx_text_with_diagnostics(input, &rs).unwrap_err();
    assert_eq!(d.message, "invalid float: bad");
    assert!(try_parse_sx_text(input, &Vec::new()).is_none());
}

#[test]
fn parsed_text_roundtrips_binary_and_applies_delta() {
    let parsed = parse("{name:\"Asha\",count:1,active:false}").unwrap();
    let bin = encode_binary(&parsed, None, None).unwrap();
    let mut stats = DecodeStats::default();
    let decoded = decode_binary(&bin, &mut stats).unwrap();
    assert_eq!(parsed, decoded);
    let delta = DeltaDocument {
        from_hash: None,
        ops: vec![DeltaOp {
            kind: DeltaOpKind::Increment,
            path: SxPath::parse("/count").unwrap(),
            value: Some(SxValue::I64(2)),
            from: None,
            index: None,
        }],
    };
    let patched = apply_delta(&decoded, &delta).unwrap();
    let SxValue::Object(map) = patched else {
        panic!("object expected")
    };
    assert_eq!(field(&map, "count"), Some(&SxValue::I64(3)));
}

fn fmt(v: &SxValue) -> String {
    sx_protocol::formatter::format_value(v, &Vec::new())
}

#[test]
fn parse_comments_trailing_unquoted() {
    let input = r#"
    {
      // comment
      name: "Asha",
      active: true,
    }
    "#;
    let v = parse(input).unwrap();
    let formatted = fmt(&v);
    assert!(formatted.contains("name"));
}

#[test]
fn format_nested_values() {
    let v = parse(r#"{ b: [1, "q\"x"], a: {}, c: [] }"#).unwrap();
    assert_eq!(fmt(&v), "{\n  a: {},\n  b: [\n    1,\n    \"q\\\"x\"\n  ],\n  c: []\n}");
}

#[test]
fn format_literals_and_floats() {
    let v = parse(r#"[decimal("-1.25", scale: 2), money("EUR", 5, scale: 1), bytes("aGk="), date("2024-01-02"), u8[1, 2], bool[true]]"#).unwrap();
    assert_eq!(
        fmt(&v),
        "[\n  decimal(\"-125\", scale: 2),\n  money(\"EUR\", 5, scale: 1),\n  bytes(\"base64:aGk=\"),\n  date(\"2024-01-02\"),\n  u8[1, 2],\n  bool[true]\n]"
    );
    let f = SxValue::TypedArray(SxTypedArray::F64(vec![1.5f64.to_bits(), 2.0f64.to_bits()]));
    let texts = vec![
        sx_protocol::formatter::FloatText { wide: true, bits: 1.5f64.to_bits(), text: "1.5".to_string() },
        sx_protocol::formatter::FloatText { wide: true, bits: 2.0f64.to_bits(), text: "2".to_string() },
    ];
    assert_eq!(sx_protocol::formatter::format_value(&f, &texts), "f64[1.5, 2]");
}

#[test]
fn format_delta_table_and_message() {
    let d = parse(r#"delta from hash("h") { set /a = 1, remove /b }"#).unwrap();
    assert_eq!(fmt(&d), "delta from hash(\"h\") {\n  set /a = 1\n  remove /b\n}");
    let t = parse("table { n: i32[-1, 2], v: [true] }").unwrap();
    assert_eq!(fmt(&t), "table {\n  n: i32[-1, 2],\n  v: [\n    true\n  ]\n}");
    let m = parse("message { a: 1 }").unwrap();
    assert_eq!(fmt(&m), "message {\n  sx_version: 1,\n  payload: {\n    a: 1\n  }\n}");
}

#[test]
fn floats_in_text_order() {
    let v = parse("{ b: [2.5, f32[1.0]], a: 1.5e0 }").unwrap();
    assert_eq!(
        sx_protocol::formatter::float_values(&v),
        vec![(true, 1.5f64.to_bits()), (true, 2.5f64.to_bits()), (false, 1.0f32.to_bits() as u64)]
    );
}
