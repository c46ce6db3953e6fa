use serde_json::{Number, Value};
use sx_protocol::error::SxErrorCode;
use sx_protocol::json::{sx_to_json, Json, JsonIn, JsonNum, JsonOut, JsonReadings};
use sx_protocol::json_read::json_to_sx;
use sx_protocol::value::{DecimalValue, MoneyValue, SxTypedArray, SxValue};

fn to_serde(j: &JsonOut) -> Value {
    match j {
        Json::Null => Value::Null,
        Json::Bool(b) => Value::Bool(*b),
        Json::Number(JsonNum::Unsigned(u)) => Value::Number(Number::from(*u)),
        Json::Number(JsonNum::Signed(i)) => Value::Number(Number::from(*i)),
        Json::Number(JsonNum::Float(b)) => Number::from_f64(f64::from_bits(*b)).map_or(Value::Null, Value::Number),
        Json::Number(JsonNum::Float32(b)) => {
            Number::from_f64(f32::from_bits(*b) as f64).map_or(Value::Null, Value::Number)
        }
        Json::String(s) => Value::String(s.clone()),
        Json::Array(items) => Value::Array(items.iter().map(to_serde).collect()),
        Json::Object(entries) => {
            let mut m = serde_json::Map::new();
            for (k, v) in entries {
                m.insert(k.clone(), to_serde(v));
            }
            Value::Object(m)
        }
    }
}

fn from_serde(v: &Value) -> JsonIn {
    match v {
        Value::Null => Json::Null,
        Value::Bool(b) => Json::Bool(*b),
        Value::Number(n) => Json::Number(JsonReadings {
            as_i64: n.as_i64(),
            as_u64: n.as_u64(),
            as_f64: n.as_f64().map(f64::to_bits),
            as_f32: (n.as_f64().unwrap_or(0.0) as f32).to_bits(),
        }),
        Value::String(s) => Json::String(s.clone()),
        Value::Array(items) => Json::Array(items.iter().map(from_serde).collect()),
        Value::Object(m) => Json::Object(m.iter().map(|(k, v)| (k.clone(), from_serde(v))).collect()),
    }
}

fn roundtrip(v: &SxValue) -> SxValue {
    json_to_sx(&from_serde(&to_serde(&sx_to_json(v)))).unwrap()
}

#[test]
fn tagged_roundtrip_uuid() {
    let v = SxValue::Uuid(*uuid::Uuid::new_v4().as_bytes());
    let back = roundtrip(&v);
    assert_eq!(v, back);
}

#[test]
fn json_tagged_bytes_roundtrip() {
    let value = SxValue::Bytes(vec![1, 2, 3]);
    let back = roundtrip(&value);
    assert_eq!(value, back);
}

fn tagged(tag: &str, value: Value) -> Value {
    let mut m = serde_json::Map::new();
    m.insert("$type".to_string(), Value::String(tag.to_string()));
    m.insert("$value".to_string(), value);
    Value::Object(m)
}

#[test]
fn uuid_is_written_hyphenated_and_bytes_in_base64() {
    let v = SxValue::Uuid([0x55, 0x0e, 0x84, 0x00, 0xe2, 0x9b, 0x41, 0xd4, 0xa7, 0x16, 0x44, 0x66, 0x55, 0x44, 0x00, 0x00]);
    assert_eq!(
        to_serde(&sx_to_json(&v)),
        tagged("uuid", Value::String("550e8400-e29b-41d4-a716-446655440000".to_string()))
    );
    let b = SxValue::Bytes(vec![1, 2, 3]);
    assert_eq!(to_serde(&sx_to_json(&b)), tagged("bytes", Value::String("AQID".to_string())));
}

#[test]
fn numbers_keep_their_reading() {
    assert_eq!(roundtrip(&SxValue::U8(7)), SxValue::I64(7));
    assert_eq!(roundtrip(&SxValue::I32(-3)), SxValue::I64(-3));
    assert_eq!(roundtrip(&SxValue::U64(u64::MAX)), SxValue::U64(u64::MAX));
    assert_eq!(roundtrip(&SxValue::F64(1.5f64.to_bits())), SxValue::F64(1.5f64.to_bits()));
    assert_eq!(to_serde(&sx_to_json(&SxValue::F64(f64::NAN.to_bits()))), Value::Null);
    assert_eq!(to_serde(&sx_to_json(&SxValue::F32(f32::INFINITY.to_bits()))), Value::Null);
}

#[test]
fn decimal_money_and_nested_values_roundtrip() {
    let values = vec![
        SxValue::Decimal(DecimalValue { scaled: -12345, scale: 2 }),
        SxValue::Decimal(DecimalValue { scaled: i128::MIN, scale: 0 }),
        SxValue::Money(MoneyValue { currency: "EUR".to_string(), scaled: -99, scale: 2 }),
        SxValue::Timestamp("2024-01-01T00:00:00Z".to_string()),
        SxValue::TypedArray(SxTypedArray::I32(vec![1, -2, 3])),
        SxValue::TypedArray(SxTypedArray::F64(vec![0.25f64.to_bits()])),
        SxValue::Array(vec![SxValue::Null, SxValue::Bool(true), SxValue::String("x".to_string())]),
        SxValue::Object(vec![("a".to_string(), SxValue::I64(1)), ("b".to_string(), SxValue::Null)]),
        SxValue::MapEntries(vec![(SxValue::String("k".to_string()), SxValue::I64(2))]),
    ];
    for v in values {
        assert_eq!(roundtrip(&v), v);
    }
    let d = to_serde(&sx_to_json(&SxValue::Decimal(DecimalValue { scaled: -12345, scale: 2 })));
    let mut inner = serde_json::Map::new();
    inner.insert("scale".to_string(), Value::Number(Number::from(2u64)));
    inner.insert("scaled".to_string(), Value::String("-12345".to_string()));
    assert_eq!(d, tagged("decimal", Value::Object(inner)));
}

#[test]
fn reading_errors_carry_their_codes() {
    let bad_uuid = from_serde(&tagged("uuid", Value::String("nope".to_string())));
    assert_eq!(json_to_sx(&bad_uuid).unwrap_err().code, SxErrorCode::ParseError);
    let unknown = from_serde(&tagged("wat", Value::Null));
    assert_eq!(json_to_sx(&unknown).unwrap_err().code, SxErrorCode::UnsupportedFeature);
    let typed_not_array = from_serde(&tagged("typed_array:zz", Value::Null));
    assert_eq!(json_to_sx(&typed_not_array).unwrap_err().code, SxErrorCode::ParseError);
    let typed_unknown = from_serde(&tagged("typed_array:zz", Value::Array(vec![])));
    assert_eq!(json_to_sx(&typed_unknown).unwrap_err().code, SxErrorCode::UnsupportedFeature);
    let mut cols = serde_json::Map::new();
    cols.insert("c".to_string(), Value::Bool(true));
    let bad_table = from_serde(&tagged("table", Value::Object(cols)));
    assert_eq!(json_to_sx(&bad_table).unwrap_err().code, SxErrorCode::TypeMismatch);
    let dup: JsonIn = Json::Object(vec![
        ("a".to_string(), Json::Null),
        ("a".to_string(), Json::Bool(true)),
    ]);
    assert_eq!(json_to_sx(&dup).unwrap_err().code, SxErrorCode::DuplicateKey);
    let mut op = serde_json::Map::new();
    op.insert("kind".to_string(), Value::String("set".to_string()));
    op.insert("path".to_string(), Value::String("no-slash".to_string()));
    let mut delta = serde_json::Map::new();
    delta.insert("ops".to_string(), Value::Array(vec![Value::Object(op)]));
    let bad_path = from_serde(&tagged("delta", Value::Object(delta)));
    assert_eq!(json_to_sx(&bad_path).unwrap_err().code, SxErrorCode::InvalidPath);
}
