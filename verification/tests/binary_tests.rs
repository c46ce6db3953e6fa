use rand::rngs::StdRng;
use rand::Rng;
use rand::SeedableRng;
use sha2::Digest;
use sx_protocol::codec::{decode_binary, encode_binary};
use sx_protocol::decode::{current_decode_stats, reset_decode_stats, DecodeStats};
use sx_protocol::error::SxErrorCode;
use sx_protocol::fastpath::{decode_hot_field_values, scan_table_column, TableScan};
use sx_protocol::path::SxPath;
use sx_protocol::value::{DeltaDocument, DeltaOp, DeltaOpKind, SxColumn, SxTable, SxValue};
use sx_protocol::varint::{decode_varint, encode_varint, zigzag_decode, zigzag_encode};

fn obj(pairs: Vec<(&str, SxValue)>) -> SxValue {
    SxValue::object_from_pairs(pairs.into_iter().map(|(k, v)| (k.to_string(), v)).collect()).unwrap()
}

fn decode(bytes: &[u8]) -> Result<SxValue, sx_protocol::error::SxError> {
    let mut stats = DecodeStats::default();
    decode_binary(bytes, &mut stats)
}

#[test]
fn varint_roundtrip() {
    for v in [0, 1, 127, 128, 16384, u32::MAX as u64] {
        let mut out = Vec::new();
        encode_varint(v, &mut out);
        let mut c = 0;
        let back = decode_varint(&out, &mut c).unwrap();
        assert_eq!(v, back);
        assert_eq!(c, out.len());
    }
}

#[test]
fn zigzag_roundtrip() {
    for v in [-100, -1, 0, 1, 7, i32::MAX as i64] {
        assert_eq!(zigzag_decode(zigzag_encode(v)), v);
    }
}

#[test]
fn zigzag_exact_values() {
    assert_eq!(zigzag_encode(0), 0);
    assert_eq!(zigzag_encode(-1), 1);
    assert_eq!(zigzag_encode(1), 2);
    assert_eq!(zigzag_encode(-2), 3);
    assert_eq!(zigzag_encode(i64::MIN), u64::MAX);
    assert_eq!(zigzag_decode(u64::MAX), i64::MIN);
}

#[test]
fn varint_exact_bytes_and_errors() {
    let mut out = Vec::new();
    encode_varint(300, &mut out);
    assert_eq!(out, vec![0xAC, 0x02]);
    let mut c = 0;
    assert_eq!(decode_varint(&[0x80], &mut c).unwrap_err().code, SxErrorCode::UnexpectedEof);
    let mut c = 0;
    let too_long = [0xFFu8; 10];
    assert_eq!(decode_varint(&too_long, &mut c).unwrap_err().code, SxErrorCode::InvalidNumber);
}

#[test]
fn encode_decode_roundtrip() {
    let v = obj(vec![("a", SxValue::I64(1)), ("b", SxValue::String("x".to_string()))]);
    let b = encode_binary(&v, None, None).unwrap();
    let back = decode(&b).unwrap();
    assert_eq!(v, back);
}

#[test]
fn malformed_rejected() {
    let bad = b"SX\0\x01\x00\x05\x00\x00\x00".to_vec();
    let err = decode(&bad).unwrap_err();
    assert!(matches!(err.code, SxErrorCode::InvalidLength));
}

fn event_rows(n: i64, cold: &str) -> SxValue {
    let mut rows = Vec::new();
    for i in 0..n {
        rows.push(obj(vec![
            ("tenant", SxValue::String("acme".to_string())),
            ("type", SxValue::String("click".to_string())),
            ("timestamp", SxValue::I64(1_700_000_000_000 + i)),
            ("cold_payload", SxValue::String(format!("blob-{}-{}", i, cold.repeat(64)))),
        ]));
    }
    SxValue::Array(rows)
}

#[test]
fn columnar_event_batch_roundtrip() {
    let value = event_rows(128, "x");
    let encoded = encode_binary(&value, None, None).unwrap();
    let decoded = decode(&encoded).unwrap();
    assert_eq!(decoded, value);
}

#[test]
fn hot_field_fast_path_avoids_full_decode_and_cold_values() {
    let mut rows = Vec::new();
    for i in 0..128 {
        rows.push(obj(vec![
            ("tenant", SxValue::String("acme".to_string())),
            ("timestamp", SxValue::I64(1_700_000_000_000 + i)),
            ("cold_payload", SxValue::String(format!("payload-{}-{}", i, "z".repeat(256)))),
        ]));
    }
    let value = SxValue::Array(rows);
    let encoded = encode_binary(&value, None, None).unwrap();

    let mut stats = DecodeStats::default();
    reset_decode_stats(&mut stats);
    let tenants = decode_hot_field_values(&encoded, "tenant", &mut stats).unwrap();
    let stats = current_decode_stats(&stats);
    assert_eq!(tenants.len(), 128);
    assert!(tenants.iter().all(|v| matches!(v, SxValue::String(s) if s == "acme")));
    assert_eq!(stats.full_decode_calls, 0);
    assert_eq!(stats.rows_materialized, 0);
    assert_eq!(stats.cold_values_decoded, 0);
}

#[test]
fn table_scan_fast_path_avoids_row_materialization() {
    let mut id = Vec::new();
    let mut temp = Vec::new();
    let mut active = Vec::new();
    for i in 0..10_000 {
        id.push(SxValue::I64(i as i64));
        temp.push(SxValue::F64((20.0 + (i as f64 * 0.001)).to_bits()));
        active.push(SxValue::Bool(i % 2 == 0));
    }
    let columns = vec![
        ("active".to_string(), SxColumn::Values(active)),
        ("id".to_string(), SxColumn::Values(id)),
        ("temp".to_string(), SxColumn::Values(temp)),
    ];
    let table = SxValue::Table(SxTable { columns });
    let encoded = encode_binary(&table, None, None).unwrap();

    let mut stats = DecodeStats::default();
    reset_decode_stats(&mut stats);
    let scanned = scan_table_column(&encoded, "temp", &mut stats).unwrap();
    let matched = match scanned {
        TableScan::FloatBits(bits) => bits.iter().filter(|b| f64::from_bits(**b) > 25.0).count(),
        _ => panic!("expected an f64 column"),
    };
    let stats = current_decode_stats(&stats);
    assert!(matched > 0);
    assert_eq!(stats.full_decode_calls, 0);
    assert_eq!(stats.rows_materialized, 0);
}

#[test]
fn malformed_binary_rejected() {
    let malformed = vec![0, 1, 2, 3];
    assert!(decode(&malformed).is_err());
}

#[derive(Clone, Copy, Debug)]
struct Entry {
    kind: u8,
    offset: usize,
    length: usize,
    checksum_pos: usize,
}

fn parse_entries(bytes: &[u8]) -> Vec<Entry> {
    let mut cursor = 9usize;
    let segment_count = u16::from_le_bytes([bytes[cursor], bytes[cursor + 1]]) as usize;
    cursor += 2;
    let mut entries = Vec::with_capacity(segment_count);
    for _ in 0..segment_count {
        let kind = bytes[cursor + 2];
        let offset = u32::from_le_bytes([bytes[cursor + 4], bytes[cursor + 5], bytes[cursor + 6], bytes[cursor + 7]])
            as usize;
        let length = u32::from_le_bytes([bytes[cursor + 8], bytes[cursor + 9], bytes[cursor + 10], bytes[cursor + 11]])
            as usize;
        entries.push(Entry { kind, offset, length, checksum_pos: cursor + 12 });
        cursor += 16;
    }
    entries
}

fn patch_checksum(bytes: &mut [u8], entry: Entry) {
    let digest = sha2::Sha256::digest(&bytes[entry.offset..entry.offset + entry.length]);
    let checksum = [digest[0], digest[1], digest[2], digest[3]];
    bytes[entry.checksum_pos..entry.checksum_pos + 4].copy_from_slice(&checksum);
}

fn build_columnar_event_batch() -> SxValue {
    let mut rows = Vec::new();
    for i in 0..128 {
        rows.push(obj(vec![
            ("tenant", SxValue::String("acme".to_string())),
            ("type", SxValue::String(if i % 2 == 0 { "click" } else { "view" }.to_string())),
            ("timestamp", SxValue::I64(1_700_000_000_000 + i)),
        ]));
    }
    SxValue::Array(rows)
}

fn read_varint(bytes: &[u8], cursor: &mut usize) -> Option<u64> {
    let mut shift = 0u32;
    let mut out = 0u64;
    loop {
        let b = *bytes.get(*cursor)?;
        *cursor += 1;
        out |= ((b & 0x7F) as u64) << shift;
        if b & 0x80 == 0 {
            return Some(out);
        }
        shift += 7;
        if shift > 63 {
            return None;
        }
    }
}

fn skip_column(bytes: &[u8], cursor: &mut usize, kind: u8) -> Option<()> {
    match kind {
        1 => {
            let dict_len = read_varint(bytes, cursor)? as usize;
            for _ in 0..dict_len {
                let l = read_varint(bytes, cursor)? as usize;
                *cursor += l;
            }
            let ids_len = read_varint(bytes, cursor)? as usize;
            for _ in 0..ids_len {
                let _ = read_varint(bytes, cursor)?;
            }
        }
        2 | 4 => {
            let len = read_varint(bytes, cursor)? as usize;
            *cursor += len * 8;
        }
        3 => {
            let _len = read_varint(bytes, cursor)? as usize;
            let bytes_len = read_varint(bytes, cursor)? as usize;
            *cursor += bytes_len;
        }
        _ => return None,
    }
    Some(())
}

fn locate_first_column_dict_id(column_payload: &[u8]) -> Option<usize> {
    let mut cursor = 1usize;
    let rows = read_varint(column_payload, &mut cursor)? as usize;
    let cols = read_varint(column_payload, &mut cursor)? as usize;
    for _ in 0..cols {
        let _field_id = read_varint(column_payload, &mut cursor)?;
        let name_len = read_varint(column_payload, &mut cursor)? as usize;
        cursor += name_len;
        let kind = *column_payload.get(cursor)?;
        cursor += 1;
        if kind == 1 {
            let dict_len = read_varint(column_payload, &mut cursor)? as usize;
            for _ in 0..dict_len {
                let l = read_varint(column_payload, &mut cursor)? as usize;
                cursor += l;
            }
            let ids_len = read_varint(column_payload, &mut cursor)? as usize;
            if ids_len != rows {
                return None;
            }
            return Some(cursor);
        }
        skip_column(column_payload, &mut cursor, kind)?;
    }
    None
}

#[test]
fn malformed_segment_offset_out_of_bounds_rejected() {
    let value = obj(vec![("x", SxValue::I64(1))]);
    let mut bytes = encode_binary(&value, None, None).unwrap();
    let entries = parse_entries(&bytes);
    assert!(!entries.is_empty());
    let first_offset_pos = 11 + 4;
    bytes[first_offset_pos..first_offset_pos + 4].copy_from_slice(&u32::MAX.to_le_bytes());
    let err = decode(&bytes).unwrap_err();
    assert_eq!(err.code, SxErrorCode::SegmentOutOfBounds);
}

#[test]
fn malformed_invalid_total_length_rejected() {
    let value = obj(vec![("x", SxValue::I64(1))]);
    let mut bytes = encode_binary(&value, None, None).unwrap();
    let bad_len = (bytes.len() as u32).saturating_add(17);
    bytes[5..9].copy_from_slice(&bad_len.to_le_bytes());
    let err = decode(&bytes).unwrap_err();
    assert_eq!(err.code, SxErrorCode::InvalidLength);
}

#[test]
fn malformed_invalid_type_tag_rejected() {
    let value = obj(vec![("x", SxValue::I64(1))]);
    let mut bytes = encode_binary(&value, None, None).unwrap();
    let entries = parse_entries(&bytes);
    let value_entry = *entries.iter().find(|e| e.kind == 5).unwrap();
    bytes[value_entry.offset] = 0xFE;
    patch_checksum(&mut bytes, value_entry);
    let err = decode(&bytes).unwrap_err();
    assert_eq!(err.code, SxErrorCode::ValidationError);
}

#[test]
fn malformed_invalid_dictionary_ref_rejected() {
    let batch = build_columnar_event_batch();
    let mut bytes = encode_binary(&batch, None, None).unwrap();
    let entries = parse_entries(&bytes);
    let col_entry = *entries.iter().find(|e| e.kind == 6).unwrap();
    let payload = &mut bytes[col_entry.offset..col_entry.offset + col_entry.length];
    let first_id_pos = locate_first_column_dict_id(payload).unwrap();
    payload[first_id_pos] = 2;
    patch_checksum(&mut bytes, col_entry);
    let err = decode(&bytes).unwrap_err();
    assert_eq!(err.code, SxErrorCode::InvalidDictionaryRef);
}

#[test]
fn malformed_invalid_shape_ref_rejected() {
    let value = obj(vec![("x", SxValue::I64(1))]);
    let mut bytes = encode_binary(&value, None, None).unwrap();
    let entries = parse_entries(&bytes);
    let shape_entry = *entries.iter().find(|e| e.kind == 3).unwrap();
    let shape_start = shape_entry.offset;
    bytes[shape_start + 2] = 0xFF;
    patch_checksum(&mut bytes, shape_entry);
    let err = decode(&bytes).unwrap_err();
    assert_eq!(err.code, SxErrorCode::InvalidShapeRef);
}

#[test]
fn malformed_truncated_buffers_rejected() {
    let value = build_columnar_event_batch();
    let bytes = encode_binary(&value, None, None).unwrap();
    let mut rng = StdRng::seed_from_u64(1234);
    for _ in 0..64 {
        let keep = rng.gen_range(0..bytes.len());
        let truncated = &bytes[..keep];
        let err = decode(truncated).unwrap_err();
        assert!(
            matches!(
                err.code,
                SxErrorCode::InvalidLength
                    | SxErrorCode::SegmentOutOfBounds
                    | SxErrorCode::UnexpectedEof
                    | SxErrorCode::InvalidMagic
            ),
            "unexpected error code {:?} for truncated length {}",
            err.code,
            keep
        );
    }
}

#[test]
fn malformed_integer_overflow_inputs_rejected() {
    let value = obj(vec![("x", SxValue::I64(1))]);
    let mut bytes = encode_binary(&value, None, None).unwrap();
    let table_offset = 11;
    bytes[table_offset + 8..table_offset + 12].copy_from_slice(&u32::MAX.to_le_bytes());
    let err = decode(&bytes).unwrap_err();
    assert!(matches!(err.code, SxErrorCode::SegmentOutOfBounds | SxErrorCode::InvalidLength));

    let overflow_payload = vec![0x10, 0xFF, 0xFF, 0xFF, 0xFF, 0xFF, 0xFF, 0xFF, 0xFF, 0xFF, 0xFF];
    let digest = sha2::Sha256::digest(&overflow_payload);
    let checksum = [digest[0], digest[1], digest[2], digest[3]];
    let total_len = (27 + overflow_payload.len()) as u32;
    let mut bytes2 = Vec::new();
    bytes2.extend_from_slice(b"SX\0");
    bytes2.push(1);
    bytes2.push(0);
    bytes2.extend_from_slice(&total_len.to_le_bytes());
    bytes2.extend_from_slice(&1u16.to_le_bytes());
    bytes2.extend_from_slice(&1u16.to_le_bytes());
    bytes2.push(5);
    bytes2.push(0);
    bytes2.extend_from_slice(&27u32.to_le_bytes());
    bytes2.extend_from_slice(&(overflow_payload.len() as u32).to_le_bytes());
    bytes2.extend_from_slice(&checksum);
    bytes2.extend_from_slice(&overflow_payload);
    let err2 = decode(&bytes2).unwrap_err();
    assert_eq!(err2.code, SxErrorCode::InvalidNumber);
}

fn random_value(rng: &mut StdRng, depth: usize) -> SxValue {
    if depth > 3 {
        return SxValue::I64(rng.gen_range(-1000..1000));
    }
    match rng.gen_range(0..8) {
        0 => SxValue::Null,
        1 => SxValue::Bool(rng.gen_bool(0.5)),
        2 => SxValue::I64(rng.gen_range(-1000..1000)),
        3 => SxValue::U64(rng.gen_range(0..1000)),
        4 => SxValue::F64(rng.gen_range(-100.0f64..100.0).to_bits()),
        5 => SxValue::String(format!("s{}", rng.gen::<u32>())),
        6 => {
            let mut arr = Vec::new();
            for _ in 0..rng.gen_range(0..4) {
                arr.push(random_value(rng, depth + 1));
            }
            SxValue::Array(arr)
        }
        _ => {
            let mut pairs = Vec::new();
            for i in 0..rng.gen_range(0..4) {
                pairs.push((format!("k{}", i), random_value(rng, depth + 1)));
            }
            SxValue::object_from_pairs(pairs).unwrap()
        }
    }
}

#[test]
fn deterministic_random_roundtrip() {
    let mut rng = StdRng::seed_from_u64(7);
    for _ in 0..128 {
        let v = random_value(&mut rng, 0);
        let b = encode_binary(&v, None, None).unwrap();
        let back = decode(&b).unwrap();
        assert_eq!(v, back);
    }
}

#[test]
fn header_carries_hashes_and_flags() {
    let v = SxValue::Null;
    let b = encode_binary(&v, Some([7u8; 32]), Some([9u8; 32])).unwrap();
    assert_eq!(&b[0..3], b"SX\0");
    assert_eq!(b[3], 1);
    assert_eq!(b[4], 3);
    assert_eq!(u32::from_le_bytes([b[5], b[6], b[7], b[8]]) as usize, b.len());
    assert_eq!(&b[11..43], &[7u8; 32]);
    assert_eq!(&b[43..75], &[9u8; 32]);
    assert_eq!(decode(&b).unwrap(), SxValue::Null);
}

#[test]
fn narrow_numbers_widen_on_decode() {
    let v = SxValue::Array(vec![SxValue::U8(7), SxValue::I16(-3), SxValue::F32(1.5f32.to_bits())]);
    let b = encode_binary(&v, None, None).unwrap();
    let back = decode(&b).unwrap();
    assert_eq!(
        back,
        SxValue::Array(vec![SxValue::U64(7), SxValue::I64(-3), SxValue::F64(1.5f64.to_bits())])
    );
}

#[test]
fn widened_f32_bits_match_the_hardware_conversion() {
    for x in [0.0f32, -0.0, 1.0, -2.5, 1e-40, f32::MIN_POSITIVE, f32::MAX, f32::INFINITY, f32::NEG_INFINITY] {
        assert_eq!(sx_protocol::binary::widen_f32(x.to_bits()), (x as f64).to_bits());
    }
    assert!(f64::from_bits(sx_protocol::binary::widen_f32(f32::NAN.to_bits())).is_nan());
}

#[test]
fn map_entries_encode_as_objects_keyed_by_debug_text() {
    let v = SxValue::MapEntries(vec![
        (SxValue::String("a".to_string()), SxValue::I64(1)),
        (SxValue::I64(7), SxValue::Bool(true)),
    ]);
    let bytes = encode_binary(&v, None, None).unwrap();
    let SxValue::Object(fields) = decode(&bytes).unwrap() else {
        panic!("object expected")
    };
    assert_eq!(
        fields,
        vec![("I64(7)".to_string(), SxValue::Bool(true)), ("String(\"a\")".to_string(), SxValue::I64(1))]
    );
}

#[test]
fn map_key_holding_a_float_is_refused() {
    let v = SxValue::MapEntries(vec![(SxValue::F64(1.5f64.to_bits()), SxValue::Null)]);
    let e = encode_binary(&v, None, None).unwrap_err();
    assert_eq!(e.code, SxErrorCode::UnsupportedFeature);
}

fn set_op(path: &str, value: SxValue) -> DeltaOp {
    DeltaOp { kind: DeltaOpKind::SetAt, path: SxPath::parse(path).unwrap(), value: Some(value), from: None, index: None }
}

#[test]
fn delta_documents_encode_as_their_text() {
    let d = DeltaDocument {
        from_hash: Some("abc".to_string()),
        ops: vec![
            set_op("/a", SxValue::I64(1)),
            DeltaOp { kind: DeltaOpKind::Remove, path: SxPath::parse("/b").unwrap(), value: None, from: None, index: None },
        ],
    };
    let v = SxValue::Delta(d);
    let bytes = encode_binary(&v, None, None).unwrap();
    assert_eq!(decode(&bytes).unwrap(), v);
}

#[test]
fn delta_holding_a_float_is_refused() {
    let d = DeltaDocument { from_hash: None, ops: vec![set_op("/a", SxValue::F64(2.5f64.to_bits()))] };
    let e = encode_binary(&SxValue::Delta(d), None, None).unwrap_err();
    assert_eq!(e.code, SxErrorCode::UnsupportedFeature);
}

#[test]
fn every_prefix_of_a_container_is_refused_as_too_short() {
    let v = obj(vec![("a", SxValue::I64(5)), ("b", SxValue::String("x".to_string()))]);
    let bytes = encode_binary(&v, Some([7u8; 32]), None).unwrap();
    for k in 0..bytes.len() {
        assert_eq!(decode(&bytes[..k]).unwrap_err().code, SxErrorCode::InvalidLength);
    }
}

#[test]
fn columnar_table_reads_back_with_generic_columns() {
    let n = 70usize;
    let ids: Vec<i32> = (0..n as i32).collect();
    let names = |_: ()| -> Vec<SxValue> { (0..n).map(|i| SxValue::String(format!("n{}", i % 3))).collect() };
    let flags: Vec<bool> = (0..n).map(|i| i % 2 == 0).collect();
    let table = SxValue::Table(SxTable {
        columns: vec![
            ("flag".to_string(), SxColumn::Typed(sx_protocol::value::SxTypedArray::Bool(flags.clone()))),
            ("id".to_string(), SxColumn::Typed(sx_protocol::value::SxTypedArray::I32(ids.clone()))),
            ("name".to_string(), SxColumn::Values(names(()))),
        ],
    });
    let bytes = encode_binary(&table, None, None).unwrap();
    let expected = SxValue::Table(SxTable {
        columns: vec![
            ("flag".to_string(), SxColumn::Values(flags.iter().map(|b| SxValue::Bool(*b)).collect())),
            ("id".to_string(), SxColumn::Values(ids.iter().map(|x| SxValue::I64(*x as i64)).collect())),
            ("name".to_string(), SxColumn::Values(names(()))),
        ],
    });
    assert_eq!(decode(&bytes).unwrap(), expected);
}
