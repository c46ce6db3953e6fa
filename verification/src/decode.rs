//! Reading the SX binary value encoding back.
//!
//! The `*_at` spec functions say what reading at a position yields: the
//! value read and the position after it, or the error code reading stops
//! with.  Each follows the reader step by step, so the error that comes first
//! is the one reported.
use crate::binary::{
    bit_weight, unpack_bits, TAG_ARRAY, TAG_BLOB_REF, TAG_BYTES, TAG_DATE, TAG_DECIMAL, TAG_DELTA, TAG_DURATION,
    TAG_F64, TAG_FALSE, TAG_I64, TAG_NULL, TAG_OBJECT, TAG_REFERENCE, TAG_STRING, TAG_TABLE, TAG_TENSOR,
    TAG_TIMESTAMP, TAG_TRUE, TAG_TYPED_ARRAY, TAG_U64, TAG_UUID,
};
use crate::binary::weight_of;
use crate::bytes::{copy_range, fixed_at, read_le, read_le128, span, string_from_utf8};
use crate::error::{SxError, SxErrorCode, SxResult};
use crate::value::{
    dv, dv_column, dv_columns, dv_fields, dv_vals, BlobRef, DecimalValue, MoneyValue, ReferenceValue, SxColumn,
    SxTable, SxTensor, SxTypedArray, SxValue,
};
use crate::value_ops::lemma_dv_columns;
use crate::fields::{find_key, insert_field, key_position, lemma_dv_fields, lemma_insert_at, lemma_insert_sorted};
use crate::keys::{key_lt, sorted_keys, sorted_str_keys, str_equal};
use crate::varint::zigzag_decode;
use crate::varint::decode_varint;
use crate::fields::{has_key, insert_entry};
use crate::value::{V, VColumn, VTyped};
use crate::varint::{lemma_read_varint_bounds, spec_read_varint, spec_unzigzag};
use vstd::prelude::*;
use crate::chars::u64_to_decimal;
use crate::parser::{readings_view, text_parse, try_parse_sx_text, Fail, FloatReading};
use vstd::string::StringSliceAdditionalSpecFns;
use vstd::utf8::{decode_utf8, decode_utf8_encode_utf8, encode_utf8, valid_utf8};

verus! {

/// One byte.
pub open spec fn byte_at(b: Seq<u8>, pos: int) -> Result<(u8, int), SxErrorCode> {
    if 0 <= pos < b.len() {
        Ok((b[pos], pos + 1))
    } else {
        Err(SxErrorCode::UnexpectedEof)
    }
}

/// A flag byte: anything but 0 is set.
pub open spec fn flag_at(b: Seq<u8>, pos: int) -> Result<(bool, int), SxErrorCode> {
    match byte_at(b, pos) {
        Err(e) => Err(e),
        Ok((x, p)) => Ok((x != 0, p)),
    }
}

/// A varint length, then that many bytes.
pub open spec fn bytes_at(b: Seq<u8>, pos: int) -> Result<(Seq<u8>, int), SxErrorCode> {
    match spec_read_varint(b, pos) {
        Err(e) => Err(e),
        Ok((n, p)) => match span(b.len() as int, p, (n as usize) as int) {
            Err(e) => Err(e),
            Ok(end) => Ok((b.subrange(p, end), end)),
        },
    }
}

/// A length-prefixed string, which must be UTF-8.
pub open spec fn str_at(b: Seq<u8>, pos: int) -> Result<(Seq<char>, int), SxErrorCode> {
    match bytes_at(b, pos) {
        Err(e) => Err(e),
        Ok((raw, p)) => if valid_utf8(raw) {
            Ok((decode_utf8(raw), p))
        } else {
            Err(SxErrorCode::InvalidUtf8)
        },
    }
}

/// `n` little-endian numbers of `w` bytes each, appended to `acc`.
pub open spec fn words_at(b: Seq<u8>, pos: int, n: nat, w: nat, acc: Seq<nat>) -> Result<(Seq<nat>, int), SxErrorCode>
    decreases n,
{
    if n == 0 {
        Ok((acc, pos))
    } else {
        match fixed_at(b, pos, w as int) {
            Err(e) => Err(e),
            Ok((x, p)) => words_at(b, p, (n - 1) as nat, w, acc.push(x)),
        }
    }
}

/// `n` varint dimensions, appended to `acc`.
pub open spec fn dims_at(b: Seq<u8>, pos: int, n: nat, acc: Seq<usize>) -> Result<(Seq<usize>, int), SxErrorCode>
    decreases n,
{
    if n == 0 {
        Ok((acc, pos))
    } else {
        match spec_read_varint(b, pos) {
            Err(e) => Err(e),
            Ok((x, p)) => dims_at(b, p, (n - 1) as nat, acc.push(x as usize)),
        }
    }
}

pub proof fn lemma_dims_at_bounds(b: Seq<u8>, pos: int, n: nat, acc: Seq<usize>)
    ensures
        dims_at(b, pos, n, acc) matches Ok((d, q)) ==> pos <= q && (pos <= b.len() ==> q <= b.len()) && d.len()
            == acc.len() + n,
    decreases n,
{
    if n > 0 {
        lemma_read_varint_bounds(b, pos);
        if let Ok((x, p)) = spec_read_varint(b, pos) {
            lemma_dims_at_bounds(b, p, (n - 1) as nat, acc.push(x as usize));
        }
    }
}

pub open spec fn as_i32s(ws: Seq<nat>) -> Seq<i32> {
    ws.map_values(|x: nat| (x as u32) as i32)
}

pub open spec fn as_u32s(ws: Seq<nat>) -> Seq<u32> {
    ws.map_values(|x: nat| x as u32)
}

pub open spec fn as_u64s(ws: Seq<nat>) -> Seq<u64> {
    ws.map_values(|x: nat| x as u64)
}

/// A typed array after its tag.
pub open spec fn typed_at(b: Seq<u8>, pos: int) -> Result<(VTyped, int), SxErrorCode> {
    match byte_at(b, pos) {
        Err(e) => Err(e),
        Ok((kind, p)) => match spec_read_varint(b, p) {
            Err(e) => Err(e),
            Ok((n64, q)) => {
                let n = (n64 as usize) as nat;
                if kind == 1 {
                    match span(b.len() as int, q, n as int) {
                        Err(e) => Err(e),
                        Ok(end) => Ok((VTyped::U8(b.subrange(q, end)), end)),
                    }
                } else if kind == 2 {
                    match words_at(b, q, n, 4, Seq::empty()) {
                        Err(e) => Err(e),
                        Ok((ws, end)) => Ok((VTyped::I32(as_i32s(ws)), end)),
                    }
                } else if kind == 3 {
                    match words_at(b, q, n, 4, Seq::empty()) {
                        Err(e) => Err(e),
                        Ok((ws, end)) => Ok((VTyped::F32(as_u32s(ws)), end)),
                    }
                } else if kind == 4 {
                    match words_at(b, q, n, 8, Seq::empty()) {
                        Err(e) => Err(e),
                        Ok((ws, end)) => Ok((VTyped::F64(as_u64s(ws)), end)),
                    }
                } else if kind == 5 {
                    match span(b.len() as int, q, ((n + 7) / 8) as int) {
                        Err(e) => Err(e),
                        Ok(end) => Ok((VTyped::Bool(unpack_bits(b.subrange(q, end), n)), end)),
                    }
                } else {
                    Err(SxErrorCode::ValidationError)
                }
            },
        },
    }
}

/// A decimal or money value after its tag: flavour byte, 16-byte scaled
/// integer, 4-byte scale, and for money (flavour 1) the currency.
pub open spec fn decimal_at(b: Seq<u8>, pos: int) -> Result<(V, int), SxErrorCode> {
    match byte_at(b, pos) {
        Err(e) => Err(e),
        Ok((flavor, p1)) => match fixed_at(b, p1, 16) {
            Err(e) => Err(e),
            Ok((raw, p2)) => match fixed_at(b, p2, 4) {
                Err(e) => Err(e),
                Ok((scale, p3)) => {
                    let scaled = (raw as u128) as i128;
                    if flavor == 1 {
                        match str_at(b, p3) {
                            Err(e) => Err(e),
                            Ok((cur, p4)) => Ok((V::Money(cur, scaled as i64, scale as u32), p4)),
                        }
                    } else {
                        Ok((V::Decimal(scaled, scale as u32), p3))
                    }
                },
            },
        },
    }
}

/// A blob reference after its tag.
pub open spec fn blob_at(b: Seq<u8>, pos: int) -> Result<(V, int), SxErrorCode> {
    match str_at(b, pos) {
        Err(e) => Err(e),
        Ok((uri, p1)) => match flag_at(b, p1) {
            Err(e) => Err(e),
            Ok((has_media, p2)) => match (if has_media {
                match str_at(b, p2) {
                    Err(e) => Err(e),
                    Ok((m, p)) => Ok((Some(m), p)),
                }
            } else {
                Ok((None, p2))
            }) {
                Err(e) => Err(e),
                Ok((media, p3)) => match flag_at(b, p3) {
                    Err(e) => Err(e),
                    Ok((has_size, p4)) => match (if has_size {
                        match spec_read_varint(b, p4) {
                            Err(e) => Err(e),
                            Ok((n, p)) => Ok((Some(n), p)),
                        }
                    } else {
                        Ok((None, p4))
                    }) {
                        Err(e) => Err(e),
                        Ok((size, p5)) => match flag_at(b, p5) {
                            Err(e) => Err(e),
                            Ok((has_hash, p6)) => if has_hash {
                                match bytes_at(b, p6) {
                                    Err(e) => Err(e),
                                    Ok((h, p7)) => Ok((V::BlobRef(uri, media, size, Some(h)), p7)),
                                }
                            } else {
                                Ok((V::BlobRef(uri, media, size, None), p6))
                            },
                        },
                    },
                },
            },
        },
    }
}

/// A string-bodied value after its tag, built by `make`.
pub open spec fn text_value_at(b: Seq<u8>, pos: int, tag: u8) -> Result<(V, int), SxErrorCode> {
    match str_at(b, pos) {
        Err(e) => Err(e),
        Ok((s, p)) => Ok(
            (
                if tag == TAG_TIMESTAMP {
                    V::Timestamp(s)
                } else if tag == TAG_DATE {
                    V::Date(s)
                } else if tag == TAG_DURATION {
                    V::Duration(s)
                } else if tag == TAG_REFERENCE {
                    V::Reference(s)
                } else {
                    V::String(s)
                },
                p,
            ),
        ),
    }
}

/// True for the tags whose body is one string.
pub open spec fn is_text_tag(tag: u8) -> bool {
    tag == TAG_STRING || tag == TAG_TIMESTAMP || tag == TAG_DATE || tag == TAG_DURATION || tag == TAG_REFERENCE
}

/// A number after its tag: a varint for `U64`, a ZigZag varint for `I64`,
/// eight little-endian bytes for `F64`.
pub open spec fn number_at(b: Seq<u8>, p: int, tag: u8) -> Result<(V, int), SxErrorCode> {
    if tag == TAG_F64 {
        match fixed_at(b, p, 8) {
            Err(e) => Err(e),
            Ok((x, q)) => Ok((V::F64(x as u64), q)),
        }
    } else {
        match spec_read_varint(b, p) {
            Err(e) => Err(e),
            Ok((x, q)) => Ok(
                (
                    if tag == TAG_U64 {
                        V::U64(x)
                    } else {
                        V::I64(spec_unzigzag(x) as i64)
                    },
                    q,
                ),
            ),
        }
    }
}

/// A byte string (`Bytes`) or sixteen raw bytes (`Uuid`) after its tag.
pub open spec fn raw_at(b: Seq<u8>, p: int, tag: u8) -> Result<(V, int), SxErrorCode> {
    if tag == TAG_UUID {
        match span(b.len() as int, p, 16) {
            Err(e) => Err(e),
            Ok(q) => Ok((V::Uuid(b.subrange(p, q)), q)),
        }
    } else {
        match bytes_at(b, p) {
            Err(e) => Err(e),
            Ok((x, q)) => Ok((V::Bytes(x), q)),
        }
    }
}

/// A typed array value after its tag.
pub open spec fn typed_value_at(b: Seq<u8>, p: int) -> Result<(V, int), SxErrorCode> {
    match typed_at(b, p) {
        Err(e) => Err(e),
        Ok((t, q)) => Ok((V::TypedArray(t), q)),
    }
}

/// A delta payload after its tag: the text is read, and the binary reader
/// does not decode it.
#[verifier::opaque]
pub open spec fn delta_at(b: Seq<u8>, p: int) -> Result<(V, int), SxErrorCode> {
    match str_at(b, p) {
        Err(e) => Err(e),
        Ok((s, q)) => match text_parse(encode_utf8(s), Seq::empty()) {
            Ok(v) => if v is Delta {
                Ok((v, q))
            } else {
                Err(SxErrorCode::ValidationError)
            },
            Err(Fail::At(_)) => Err(SxErrorCode::ParseError),
            Err(Fail::Abort) => Err(SxErrorCode::UnsupportedFeature),
        },
    }
}

/// One value at `pos`.
pub open spec fn value_at(b: Seq<u8>, pos: int) -> Result<(V, int), SxErrorCode>
    decreases b.len() - pos, 0int,
{
    if !(0 <= pos < b.len()) {
        Err(SxErrorCode::UnexpectedEof)
    } else {
        let tag = b[pos];
        let p = pos + 1;
        if tag == TAG_NULL {
            Ok((V::Null, p))
        } else if tag == TAG_FALSE {
            Ok((V::Bool(false), p))
        } else if tag == TAG_TRUE {
            Ok((V::Bool(true), p))
        } else if tag == TAG_U64 || tag == TAG_I64 || tag == TAG_F64 {
            number_at(b, p, tag)
        } else if tag == TAG_DECIMAL {
            decimal_at(b, p)
        } else if is_text_tag(tag) {
            text_value_at(b, p, tag)
        } else if tag == TAG_BYTES || tag == TAG_UUID {
            raw_at(b, p, tag)
        } else if tag == TAG_ARRAY {
            array_at(b, p)
        } else if tag == TAG_OBJECT {
            object_at(b, p)
        } else if tag == TAG_TYPED_ARRAY {
            typed_value_at(b, p)
        } else if tag == TAG_TABLE {
            table_at(b, p)
        } else if tag == TAG_TENSOR {
            tensor_at(b, p)
        } else if tag == TAG_BLOB_REF {
            blob_at(b, p)
        } else if tag == TAG_DELTA {
            delta_at(b, p)
        } else {
            Err(SxErrorCode::ValidationError)
        }
    }
}

/// An array after its tag: a count, then that many values.
pub open spec fn array_at(b: Seq<u8>, p: int) -> Result<(V, int), SxErrorCode>
    decreases b.len() - p, 2int,
{
    proof {
        lemma_read_varint_bounds(b, p);
    }
    match spec_read_varint(b, p) {
        Err(e) => Err(e),
        Ok((n, q)) => match items_at(b, q, (n as usize) as nat, Seq::empty()) {
            Err(e) => Err(e),
            Ok((items, r)) => Ok((V::Array(items), r)),
        },
    }
}

/// An object after its tag: a count, then that many entries.
pub open spec fn object_at(b: Seq<u8>, p: int) -> Result<(V, int), SxErrorCode>
    decreases b.len() - p, 2int,
{
    proof {
        lemma_read_varint_bounds(b, p);
    }
    match spec_read_varint(b, p) {
        Err(e) => Err(e),
        Ok((n, q)) => match entries_at(b, q, (n as usize) as nat, Seq::empty()) {
            Err(e) => Err(e),
            Ok((fields, r)) => Ok((V::Object(fields), r)),
        },
    }
}

/// A table after its tag: a count, then that many columns.
pub open spec fn table_at(b: Seq<u8>, p: int) -> Result<(V, int), SxErrorCode>
    decreases b.len() - p, 2int,
{
    proof {
        lemma_read_varint_bounds(b, p);
    }
    match spec_read_varint(b, p) {
        Err(e) => Err(e),
        Ok((n, q)) => match columns_at(b, q, (n as usize) as nat, Seq::empty()) {
            Err(e) => Err(e),
            Ok((cols, r)) => Ok((V::Table(cols), r)),
        },
    }
}

/// A tensor after its tag: dimension count and dimensions, optional layout,
/// then a value that must be a typed array.
pub open spec fn tensor_at(b: Seq<u8>, p: int) -> Result<(V, int), SxErrorCode>
    decreases b.len() - p, 2int,
{
    proof {
        lemma_read_varint_bounds(b, p);
    }
    match spec_read_varint(b, p) {
        Err(e) => Err(e),
        Ok((n, q)) => match dims_at(b, q, (n as usize) as nat, Seq::empty()) {
            Err(e) => Err(e),
            Ok((shape, q1)) => match flag_at(b, q1) {
                Err(e) => Err(e),
                Ok((has_layout, q2)) => match (if has_layout {
                    match str_at(b, q2) {
                        Err(e) => Err(e),
                        Ok((l, q)) => Ok((Some(l), q)),
                    }
                } else {
                    Ok((None, q2))
                }) {
                    Err(e) => Err(e),
                    Ok((layout, q3)) => {
                        proof {
                            lemma_dims_at_bounds(b, q, (n as usize) as nat, Seq::empty());
                            lemma_read_varint_bounds(b, q2);
                        }
                        match value_at(b, q3) {
                            Err(e) => Err(e),
                            Ok((V::TypedArray(t), q4)) => Ok((V::Tensor(shape, t, layout), q4)),
                            Ok(_) => Err(SxErrorCode::TypeMismatch),
                        }
                    },
                },
            },
        },
    }
}

/// `n` values, appended to `acc`.  (Every value spans at least its tag byte,
/// so the position after one always lies past its start.)
pub open spec fn items_at(b: Seq<u8>, pos: int, n: nat, acc: Seq<V>) -> Result<(Seq<V>, int), SxErrorCode>
    decreases b.len() - pos, 1int,
{
    if n == 0 {
        Ok((acc, pos))
    } else {
        match value_at(b, pos) {
            Err(e) => Err(e),
            Ok((v, p)) => if p <= pos || p > b.len() {
                Err(SxErrorCode::ValidationError)
            } else {
                items_at(b, p, (n - 1) as nat, acc.push(v))
            },
        }
    }
}

/// `n` object entries, inserted into the sorted entries `acc`; a key read
/// twice is `DuplicateKey`.
pub open spec fn entries_at(b: Seq<u8>, pos: int, n: nat, acc: Seq<(Seq<char>, V)>) -> Result<
    (Seq<(Seq<char>, V)>, int),
    SxErrorCode,
>
    decreases b.len() - pos, 1int,
{
    if n == 0 {
        Ok((acc, pos))
    } else {
        proof {
            lemma_read_varint_bounds(b, pos);
        }
        match str_at(b, pos) {
            Err(e) => Err(e),
            Ok((k, p1)) => match value_at(b, p1) {
                Err(e) => Err(e),
                Ok((v, p2)) => if p2 <= pos || p2 > b.len() {
                    Err(SxErrorCode::ValidationError)
                } else if has_key(acc, k) {
                    Err(SxErrorCode::DuplicateKey)
                } else {
                    entries_at(b, p2, (n - 1) as nat, insert_entry(acc, k, v))
                },
            },
        }
    }
}

/// The column a column kind and a value make: kind 1 takes a typed array,
/// kind 2 an array.
pub open spec fn column_of(kind: u8, v: V) -> Option<VColumn> {
    if kind == 1 {
        match v {
            V::TypedArray(t) => Some(VColumn::Typed(t)),
            _ => None,
        }
    } else if kind == 2 {
        match v {
            V::Array(items) => Some(VColumn::Values(items)),
            _ => None,
        }
    } else {
        None
    }
}

/// `n` table columns, inserted into the sorted columns `acc` (a name read
/// twice keeps the later column).  Kind 1 must hold a typed array, kind 2 an
/// array; anything else is `TypeMismatch`.
pub open spec fn columns_at(b: Seq<u8>, pos: int, n: nat, acc: Seq<(Seq<char>, VColumn)>) -> Result<
    (Seq<(Seq<char>, VColumn)>, int),
    SxErrorCode,
>
    decreases b.len() - pos, 1int,
{
    if n == 0 {
        Ok((acc, pos))
    } else {
        proof {
            lemma_read_varint_bounds(b, pos);
        }
        match str_at(b, pos) {
            Err(e) => Err(e),
            Ok((name, p1)) => match byte_at(b, p1) {
                Err(e) => Err(e),
                Ok((kind, p2)) => {
                    match value_at(b, p2) {
                        Err(e) => Err(e),
                        Ok((v, p3)) => if p3 <= pos || p3 > b.len() {
                            Err(SxErrorCode::ValidationError)
                        } else {
                            match column_of(kind, v) {
                                None => Err(SxErrorCode::TypeMismatch),
                                Some(col) => columns_at(b, p3, (n - 1) as nat, insert_entry(acc, name, col)),
                            }
                        },
                    }
                },
            },
        }
    }
}

/// A whole value segment: one value and nothing after it.
pub open spec fn value_segment(b: Seq<u8>) -> Result<V, SxErrorCode> {
    match value_at(b, 0) {
        Err(e) => Err(e),
        Ok((v, end)) => if end == b.len() {
            Ok(v)
        } else {
            Err(SxErrorCode::ValidationError)
        },
    }
}

} // verus!

verus! {

// ---------------------------------------------------------------------------
// Decode counters
// ---------------------------------------------------------------------------

/// Decode instrumentation counters for proof tests and benchmarks.
#[derive(Debug, Clone, Copy)]
pub struct DecodeStats {
    pub full_decode_calls: usize,
    pub values_decoded: usize,
    pub objects_decoded: usize,
    pub rows_materialized: usize,
    pub strings_decoded: usize,
    pub cold_values_decoded: usize,
    pub hot_field_reads: usize,
    pub columnar_scans: usize,
}

/// All counters at zero.
pub open spec fn zero_stats() -> DecodeStats {
    DecodeStats {
        full_decode_calls: 0,
        values_decoded: 0,
        objects_decoded: 0,
        rows_materialized: 0,
        strings_decoded: 0,
        cold_values_decoded: 0,
        hot_field_reads: 0,
        columnar_scans: 0,
    }
}

impl Default for DecodeStats {
    fn default() -> (r: DecodeStats)
        ensures
            r == zero_stats(),
    {
        DecodeStats {
            full_decode_calls: 0,
            values_decoded: 0,
            objects_decoded: 0,
            rows_materialized: 0,
            strings_decoded: 0,
            cold_values_decoded: 0,
            hot_field_reads: 0,
            columnar_scans: 0,
        }
    }
}

/// The counters that only the entry points move (full decodes, hot-field
/// reads, columnar scans) agree.
pub open spec fn same_entry_counts(a: DecodeStats, b: DecodeStats) -> bool {
    &&& a.full_decode_calls == b.full_decode_calls
    &&& a.hot_field_reads == b.hot_field_reads
    &&& a.columnar_scans == b.columnar_scans
}

/// Resets decode statistics.
pub fn reset_decode_stats(stats: &mut DecodeStats)
    ensures
        *final(stats) == zero_stats(),
{
    *stats = DecodeStats::default();
}

/// Returns the current decode statistics.
pub fn current_decode_stats(stats: &DecodeStats) -> (r: DecodeStats)
    ensures
        r == *stats,
{
    *stats
}

// ---------------------------------------------------------------------------
// Readers
// ---------------------------------------------------------------------------

/// Reads one byte at `pos`.
pub fn read_byte(bytes: &[u8], pos: usize) -> (r: SxResult<(u8, usize)>)
    ensures
        match byte_at(bytes@, pos as int) {
            Ok((x, p)) => r matches Ok((y, q)) && y == x && q == p,
            Err(c) => r matches Err(e) && e.code == c,
        },
{
    if pos < bytes.len() {
        Ok((bytes[pos], pos + 1))
    } else {
        Err(SxError::msg(SxErrorCode::UnexpectedEof, "unexpected end of input"))
    }
}

/// The end of the `n`-byte span at `pos`.
pub fn read_span(bytes: &[u8], pos: usize, n: usize) -> (r: SxResult<usize>)
    ensures
        match span(bytes@.len() as int, pos as int, n as int) {
            Ok(end) => r matches Ok(q) && q == end,
            Err(c) => r matches Err(e) && e.code == c,
        },
{
    match pos.checked_add(n) {
        None => Err(SxError::msg(SxErrorCode::InvalidLength, "integer overflow")),
        Some(end) => if end > bytes.len() {
            Err(SxError::msg(SxErrorCode::UnexpectedEof, "unexpected end of input"))
        } else {
            Ok(end)
        },
    }
}

/// Reads a varint at `pos`.
pub fn read_varint(bytes: &[u8], pos: usize) -> (r: SxResult<(u64, usize)>)
    ensures
        match spec_read_varint(bytes@, pos as int) {
            Ok((x, p)) => r matches Ok((y, q)) && y == x && q == p,
            Err(c) => r matches Err(e) && e.code == c,
        },
        r matches Ok((_, q)) ==> pos < q <= bytes@.len(),
{
    let mut cursor = pos;
    match decode_varint(bytes, &mut cursor) {
        Ok(x) => Ok((x, cursor)),
        Err(e) => Err(e),
    }
}

/// Reads a length-prefixed byte string at `pos`.
pub fn read_bytes(bytes: &[u8], pos: usize) -> (r: SxResult<(Vec<u8>, usize)>)
    ensures
        match bytes_at(bytes@, pos as int) {
            Ok((x, p)) => r matches Ok((y, q)) && y@ == x && q == p,
            Err(c) => r matches Err(e) && e.code == c,
        },
        r matches Ok((_, q)) ==> pos < q <= bytes@.len(),
{
    match read_varint(bytes, pos) {
        Err(e) => Err(e),
        Ok((n, p)) => match read_span(bytes, p, n as usize) {
            Err(e) => Err(e),
            Ok(end) => Ok((copy_range(bytes, p, end), end)),
        },
    }
}

/// Reads a length-prefixed UTF-8 string at `pos`.
pub fn read_string(bytes: &[u8], pos: usize, stats: &mut DecodeStats) -> (r: SxResult<(String, usize)>)
    ensures
        match str_at(bytes@, pos as int) {
            Ok((x, p)) => r matches Ok((y, q)) && y@ == x && q == p,
            Err(c) => r matches Err(e) && e.code == c,
        },
        r matches Ok((_, q)) ==> pos < q <= bytes@.len(),
        same_entry_counts(*final(stats), *old(stats)),
        final(stats).rows_materialized == old(stats).rows_materialized,
        final(stats).cold_values_decoded == old(stats).cold_values_decoded,
{
    stats.strings_decoded = stats.strings_decoded.wrapping_add(1);
    match read_bytes(bytes, pos) {
        Err(e) => Err(e),
        Ok((raw, p)) => match string_from_utf8(raw) {
            None => Err(SxError::msg(SxErrorCode::InvalidUtf8, "invalid UTF-8")),
            Some(s) => Ok((s, p)),
        },
    }
}

/// Reads an `n`-byte little-endian number at `pos` (`n` at most 8).
pub fn read_fixed(bytes: &[u8], pos: usize, n: usize) -> (r: SxResult<(u64, usize)>)
    requires
        n <= 8,
    ensures
        match fixed_at(bytes@, pos as int, n as int) {
            Ok((x, p)) => r matches Ok((y, q)) && y as nat == x && q == p,
            Err(c) => r matches Err(e) && e.code == c,
        },
        r matches Ok((_, q)) ==> q == pos + n && q <= bytes@.len(),
{
    match read_span(bytes, pos, n) {
        Err(e) => Err(e),
        Ok(end) => Ok((read_le(bytes, pos, n), end)),
    }
}

/// Reads a 16-byte little-endian number at `pos`.
pub fn read_fixed128(bytes: &[u8], pos: usize) -> (r: SxResult<(u128, usize)>)
    ensures
        match fixed_at(bytes@, pos as int, 16) {
            Ok((x, p)) => r matches Ok((y, q)) && y as nat == x && q == p,
            Err(c) => r matches Err(e) && e.code == c,
        },
        r matches Ok((_, q)) ==> q == pos + 16 && q <= bytes@.len(),
{
    match read_span(bytes, pos, 16) {
        Err(e) => Err(e),
        Ok(end) => Ok((read_le128(bytes, pos), end)),
    }
}

fn read_i32s(bytes: &[u8], pos: usize, n: usize) -> (r: SxResult<(Vec<i32>, usize)>)
    ensures
        match words_at(bytes@, pos as int, n as nat, 4, Seq::empty()) {
            Ok((ws, p)) => r matches Ok((v, q)) && v@ == as_i32s(ws) && q == p,
            Err(c) => r matches Err(e) && e.code == c,
        },
        r matches Ok((_, q)) ==> pos <= q <= bytes@.len() || (n == 0 && q == pos),
{
    let mut out: Vec<i32> = Vec::new();
    let ghost mut ws: Seq<nat> = Seq::empty();
    let mut cur = pos;
    let mut i: usize = 0;
    while i < n
        invariant
            i <= n,
            pos <= cur,
            i > 0 ==> cur <= bytes@.len(),
            words_at(bytes@, pos as int, n as nat, 4, Seq::empty()) == words_at(
                bytes@,
                cur as int,
                (n - i) as nat,
                4,
                ws,
            ),
            out@ == as_i32s(ws),
        decreases n - i,
    {
        match read_fixed(bytes, cur, 4) {
            Err(e) => return Err(e),
            Ok((x, q)) => {
                proof {
                    assert(as_i32s(ws.push(x as nat)) =~= as_i32s(ws).push(((x as nat) as u32) as i32));
                    ws = ws.push(x as nat);
                }
                out.push((x as u32) as i32);
                cur = q;
            },
        }
        i += 1;
    }
    Ok((out, cur))
}

fn read_u32s(bytes: &[u8], pos: usize, n: usize) -> (r: SxResult<(Vec<u32>, usize)>)
    ensures
        match words_at(bytes@, pos as int, n as nat, 4, Seq::empty()) {
            Ok((ws, p)) => r matches Ok((v, q)) && v@ == as_u32s(ws) && q == p,
            Err(c) => r matches Err(e) && e.code == c,
        },
        r matches Ok((_, q)) ==> pos <= q <= bytes@.len() || (n == 0 && q == pos),
{
    let mut out: Vec<u32> = Vec::new();
    let ghost mut ws: Seq<nat> = Seq::empty();
    let mut cur = pos;
    let mut i: usize = 0;
    while i < n
        invariant
            i <= n,
            pos <= cur,
            i > 0 ==> cur <= bytes@.len(),
            words_at(bytes@, pos as int, n as nat, 4, Seq::empty()) == words_at(
                bytes@,
                cur as int,
                (n - i) as nat,
                4,
                ws,
            ),
            out@ == as_u32s(ws),
        decreases n - i,
    {
        match read_fixed(bytes, cur, 4) {
            Err(e) => return Err(e),
            Ok((x, q)) => {
                proof {
                    assert(as_u32s(ws.push(x as nat)) =~= as_u32s(ws).push((x as nat) as u32));
                    ws = ws.push(x as nat);
                }
                out.push(x as u32);
                cur = q;
            },
        }
        i += 1;
    }
    Ok((out, cur))
}

fn read_u64s(bytes: &[u8], pos: usize, n: usize) -> (r: SxResult<(Vec<u64>, usize)>)
    ensures
        match words_at(bytes@, pos as int, n as nat, 8, Seq::empty()) {
            Ok((ws, p)) => r matches Ok((v, q)) && v@ == as_u64s(ws) && q == p,
            Err(c) => r matches Err(e) && e.code == c,
        },
        r matches Ok((_, q)) ==> pos <= q <= bytes@.len() || (n == 0 && q == pos),
{
    let mut out: Vec<u64> = Vec::new();
    let ghost mut ws: Seq<nat> = Seq::empty();
    let mut cur = pos;
    let mut i: usize = 0;
    while i < n
        invariant
            i <= n,
            pos <= cur,
            i > 0 ==> cur <= bytes@.len(),
            words_at(bytes@, pos as int, n as nat, 8, Seq::empty()) == words_at(
                bytes@,
                cur as int,
                (n - i) as nat,
                8,
                ws,
            ),
            out@ == as_u64s(ws),
        decreases n - i,
    {
        match read_fixed(bytes, cur, 8) {
            Err(e) => return Err(e),
            Ok((x, q)) => {
                proof {
                    assert(as_u64s(ws.push(x as nat)) =~= as_u64s(ws).push((x as nat) as u64));
                    ws = ws.push(x as nat);
                }
                out.push(x);
                cur = q;
            },
        }
        i += 1;
    }
    Ok((out, cur))
}

/// Reads a typed array (after its tag) at `pos`.
pub fn read_typed(bytes: &[u8], pos: usize) -> (r: SxResult<(SxTypedArray, usize)>)
    ensures
        match typed_at(bytes@, pos as int) {
            Ok((t, p)) => r matches Ok((x, q)) && x.dv() == t && q == p,
            Err(c) => r matches Err(e) && e.code == c,
        },
        r matches Ok((_, q)) ==> pos < q <= bytes@.len(),
{
    let (kind, p) = match read_byte(bytes, pos) {
        Err(e) => return Err(e),
        Ok(x) => x,
    };
    let (n64, q) = match read_varint(bytes, p) {
        Err(e) => return Err(e),
        Ok(x) => x,
    };
    let n = n64 as usize;
    if kind == 1 {
        match read_span(bytes, q, n) {
            Err(e) => Err(e),
            Ok(end) => Ok((SxTypedArray::U8(copy_range(bytes, q, end)), end)),
        }
    } else if kind == 2 {
        match read_i32s(bytes, q, n) {
            Err(e) => Err(e),
            Ok((v, end)) => Ok((SxTypedArray::I32(v), end)),
        }
    } else if kind == 3 {
        match read_u32s(bytes, q, n) {
            Err(e) => Err(e),
            Ok((v, end)) => Ok((SxTypedArray::F32(v), end)),
        }
    } else if kind == 4 {
        match read_u64s(bytes, q, n) {
            Err(e) => Err(e),
            Ok((v, end)) => Ok((SxTypedArray::F64(v), end)),
        }
    } else if kind == 5 {
        let byte_len = n / 8 + if n % 8 != 0 { 1usize } else { 0usize };
        assert(byte_len == (n + 7) / 8);
        match read_span(bytes, q, byte_len) {
            Err(e) => Err(e),
            Ok(end) => {
                let mut out: Vec<bool> = Vec::new();
                let mut i: usize = 0;
                while i < n
                    invariant
                        i <= n,
                        end == q + byte_len,
                        end <= bytes@.len(),
                        byte_len == (n + 7) / 8,
                        out@.len() == i,
                        forall|j: int| 0 <= j < i ==> #[trigger] out@[j] == unpack_bits(
                            bytes@.subrange(q as int, end as int),
                            n as nat,
                        )[j],
                    decreases n - i,
                {
                    let w = weight_of(i % 8);
                    let byte = bytes[q + i / 8];
                    out.push((byte & w) != 0);
                    i += 1;
                }
                proof {
                    assert(out@ =~= unpack_bits(bytes@.subrange(q as int, end as int), n as nat));
                }
                Ok((SxTypedArray::Bool(out), end))
            },
        }
    } else {
        Err(SxError::msg(SxErrorCode::ValidationError, "unknown typed-array kind"))
    }
}

/// Reads `n` varint dimensions at `pos`.
fn read_dims(bytes: &[u8], pos: usize, n: usize) -> (r: SxResult<(Vec<usize>, usize)>)
    ensures
        match dims_at(bytes@, pos as int, n as nat, Seq::empty()) {
            Ok((d, p)) => r matches Ok((v, q)) && v@ == d && q == p,
            Err(c) => r matches Err(e) && e.code == c,
        },
        r matches Ok((_, q)) ==> pos <= q && (pos <= bytes@.len() ==> q <= bytes@.len()),
{
    let mut out: Vec<usize> = Vec::new();
    let mut cur = pos;
    let mut i: usize = 0;
    while i < n
        invariant
            i <= n,
            pos <= cur,
            pos <= bytes@.len() ==> cur <= bytes@.len(),
            dims_at(bytes@, pos as int, n as nat, Seq::empty()) == dims_at(bytes@, cur as int, (n - i) as nat, out@),
        decreases n - i,
    {
        match read_varint(bytes, cur) {
            Err(e) => return Err(e),
            Ok((x, q)) => {
                out.push(x as usize);
                cur = q;
            },
        }
        i += 1;
    }
    Ok((out, cur))
}

} // verus!

verus! {

/// Inserts or replaces the column named `k` in sorted columns.
pub fn insert_column(s: &mut Vec<(String, SxColumn)>, k: String, c: SxColumn)
    requires
        sorted_keys(dv_columns(old(s)@)),
    ensures
        dv_columns(final(s)@) == insert_entry(dv_columns(old(s)@), k@, dv_column(c)),
        sorted_keys(dv_columns(final(s)@)),
{
    let ghost ks = dv_columns(old(s)@);
    let ghost kv = k@;
    let ghost cv = dv_column(c);
    proof {
        lemma_dv_columns(old(s)@);
        assert(sorted_str_keys(s@)) by {
            assert forall|i: int, j: int| 0 <= i < j < s@.len() implies key_lt(#[trigger] s@[i].0@, #[trigger] s@[j].0@) by {
                assert(ks[i].0 == s@[i].0@ && ks[j].0 == s@[j].0@);
            }
        }
    }
    let p = key_position(s, k.as_str());
    proof {
        lemma_insert_at(ks, kv, cv, p as int);
        lemma_insert_sorted(ks, kv, cv, p as int);
    }
    if p < s.len() && str_equal(s[p].0.as_str(), k.as_str()) {
        s.set(p, (k, c));
        proof {
            lemma_dv_columns(s@);
            assert(dv_columns(s@) =~= ks.update(p as int, (kv, cv)));
        }
    } else {
        s.insert(p, (k, c));
        proof {
            lemma_dv_columns(s@);
            assert(dv_columns(s@) =~= ks.insert(p as int, (kv, cv)));
        }
    }
}

/// Reads a decimal or money value (after its tag) at `pos`.
fn read_decimal(bytes: &[u8], pos: usize, stats: &mut DecodeStats) -> (r: SxResult<(SxValue, usize)>)
    ensures
        match decimal_at(bytes@, pos as int) {
            Ok((v, p)) => r matches Ok((x, q)) && dv(x) == v && q == p,
            Err(c) => r matches Err(e) && e.code == c,
        },
        r matches Ok((_, q)) ==> pos < q <= bytes@.len(),
        same_entry_counts(*final(stats), *old(stats)),
        final(stats).rows_materialized == old(stats).rows_materialized,
{
    let (flavor, p1) = match read_byte(bytes, pos) {
        Err(e) => return Err(e),
        Ok(x) => x,
    };
    let (raw, p2) = match read_fixed128(bytes, p1) {
        Err(e) => return Err(e),
        Ok(x) => x,
    };
    let (scale, p3) = match read_fixed(bytes, p2, 4) {
        Err(e) => return Err(e),
        Ok(x) => x,
    };
    let scaled = raw as i128;
    if flavor == 1 {
        match read_string(bytes, p3, stats) {
            Err(e) => Err(e),
            Ok((cur, p4)) => Ok(
                (SxValue::Money(MoneyValue { currency: cur, scaled: scaled as i64, scale: scale as u32 }), p4),
            ),
        }
    } else {
        Ok((SxValue::Decimal(DecimalValue { scaled, scale: scale as u32 }), p3))
    }
}

/// Reads a blob reference (after its tag) at `pos`.
fn read_blob(bytes: &[u8], pos: usize, stats: &mut DecodeStats) -> (r: SxResult<(SxValue, usize)>)
    ensures
        match blob_at(bytes@, pos as int) {
            Ok((v, p)) => r matches Ok((x, q)) && dv(x) == v && q == p,
            Err(c) => r matches Err(e) && e.code == c,
        },
        r matches Ok((_, q)) ==> pos < q <= bytes@.len(),
        same_entry_counts(*final(stats), *old(stats)),
        final(stats).rows_materialized == old(stats).rows_materialized,
{
    let (uri, p1) = match read_string(bytes, pos, stats) {
        Err(e) => return Err(e),
        Ok(x) => x,
    };
    let (has_media, p2) = match read_byte(bytes, p1) {
        Err(e) => return Err(e),
        Ok((x, p)) => (x != 0, p),
    };
    let (media_type, p3) = if has_media {
        match read_string(bytes, p2, stats) {
            Err(e) => return Err(e),
            Ok((m, p)) => (Some(m), p),
        }
    } else {
        (None, p2)
    };
    let (has_size, p4) = match read_byte(bytes, p3) {
        Err(e) => return Err(e),
        Ok((x, p)) => (x != 0, p),
    };
    let (size, p5) = if has_size {
        match read_varint(bytes, p4) {
            Err(e) => return Err(e),
            Ok((n, p)) => (Some(n), p),
        }
    } else {
        (None, p4)
    };
    let (has_hash, p6) = match read_byte(bytes, p5) {
        Err(e) => return Err(e),
        Ok((x, p)) => (x != 0, p),
    };
    let (hash, p7) = if has_hash {
        match read_bytes(bytes, p6) {
            Err(e) => return Err(e),
            Ok((h, p)) => (Some(h), p),
        }
    } else {
        (None, p6)
    };
    Ok((SxValue::BlobRef(BlobRef { uri, media_type, size, hash }), p7))
}

/// Reads a string-bodied value (after its tag) at `pos`.
fn read_text_value(bytes: &[u8], pos: usize, tag: u8, stats: &mut DecodeStats) -> (r: SxResult<(SxValue, usize)>)
    ensures
        match text_value_at(bytes@, pos as int, tag) {
            Ok((v, p)) => r matches Ok((x, q)) && dv(x) == v && q == p,
            Err(c) => r matches Err(e) && e.code == c,
        },
        r matches Ok((_, q)) ==> pos < q <= bytes@.len(),
        same_entry_counts(*final(stats), *old(stats)),
        final(stats).rows_materialized == old(stats).rows_materialized,
{
    match read_string(bytes, pos, stats) {
        Err(e) => Err(e),
        Ok((s, p)) => {
            let v = if tag == TAG_TIMESTAMP {
                SxValue::Timestamp(s)
            } else if tag == TAG_DATE {
                SxValue::Date(s)
            } else if tag == TAG_DURATION {
                SxValue::Duration(s)
            } else if tag == TAG_REFERENCE {
                SxValue::Reference(ReferenceValue { target: s })
            } else {
                SxValue::String(s)
            };
            Ok((v, p))
        },
    }
}

/// Reads a number (after its tag) at `p`.
fn read_number(bytes: &[u8], p: usize, tag: u8) -> (r: SxResult<(SxValue, usize)>)
    ensures
        match number_at(bytes@, p as int, tag) {
            Ok((v, q)) => r matches Ok((x, e)) && dv(x) == v && e == q,
            Err(c) => r matches Err(e) && e.code == c,
        },
        r matches Ok((_, q)) ==> p < q <= bytes@.len(),
{
    if tag == TAG_F64 {
        match read_fixed(bytes, p, 8) {
            Err(e) => Err(e),
            Ok((x, q)) => Ok((SxValue::F64(x), q)),
        }
    } else {
        match read_varint(bytes, p) {
            Err(e) => Err(e),
            Ok((x, q)) => if tag == TAG_U64 {
                Ok((SxValue::U64(x), q))
            } else {
                Ok((SxValue::I64(zigzag_decode(x)), q))
            },
        }
    }
}

/// Reads a byte string or a UUID (after its tag) at `p`.
fn read_raw(bytes: &[u8], p: usize, tag: u8) -> (r: SxResult<(SxValue, usize)>)
    ensures
        match raw_at(bytes@, p as int, tag) {
            Ok((v, q)) => r matches Ok((x, e)) && dv(x) == v && e == q,
            Err(c) => r matches Err(e) && e.code == c,
        },
        r matches Ok((_, q)) ==> p < q <= bytes@.len(),
{
    if tag == TAG_UUID {
        match read_span(bytes, p, 16) {
            Err(e) => Err(e),
            Ok(q) => {
                let mut u: [u8; 16] = [0u8; 16];
                let mut i: usize = 0;
                while i < 16
                    invariant
                        i <= 16,
                        q == p + 16,
                        q <= bytes@.len(),
                        u@.len() == 16,
                        forall|j: int| 0 <= j < i ==> #[trigger] u@[j] == bytes@[p + j],
                    decreases 16 - i,
                {
                    u[i] = bytes[p + i];
                    i += 1;
                }
                proof {
                    assert(u@ =~= bytes@.subrange(p as int, q as int));
                }
                Ok((SxValue::Uuid(u), q))
            },
        }
    } else {
        match read_bytes(bytes, p) {
            Err(e) => Err(e),
            Ok((x, q)) => Ok((SxValue::Bytes(x), q)),
        }
    }
}

/// Reads one value at `pos`.
pub fn read_value(bytes: &[u8], pos: usize, stats: &mut DecodeStats) -> (r: SxResult<(SxValue, usize)>)
    ensures
        match value_at(bytes@, pos as int) {
            Ok((v, p)) => r matches Ok((x, q)) && dv(x) == v && q == p,
            Err(c) => r matches Err(e) && e.code == c,
        },
        r matches Ok((_, q)) ==> pos < q <= bytes@.len(),
        same_entry_counts(*final(stats), *old(stats)),
    decreases bytes@.len() - pos, 0int,
{
    stats.values_decoded = stats.values_decoded.wrapping_add(1);
    if pos >= bytes.len() {
        return Err(SxError::msg(SxErrorCode::UnexpectedEof, "value tag eof"));
    }
    let tag = bytes[pos];
    let p = pos + 1;
    if tag == TAG_NULL {
        Ok((SxValue::Null, p))
    } else if tag == TAG_FALSE {
        Ok((SxValue::Bool(false), p))
    } else if tag == TAG_TRUE {
        Ok((SxValue::Bool(true), p))
    } else if tag == TAG_U64 || tag == TAG_I64 || tag == TAG_F64 {
        read_number(bytes, p, tag)
    } else if tag == TAG_DECIMAL {
        read_decimal(bytes, p, stats)
    } else if tag == TAG_STRING || tag == TAG_TIMESTAMP || tag == TAG_DATE || tag == TAG_DURATION || tag
        == TAG_REFERENCE {
        read_text_value(bytes, p, tag, stats)
    } else if tag == TAG_BYTES || tag == TAG_UUID {
        read_raw(bytes, p, tag)
    } else if tag == TAG_ARRAY {
        read_array(bytes, p, stats)
    } else if tag == TAG_OBJECT {
        stats.objects_decoded = stats.objects_decoded.wrapping_add(1);
        read_object(bytes, p, stats)
    } else if tag == TAG_TYPED_ARRAY {
        match read_typed(bytes, p) {
            Err(e) => Err(e),
            Ok((t, q)) => Ok((SxValue::TypedArray(t), q)),
        }
    } else if tag == TAG_TABLE {
        read_table(bytes, p, stats)
    } else if tag == TAG_TENSOR {
        read_tensor(bytes, p, stats)
    } else if tag == TAG_BLOB_REF {
        read_blob(bytes, p, stats)
    } else if tag == TAG_DELTA {
        read_delta(bytes, p, stats)
    } else {
        Err(SxError::msg(SxErrorCode::ValidationError, "unknown type tag"))
    }
}

/// Reads a delta document (after its tag) at `p`: its text, parsed.  A text
/// holding a float literal is refused, as the writer refuses such deltas.
fn read_delta(bytes: &[u8], p: usize, stats: &mut DecodeStats) -> (r: SxResult<(SxValue, usize)>)
    ensures
        match delta_at(bytes@, p as int) {
            Ok((v, q)) => r matches Ok((x, e)) && dv(x) == v && e == q,
            Err(c) => r matches Err(e) && e.code == c,
        },
        r matches Ok((_, e)) ==> p < e <= bytes@.len(),
        same_entry_counts(*final(stats), *old(stats)),
        final(stats).rows_materialized == old(stats).rows_materialized,
        final(stats).cold_values_decoded == old(stats).cold_values_decoded,
{
    proof {
        reveal(delta_at);
    }
    let (s, q) = match read_string(bytes, p, stats) {
        Err(e) => {
            return Err(e);
        },
        Ok(x) => x,
    };
    proof {
        lemma_read_varint_bounds(bytes@, p as int);
        let (raw, _) = bytes_at(bytes@, p as int)->Ok_0;
        decode_utf8_encode_utf8(raw);
        assert(encode_utf8(s@) == raw);
        assert(readings_view(Seq::<FloatReading>::empty()) =~= Seq::<(Seq<char>, Result<(u64, u32), Seq<char>>)>::empty());
    }
    let none: Vec<FloatReading> = Vec::new();
    match try_parse_sx_text(s.as_str(), &none) {
        None => Err(SxError::msg(SxErrorCode::UnsupportedFeature, "a delta payload holding a float literal is not decoded")),
        Some(Err(d)) => {
            let mut m = d.message;
            m.append(" at ");
            m.append(u64_to_decimal(d.line as u64).as_str());
            m.append(":");
            m.append(u64_to_decimal(d.column as u64).as_str());
            Err(SxError::new(SxErrorCode::ParseError, m))
        },
        Some(Ok(v)) => match v {
            SxValue::Delta(_) => Ok((v, q)),
            _ => Err(SxError::msg(SxErrorCode::ValidationError, "delta payload did not decode to delta value")),
        },
    }
}

/// Reads an array (after its tag) at `p`.
fn read_array(bytes: &[u8], p: usize, stats: &mut DecodeStats) -> (r: SxResult<(SxValue, usize)>)
    requires
        p <= bytes@.len(),
    ensures
        match array_at(bytes@, p as int) {
            Ok((v, q)) => r matches Ok((x, e)) && dv(x) == v && e == q,
            Err(c) => r matches Err(e) && e.code == c,
        },
        r matches Ok((_, q)) ==> p < q <= bytes@.len(),
        same_entry_counts(*final(stats), *old(stats)),
    decreases bytes@.len() - p, 2int,
{
    match read_varint(bytes, p) {
        Err(e) => Err(e),
        Ok((n, q)) => match read_items(bytes, q, n as usize, stats) {
            Err(e) => Err(e),
            Ok((items, end)) => Ok((SxValue::Array(items), end)),
        },
    }
}

/// Reads an object (after its tag) at `p`.
fn read_object(bytes: &[u8], p: usize, stats: &mut DecodeStats) -> (r: SxResult<(SxValue, usize)>)
    requires
        p <= bytes@.len(),
    ensures
        match object_at(bytes@, p as int) {
            Ok((v, q)) => r matches Ok((x, e)) && dv(x) == v && e == q,
            Err(c) => r matches Err(e) && e.code == c,
        },
        r matches Ok((_, q)) ==> p < q <= bytes@.len(),
        same_entry_counts(*final(stats), *old(stats)),
    decreases bytes@.len() - p, 2int,
{
    match read_varint(bytes, p) {
        Err(e) => Err(e),
        Ok((n, q)) => match read_entries(bytes, q, n as usize, stats) {
            Err(e) => Err(e),
            Ok((fields, end)) => Ok((SxValue::Object(fields), end)),
        },
    }
}

/// Reads a table (after its tag) at `p`.
fn read_table(bytes: &[u8], p: usize, stats: &mut DecodeStats) -> (r: SxResult<(SxValue, usize)>)
    requires
        p <= bytes@.len(),
    ensures
        match table_at(bytes@, p as int) {
            Ok((v, q)) => r matches Ok((x, e)) && dv(x) == v && e == q,
            Err(c) => r matches Err(e) && e.code == c,
        },
        r matches Ok((_, q)) ==> p < q <= bytes@.len(),
        same_entry_counts(*final(stats), *old(stats)),
    decreases bytes@.len() - p, 2int,
{
    match read_varint(bytes, p) {
        Err(e) => Err(e),
        Ok((n, q)) => match read_columns(bytes, q, n as usize, stats) {
            Err(e) => Err(e),
            Ok((cols, end)) => Ok((SxValue::Table(SxTable { columns: cols }), end)),
        },
    }
}

/// Reads a tensor (after its tag) at `p`.
fn read_tensor(bytes: &[u8], p: usize, stats: &mut DecodeStats) -> (r: SxResult<(SxValue, usize)>)
    requires
        p <= bytes@.len(),
    ensures
        match tensor_at(bytes@, p as int) {
            Ok((v, q)) => r matches Ok((x, e)) && dv(x) == v && e == q,
            Err(c) => r matches Err(e) && e.code == c,
        },
        r matches Ok((_, q)) ==> p < q <= bytes@.len(),
        same_entry_counts(*final(stats), *old(stats)),
    decreases bytes@.len() - p, 2int,
{
    let (n, q) = match read_varint(bytes, p) {
        Err(e) => return Err(e),
        Ok(x) => x,
    };
    let (shape, q1) = match read_dims(bytes, q, n as usize) {
        Err(e) => return Err(e),
        Ok(x) => x,
    };
    let (has_layout, q2) = match read_byte(bytes, q1) {
        Err(e) => return Err(e),
        Ok((x, e)) => (x != 0, e),
    };
    let (layout, q3) = if has_layout {
        match read_string(bytes, q2, stats) {
            Err(e) => return Err(e),
            Ok((l, e)) => (Some(l), e),
        }
    } else {
        (None, q2)
    };
    match read_value(bytes, q3, stats) {
        Err(e) => Err(e),
        Ok((v, q4)) => {
            proof {
                lemma_dv_typed(v);
            }
            match v {
                SxValue::TypedArray(t) => Ok((SxValue::Tensor(SxTensor { shape, data: t, layout }), q4)),
                _ => Err(SxError::msg(SxErrorCode::TypeMismatch, "tensor data must be typed array")),
            }
        },
    }
}

proof fn lemma_dv_typed(v: SxValue)
    ensures
        (dv(v) is TypedArray) <==> (v is TypedArray),
        v matches SxValue::TypedArray(t) ==> dv(v) == V::TypedArray(t.dv()),
{
}

/// The column a column kind and a value make.
fn make_column(kind: u8, v: SxValue) -> (r: Option<SxColumn>)
    ensures
        match column_of(kind, dv(v)) {
            Some(c) => r matches Some(x) && dv_column(x) == c,
            None => r is None,
        },
{
    if kind == 1 {
        match v {
            SxValue::TypedArray(t) => Some(SxColumn::Typed(t)),
            _ => None,
        }
    } else if kind == 2 {
        match v {
            SxValue::Array(items) => Some(SxColumn::Values(items)),
            _ => None,
        }
    } else {
        None
    }
}

/// Reads `n` values at `pos`.
fn read_items(bytes: &[u8], pos: usize, n: usize, stats: &mut DecodeStats) -> (r: SxResult<(Vec<SxValue>, usize)>)
    requires
        pos <= bytes@.len(),
    ensures
        match items_at(bytes@, pos as int, n as nat, Seq::empty()) {
            Ok((vs, p)) => r matches Ok((x, q)) && dv_vals(x@) == vs && q == p,
            Err(c) => r matches Err(e) && e.code == c,
        },
        r matches Ok((_, q)) ==> pos <= q <= bytes@.len(),
        same_entry_counts(*final(stats), *old(stats)),
    decreases bytes@.len() - pos, 1int,
{
    let mut out: Vec<SxValue> = Vec::new();
    let mut cur: usize = pos;
    let mut i: usize = 0;
    while i < n
        invariant
            i <= n,
            pos <= cur <= bytes@.len(),
            items_at(bytes@, pos as int, n as nat, Seq::empty()) == items_at(
                bytes@,
                cur as int,
                (n - i) as nat,
                dv_vals(out@),
            ),
            same_entry_counts(*stats, *old(stats)),
        decreases n - i,
    {
        match read_value(bytes, cur, stats) {
            Err(e) => return Err(e),
            Ok((v, q)) => {
                proof {
                    assert(out@.push(v).drop_last() =~= out@);
                }
                out.push(v);
                cur = q;
            },
        }
        i += 1;
    }
    Ok((out, cur))
}

/// Reads `n` object entries at `pos`.
fn read_entries(bytes: &[u8], pos: usize, n: usize, stats: &mut DecodeStats) -> (r: SxResult<
    (Vec<(String, SxValue)>, usize),
>)
    requires
        pos <= bytes@.len(),
    ensures
        match entries_at(bytes@, pos as int, n as nat, Seq::empty()) {
            Ok((fs, p)) => r matches Ok((x, q)) && dv_fields(x@) == fs && q == p,
            Err(c) => r matches Err(e) && e.code == c,
        },
        r matches Ok((_, q)) ==> pos <= q <= bytes@.len(),
        same_entry_counts(*final(stats), *old(stats)),
    decreases bytes@.len() - pos, 1int,
{
    let mut out: Vec<(String, SxValue)> = Vec::new();
    let mut cur: usize = pos;
    let mut i: usize = 0;
    proof {
        assert(dv_fields(out@) =~= Seq::<(Seq<char>, V)>::empty());
    }
    while i < n
        invariant
            i <= n,
            pos <= cur <= bytes@.len(),
            entries_at(bytes@, pos as int, n as nat, Seq::empty()) == entries_at(
                bytes@,
                cur as int,
                (n - i) as nat,
                dv_fields(out@),
            ),
            sorted_keys(dv_fields(out@)),
            same_entry_counts(*stats, *old(stats)),
        decreases n - i,
    {
        proof {
            lemma_read_varint_bounds(bytes@, cur as int);
        }
        let (k, p1) = match read_string(bytes, cur, stats) {
            Err(e) => return Err(e),
            Ok(x) => x,
        };
        let (v, p2) = match read_value(bytes, p1, stats) {
            Err(e) => return Err(e),
            Ok(x) => x,
        };
        if str_equal(k.as_str(), "payload") || str_equal(k.as_str(), "cold_payload") || str_equal(
            k.as_str(),
            "cold_blob",
        ) {
            stats.cold_values_decoded = stats.cold_values_decoded.wrapping_add(1);
        }
        let found = find_key(&out, k.as_str());
        proof {
            lemma_dv_fields(out@);
        }
        if found.is_some() {
            proof {
                let j = found->0;
                assert(dv_fields(out@)[j as int].0 == k@);
            }
            return Err(SxError::msg(SxErrorCode::DuplicateKey, "duplicate key in object"));
        }
        proof {
            assert(!has_key(dv_fields(out@), k@));
        }
        insert_field(&mut out, k, v);
        cur = p2;
        i += 1;
    }
    Ok((out, cur))
}

/// Reads `n` table columns at `pos`.
fn read_columns(bytes: &[u8], pos: usize, n: usize, stats: &mut DecodeStats) -> (r: SxResult<
    (Vec<(String, SxColumn)>, usize),
>)
    requires
        pos <= bytes@.len(),
    ensures
        match columns_at(bytes@, pos as int, n as nat, Seq::empty()) {
            Ok((cs, p)) => r matches Ok((x, q)) && dv_columns(x@) == cs && q == p,
            Err(c) => r matches Err(e) && e.code == c,
        },
        r matches Ok((_, q)) ==> pos <= q <= bytes@.len(),
        same_entry_counts(*final(stats), *old(stats)),
    decreases bytes@.len() - pos, 1int,
{
    let mut out: Vec<(String, SxColumn)> = Vec::new();
    let mut cur: usize = pos;
    let mut i: usize = 0;
    proof {
        assert(dv_columns(out@) =~= Seq::<(Seq<char>, VColumn)>::empty());
    }
    while i < n
        invariant
            i <= n,
            pos <= cur <= bytes@.len(),
            columns_at(bytes@, pos as int, n as nat, Seq::empty()) == columns_at(
                bytes@,
                cur as int,
                (n - i) as nat,
                dv_columns(out@),
            ),
            sorted_keys(dv_columns(out@)),
            same_entry_counts(*stats, *old(stats)),
        decreases n - i,
    {
        proof {
            lemma_read_varint_bounds(bytes@, cur as int);
        }
        let (name, p1) = match read_string(bytes, cur, stats) {
            Err(e) => return Err(e),
            Ok(x) => x,
        };
        let (kind, p2) = match read_byte(bytes, p1) {
            Err(e) => return Err(e),
            Ok(x) => x,
        };
        let (v, p3) = match read_value(bytes, p2, stats) {
            Err(e) => return Err(e),
            Ok(x) => x,
        };
        match make_column(kind, v) {
            None => {
                return Err(SxError::msg(SxErrorCode::TypeMismatch, "invalid table column payload"));
            },
            Some(c) => {
                let rows = c.len();
                stats.rows_materialized = stats.rows_materialized.wrapping_add(rows);
                insert_column(&mut out, name, c);
            },
        }
        cur = p3;
        i += 1;
    }
    Ok((out, cur))
}

} // verus!
