//! JSON interchange: the JSON document model, the text encodings that the
//! tagged-object convention uses, and the conversion of values to JSON.
//!
//! Values that JSON has no native form for are written as tagged objects
//! `{"$type": tag, "$value": payload}`.  Object entries are kept in ascending
//! key order, the order a JSON map yields them in.
use crate::chars::{all_digits, decimal_text, digits_value, string_push};
use crate::path::{path_text, Seg};
use crate::value::{
    dv, dv_columns, dv_fields, dv_ops, dv_pairs, dv_vals, DeltaOpKind, SxColumn, SxTypedArray, SxValue, V, VColumn,
    VOp, VTyped,
};
use base64::Engine;
use crate::int_text::{lemma_parse_int_text, parse_int, parse_int_text};
use vstd::prelude::*;

verus! {

// ---------------------------------------------------------------------------
// The document model
// ---------------------------------------------------------------------------

/// A JSON document whose numbers are of type `N`.
pub enum Json<N> {
    Null,
    Bool(bool),
    Number(N),
    String(String),
    Array(Vec<Json<N>>),
    Object(Vec<(String, Json<N>)>),
}

/// A number written to JSON, by the constructor that makes it: an unsigned
/// or signed integer, or a finite float given by its `f64` or `f32` bits.
#[derive(Debug, Clone, Copy, PartialEq, Eq)]
pub enum JsonNum {
    Unsigned(u64),
    Signed(i64),
    Float(u64),
    Float32(u32),
}

/// A number read from JSON, by the readings that conversion takes of it:
/// as `i64`, as `u64`, as `f64` (bits), and its `f64` reading rounded to
/// `f32` (bits).
#[derive(Debug, Clone, Copy, PartialEq, Eq)]
pub struct JsonReadings {
    pub as_i64: Option<i64>,
    pub as_u64: Option<u64>,
    pub as_f64: Option<u64>,
    pub as_f32: u32,
}

/// JSON as this library writes it.
pub type JsonOut = Json<JsonNum>;

/// JSON as this library reads it.
pub type JsonIn = Json<JsonReadings>;

/// View of a JSON document.
pub enum J<N> {
    Null,
    Bool(bool),
    Num(N),
    Str(Seq<char>),
    Arr(Seq<J<N>>),
    Obj(Seq<(Seq<char>, J<N>)>),
}

pub open spec fn jv<N>(j: Json<N>) -> J<N>
    decreases j,
{
    match j {
        Json::Null => J::Null,
        Json::Bool(b) => J::Bool(b),
        Json::Number(n) => J::Num(n),
        Json::String(s) => J::Str(s@),
        Json::Array(a) => J::Arr(jv_items(a@)),
        Json::Object(o) => J::Obj(jv_entries(o@)),
    }
}

pub open spec fn jv_items<N>(s: Seq<Json<N>>) -> Seq<J<N>>
    decreases s,
{
    if s.len() == 0 {
        Seq::empty()
    } else {
        jv_items(s.drop_last()).push(jv(s.last()))
    }
}

pub open spec fn jv_entries<N>(s: Seq<(String, Json<N>)>) -> Seq<(Seq<char>, J<N>)>
    decreases s,
{
    if s.len() == 0 {
        Seq::empty()
    } else {
        jv_entries(s.drop_last()).push((s.last().0@, jv(s.last().1)))
    }
}

pub proof fn lemma_jv_items<N>(s: Seq<Json<N>>)
    ensures
        jv_items(s).len() == s.len(),
        forall|i: int| 0 <= i < s.len() ==> #[trigger] jv_items(s)[i] == jv(s[i]),
    decreases s.len(),
{
    if s.len() > 0 {
        lemma_jv_items(s.drop_last());
    }
}

pub proof fn lemma_jv_entries<N>(s: Seq<(String, Json<N>)>)
    ensures
        jv_entries(s).len() == s.len(),
        forall|i: int| 0 <= i < s.len() ==> #[trigger] jv_entries(s)[i] == (s[i].0@, jv(s[i].1)),
    decreases s.len(),
{
    if s.len() > 0 {
        lemma_jv_entries(s.drop_last());
    }
}

// ---------------------------------------------------------------------------
// Text encodings
// ---------------------------------------------------------------------------

/// The lowercase hex digit of a value below sixteen.
pub open spec fn hex_digit(n: nat) -> char {
    if n < 10 {
        ((n + 48) as u32) as char
    } else {
        ((n + 87) as u32) as char
    }
}

/// Lowercase hex text of bytes, two digits per byte.
pub open spec fn hex_text(b: Seq<u8>) -> Seq<char>
    decreases b.len(),
{
    if b.len() == 0 {
        Seq::empty()
    } else {
        hex_text(b.drop_last()) + seq![hex_digit(b.last() as nat / 16), hex_digit(b.last() as nat % 16)]
    }
}

/// The value of a hex digit of either case.
pub open spec fn hex_value(c: char) -> Option<nat> {
    if '0' <= c && c <= '9' {
        Some((c as nat - 48) as nat)
    } else if 'a' <= c && c <= 'f' {
        Some((c as nat - 87) as nat)
    } else if 'A' <= c && c <= 'F' {
        Some((c as nat - 55) as nat)
    } else {
        None
    }
}

/// The bytes of hex text: an even number of hex digits of either case.
pub open spec fn hex_bytes(s: Seq<char>) -> Option<Seq<u8>>
    decreases s.len(),
{
    if s.len() % 2 == 1 {
        None
    } else if s.len() == 0 {
        Some(Seq::empty())
    } else {
        match (hex_bytes(s.subrange(0, s.len() - 2)), hex_value(s[s.len() - 2]), hex_value(s[s.len() - 1])) {
            (Some(p), Some(h), Some(l)) => Some(p.push((h * 16 + l) as u8)),
            _ => None,
        }
    }
}

/// The hyphenated lowercase text of a UUID's sixteen bytes (8-4-4-4-12).
pub open spec fn uuid_text(b: Seq<u8>) -> Seq<char> {
    hex_text(b.subrange(0, 4)) + seq!['-'] + hex_text(b.subrange(4, 6)) + seq!['-'] + hex_text(
        b.subrange(6, 8),
    ) + seq!['-'] + hex_text(b.subrange(8, 10)) + seq!['-'] + hex_text(b.subrange(10, 16))
}

/// What `i128::from_str` accepts: an optional sign, then one or more digits
/// whose signed value fits in `i128`.
pub open spec fn spec_parse_i128(s: Seq<char>) -> Option<i128> {
    let neg = s.len() > 0 && s[0] == '-';
    let d = if s.len() > 0 && (s[0] == '-' || s[0] == '+') { s.drop_first() } else { s };
    let v: int = if neg { -(digits_value(d) as int) } else { digits_value(d) as int };
    if d.len() > 0 && all_digits(d) && i128::MIN <= v && v <= i128::MAX {
        Some(v as i128)
    } else {
        None
    }
}

/// Standard base64 text (with padding) of bytes.
pub uninterp spec fn b64_text(b: Seq<u8>) -> Seq<char>;

/// What standard base64 decoding of a text gives: the bytes, or the
/// message of the error.
pub uninterp spec fn b64_result(s: Seq<char>) -> Result<Seq<u8>, Seq<char>>;

/// The bytes that standard base64 text decodes to, if it is valid.
pub open spec fn b64_bytes(s: Seq<char>) -> Option<Seq<u8>> {
    match b64_result(s) {
        Ok(b) => Some(b),
        Err(_) => None,
    }
}

/// The message of the error base64 decoding gives for a text it refuses.
pub open spec fn b64_error_text(s: Seq<char>) -> Seq<char> {
    match b64_result(s) {
        Ok(_) => Seq::empty(),
        Err(m) => m,
    }
}

/// What `Uuid::parse_str` gives for a text: the sixteen bytes, or the
/// message of the error.
pub uninterp spec fn uuid_result(s: Seq<char>) -> Result<Seq<u8>, Seq<char>>;

/// The bytes of a UUID in any text form the `uuid` crate accepts.
pub open spec fn uuid_parsed(s: Seq<char>) -> Option<Seq<u8>> {
    match uuid_result(s) {
        Ok(b) => Some(b),
        Err(_) => None,
    }
}

/// The message of the error `Uuid::parse_str` gives for a text it refuses.
pub open spec fn uuid_error_text(s: Seq<char>) -> Seq<char> {
    match uuid_result(s) {
        Ok(_) => Seq::empty(),
        Err(m) => m,
    }
}

/// `hex::encode`: lowercase hex text, two digits per byte.
#[verifier::external_body]
pub(crate) fn hex_encode(b: &[u8]) -> (r: String)
    ensures
        r@ == hex_text(b@),
{
    hex::encode(b)
}

/// `hex::decode`: the bytes of hex text of either case, refused on odd
/// length or a character that is not a hex digit.
#[verifier::external_body]
pub(crate) fn hex_decode(s: &str) -> (r: Option<Vec<u8>>)
    ensures
        match r {
            Some(v) => hex_bytes(s@) == Some(v@),
            None => hex_bytes(s@) is None,
        },
{
    hex::decode(s).ok()
}

/// `Uuid::to_string`: the hyphenated lowercase form.
#[verifier::external_body]
pub(crate) fn uuid_to_text(b: &[u8; 16]) -> (r: String)
    ensures
        r@ == uuid_text(b@),
{
    uuid::Uuid::from_bytes(*b).to_string()
}

/// `Uuid::parse_str`: the bytes of a UUID text, or the error's message.  The
/// hyphenated lowercase form of any sixteen bytes parses back to them.
#[verifier::external_body]
pub(crate) fn uuid_parse(s: &str) -> (r: Result<[u8; 16], String>)
    ensures
        match r {
            Ok(b) => uuid_result(s@) == Ok::<Seq<u8>, Seq<char>>(b@),
            Err(m) => uuid_result(s@) == Err::<Seq<u8>, Seq<char>>(m@),
        },
        (exists|b: Seq<u8>| b.len() == 16 && s@ == uuid_text(b)) ==> r is Ok,
        r matches Ok(x) ==> forall|b: Seq<u8>| b.len() == 16 && s@ == uuid_text(b) ==> x@ == b,
{
    match uuid::Uuid::parse_str(s) {
        Ok(u) => Ok(*u.as_bytes()),
        Err(e) => Err(e.to_string()),
    }
}

/// Base64 `STANDARD.encode`.
#[verifier::external_body]
pub(crate) fn base64_encode(b: &[u8]) -> (r: String)
    ensures
        r@ == b64_text(b@),
{
    base64::engine::general_purpose::STANDARD.encode(b)
}

/// Base64 `STANDARD.decode`: the bytes, or the error's message.  The
/// encoding of any bytes decodes back to them.
#[verifier::external_body]
pub(crate) fn base64_decode(s: &str) -> (r: Result<Vec<u8>, String>)
    ensures
        match r {
            Ok(v) => b64_result(s@) == Ok::<Seq<u8>, Seq<char>>(v@),
            Err(m) => b64_result(s@) == Err::<Seq<u8>, Seq<char>>(m@),
        },
        (exists|b: Seq<u8>| s@ == b64_text(b)) ==> r is Ok,
        r matches Ok(x) ==> forall|b: Seq<u8>| s@ == b64_text(b) ==> x@ == b,
{
    match base64::engine::general_purpose::STANDARD.decode(s) {
        Ok(v) => Ok(v),
        Err(e) => Err(e.to_string()),
    }
}

/// The message of the error `i128::from_str` gives for a text it refuses.
pub open spec fn i128_error_text(s: Seq<char>) -> Seq<char> {
    match parse_int_text(s, true, i128::MIN as int, i128::MAX as int) {
        Err(m) => m,
        Ok(_) => Seq::empty(),
    }
}

/// Parses an `i128` the way `i128::from_str` does: the value, or the
/// error's message.
pub(crate) fn parse_i128(s: &str) -> (r: Result<i128, String>)
    ensures
        match r {
            Ok(v) => spec_parse_i128(s@) == Some(v),
            Err(m) => spec_parse_i128(s@) is None && m@ == i128_error_text(s@),
        },
{
    proof {
        lemma_parse_int_text(s@, true, i128::MIN as int, i128::MAX as int);
    }
    parse_int(s, true, i128::MIN, i128::MAX)
}

// ---------------------------------------------------------------------------
// Values to JSON
// ---------------------------------------------------------------------------

/// True when `f64` bits are a finite number (exponent not all ones).
pub open spec fn f64_finite(b: u64) -> bool {
    (b >> 52u64) & 0x7ffu64 != 0x7ffu64
}

/// True when `f32` bits are a finite number (exponent not all ones).
pub open spec fn f32_finite(b: u32) -> bool {
    (b >> 23u32) & 0xffu32 != 0xffu32
}

/// A float as JSON: a number when finite, else null.
pub open spec fn f64_json(b: u64) -> J<JsonNum> {
    if f64_finite(b) {
        J::Num(JsonNum::Float(b))
    } else {
        J::Null
    }
}

pub open spec fn f32_json(b: u32) -> J<JsonNum> {
    if f32_finite(b) {
        J::Num(JsonNum::Float32(b))
    } else {
        J::Null
    }
}

pub open spec fn unsigned(x: u64) -> J<JsonNum> {
    J::Num(JsonNum::Unsigned(x))
}

pub open spec fn signed(x: i64) -> J<JsonNum> {
    J::Num(JsonNum::Signed(x))
}

/// The decimal text of an integer, with a leading `-` when negative.
pub open spec fn int_text(x: int) -> Seq<char> {
    if x < 0 {
        seq!['-'] + decimal_text((-x) as nat)
    } else {
        decimal_text(x as nat)
    }
}

/// The tagged-object form `{"$type": tag, "$value": value}`.
pub open spec fn tagged(tag: Seq<char>, value: J<JsonNum>) -> J<JsonNum> {
    J::Obj(seq![("$type"@, J::Str(tag)), ("$value"@, value)])
}

/// Entries that are there only when the option is.
pub open spec fn opt_str_entry(key: Seq<char>, o: Option<Seq<char>>) -> Seq<(Seq<char>, J<JsonNum>)> {
    match o {
        Some(x) => seq![(key, J::Str(x))],
        None => Seq::empty(),
    }
}

pub open spec fn opt_hex_entry(key: Seq<char>, o: Option<Seq<u8>>) -> Seq<(Seq<char>, J<JsonNum>)> {
    match o {
        Some(x) => seq![(key, J::Str(hex_text(x)))],
        None => Seq::empty(),
    }
}

pub open spec fn opt_u64_entry(key: Seq<char>, o: Option<u64>) -> Seq<(Seq<char>, J<JsonNum>)> {
    match o {
        Some(x) => seq![(key, unsigned(x))],
        None => Seq::empty(),
    }
}

pub open spec fn opt_path_entry(key: Seq<char>, o: Option<Seq<Seg>>) -> Seq<(Seq<char>, J<JsonNum>)> {
    match o {
        Some(x) => seq![(key, J::Str(path_text(x)))],
        None => Seq::empty(),
    }
}

pub open spec fn opt_index_entry(key: Seq<char>, o: Option<usize>) -> Seq<(Seq<char>, J<JsonNum>)> {
    match o {
        Some(x) => seq![(key, unsigned(x as u64))],
        None => Seq::empty(),
    }
}

pub open spec fn u8_items(v: Seq<u8>) -> Seq<J<JsonNum>> {
    v.map_values(|x: u8| unsigned(x as u64))
}

pub open spec fn i32_items(v: Seq<i32>) -> Seq<J<JsonNum>> {
    v.map_values(|x: i32| signed(x as i64))
}

pub open spec fn f32_items(v: Seq<u32>) -> Seq<J<JsonNum>> {
    v.map_values(|x: u32| f32_json(x))
}

pub open spec fn f64_items(v: Seq<u64>) -> Seq<J<JsonNum>> {
    v.map_values(|x: u64| f64_json(x))
}

pub open spec fn bool_items(v: Seq<bool>) -> Seq<J<JsonNum>> {
    v.map_values(|x: bool| J::<JsonNum>::Bool(x))
}

pub open spec fn shape_items(v: Seq<usize>) -> Seq<J<JsonNum>> {
    v.map_values(|x: usize| unsigned(x as u64))
}

/// The lowercase name of a delta operation kind.
pub open spec fn kind_name(k: DeltaOpKind) -> Seq<char> {
    match k {
        DeltaOpKind::SetAt => "set"@,
        DeltaOpKind::Replace => "replace"@,
        DeltaOpKind::Remove => "remove"@,
        DeltaOpKind::Append => "append"@,
        DeltaOpKind::Prepend => "prepend"@,
        DeltaOpKind::Insert => "insert"@,
        DeltaOpKind::Increment => "increment"@,
        DeltaOpKind::Decrement => "decrement"@,
        DeltaOpKind::Merge => "merge"@,
        DeltaOpKind::Move => "move"@,
        DeltaOpKind::Copy => "copy"@,
        DeltaOpKind::Clear => "clear"@,
    }
}

/// A typed array as JSON: tagged with its element kind, non-finite floats
/// written as null.
pub open spec fn typed_json(t: VTyped) -> J<JsonNum> {
    match t {
        VTyped::U8(v) => tagged("typed_array:u8"@, J::Arr(u8_items(v))),
        VTyped::I32(v) => tagged("typed_array:i32"@, J::Arr(i32_items(v))),
        VTyped::F32(v) => tagged("typed_array:f32"@, J::Arr(f32_items(v))),
        VTyped::F64(v) => tagged("typed_array:f64"@, J::Arr(f64_items(v))),
        VTyped::Bool(v) => tagged("typed_array:bool"@, J::Arr(bool_items(v))),
    }
}

/// A value as JSON.
pub open spec fn to_json(v: V) -> J<JsonNum>
    decreases v,
{
    match v {
        V::Null => J::Null,
        V::Bool(b) => J::Bool(b),
        V::U8(x) => unsigned(x as u64),
        V::U16(x) => unsigned(x as u64),
        V::U32(x) => unsigned(x as u64),
        V::U64(x) => unsigned(x),
        V::I8(x) => signed(x as i64),
        V::I16(x) => signed(x as i64),
        V::I32(x) => signed(x as i64),
        V::I64(x) => signed(x),
        V::F32(b) => f32_json(b),
        V::F64(b) => f64_json(b),
        V::String(s) => J::Str(s),
        V::Enum(s) => J::Str(s),
        V::Url(s) => J::Str(s),
        V::Email(s) => J::Str(s),
        V::Bytes(b) => tagged("bytes"@, J::Str(b64_text(b))),
        V::Array(items) => J::Arr(to_json_items(items)),
        V::Object(fs) => J::Obj(to_json_fields(fs)),
        V::MapEntries(ps) => tagged("map"@, J::Arr(to_json_pairs(ps))),
        V::Uuid(b) => tagged("uuid"@, J::Str(uuid_text(b))),
        V::Timestamp(s) => tagged("timestamp"@, J::Str(s)),
        V::Date(s) => tagged("date"@, J::Str(s)),
        V::Duration(s) => tagged("duration"@, J::Str(s)),
        V::Decimal(scaled, scale) => tagged(
            "decimal"@,
            J::Obj(seq![("scale"@, unsigned(scale as u64)), ("scaled"@, J::Str(int_text(scaled as int)))]),
        ),
        V::Money(cur, scaled, scale) => tagged(
            "money"@,
            J::Obj(seq![("currency"@, J::Str(cur)), ("scale"@, unsigned(scale as u64)), ("scaled"@, signed(scaled))]),
        ),
        V::TypedArray(t) => typed_json(t),
        V::Table(cols) => tagged("table"@, J::Obj(to_json_columns(cols))),
        V::Tensor(shape, data, layout) => tagged(
            "tensor"@,
            J::Obj(
                seq![("data"@, typed_json(data))] + opt_str_entry("layout"@, layout) + seq![
                    ("shape"@, J::Arr(shape_items(shape))),
                ],
            ),
        ),
        V::Reference(t) => tagged("ref"@, J::Str(t)),
        V::BlobRef(uri, media_type, size, hash) => tagged(
            "blob_ref"@,
            J::Obj(
                opt_hex_entry("hash"@, hash) + opt_str_entry("media_type"@, media_type) + opt_u64_entry("size"@, size)
                    + seq![("uri"@, J::Str(uri))],
            ),
        ),
        V::Delta(from_hash, ops) => tagged(
            "delta"@,
            J::Obj(opt_str_entry("from_hash"@, from_hash) + seq![("ops"@, J::Arr(to_json_ops(ops)))]),
        ),
        V::Message(m) => tagged(
            "message"@,
            J::Obj(
                seq![("fields"@, J::Obj(to_json_fields(m.fields)))] + opt_hex_entry("logical_hash"@, m.logical_hash)
                    + opt_str_entry("message_id"@, m.message_id) + (match m.payload {
                    Some(p) => seq![("payload"@, to_json(*p))],
                    None => Seq::empty(),
                }) + opt_str_entry("schema"@, m.schema) + seq![("sx_version"@, unsigned(m.sx_version as u64))]
                    + opt_str_entry("timestamp"@, m.timestamp) + opt_str_entry("type"@, m.message_type),
            ),
        ),
    }
}

pub open spec fn to_json_items(s: Seq<V>) -> Seq<J<JsonNum>>
    decreases s,
{
    if s.len() == 0 {
        Seq::empty()
    } else {
        to_json_items(s.drop_last()).push(to_json(s.last()))
    }
}

pub open spec fn to_json_fields(s: Seq<(Seq<char>, V)>) -> Seq<(Seq<char>, J<JsonNum>)>
    decreases s,
{
    if s.len() == 0 {
        Seq::empty()
    } else {
        to_json_fields(s.drop_last()).push((s.last().0, to_json(s.last().1)))
    }
}

/// Map entries as two-item arrays.
pub open spec fn to_json_pairs(s: Seq<(V, V)>) -> Seq<J<JsonNum>>
    decreases s,
{
    if s.len() == 0 {
        Seq::empty()
    } else {
        to_json_pairs(s.drop_last()).push(J::Arr(seq![to_json(s.last().0), to_json(s.last().1)]))
    }
}

pub open spec fn column_json(c: VColumn) -> J<JsonNum>
    decreases c,
{
    match c {
        VColumn::Typed(t) => typed_json(t),
        VColumn::Values(items) => J::Arr(to_json_items(items)),
    }
}

pub open spec fn to_json_columns(s: Seq<(Seq<char>, VColumn)>) -> Seq<(Seq<char>, J<JsonNum>)>
    decreases s,
{
    if s.len() == 0 {
        Seq::empty()
    } else {
        to_json_columns(s.drop_last()).push((s.last().0, column_json(s.last().1)))
    }
}

/// A delta operation as a JSON object.
pub open spec fn op_json(o: VOp) -> J<JsonNum>
    decreases o,
{
    J::Obj(
        opt_path_entry("from"@, o.from) + opt_index_entry("index"@, o.index) + seq![("kind"@, J::Str(kind_name(o.kind))), ("path"@, J::Str(path_text(o.path)))] + (match o.value {
            Some(v) => seq![("value"@, to_json(v))],
            None => Seq::empty(),
        }),
    )
}

pub open spec fn to_json_ops(s: Seq<VOp>) -> Seq<J<JsonNum>>
    decreases s,
{
    if s.len() == 0 {
        Seq::empty()
    } else {
        to_json_ops(s.drop_last()).push(op_json(s.last()))
    }
}

pub proof fn lemma_to_json_items(s: Seq<V>)
    ensures
        to_json_items(s).len() == s.len(),
        forall|i: int| 0 <= i < s.len() ==> #[trigger] to_json_items(s)[i] == to_json(s[i]),
    decreases s.len(),
{
    if s.len() > 0 {
        lemma_to_json_items(s.drop_last());
    }
}

proof fn lemma_to_json_fields(s: Seq<(Seq<char>, V)>)
    ensures
        to_json_fields(s).len() == s.len(),
        forall|i: int| 0 <= i < s.len() ==> #[trigger] to_json_fields(s)[i] == (s[i].0, to_json(s[i].1)),
    decreases s.len(),
{
    if s.len() > 0 {
        lemma_to_json_fields(s.drop_last());
    }
}

proof fn lemma_to_json_pairs(s: Seq<(V, V)>)
    ensures
        to_json_pairs(s).len() == s.len(),
        forall|i: int|
            0 <= i < s.len() ==> #[trigger] to_json_pairs(s)[i] == J::Arr(seq![to_json(s[i].0), to_json(s[i].1)]),
    decreases s.len(),
{
    if s.len() > 0 {
        lemma_to_json_pairs(s.drop_last());
    }
}

proof fn lemma_to_json_columns(s: Seq<(Seq<char>, VColumn)>)
    ensures
        to_json_columns(s).len() == s.len(),
        forall|i: int| 0 <= i < s.len() ==> #[trigger] to_json_columns(s)[i] == (s[i].0, column_json(s[i].1)),
    decreases s.len(),
{
    if s.len() > 0 {
        lemma_to_json_columns(s.drop_last());
    }
}

proof fn lemma_to_json_ops(s: Seq<VOp>)
    ensures
        to_json_ops(s).len() == s.len(),
        forall|i: int| 0 <= i < s.len() ==> #[trigger] to_json_ops(s)[i] == op_json(s[i]),
    decreases s.len(),
{
    if s.len() > 0 {
        lemma_to_json_ops(s.drop_last());
    }
}

fn push_entry(o: &mut Vec<(String, JsonOut)>, key: &str, value: JsonOut)
    ensures
        jv_entries(final(o)@) == jv_entries(old(o)@).push((key@, jv(value))),
{
    let ghost before = o@;
    o.push((key.to_owned(), value));
    proof {
        assert(o@.drop_last() =~= before);
    }
}

fn push_opt_str(o: &mut Vec<(String, JsonOut)>, key: &str, x: &Option<String>)
    ensures
        jv_entries(final(o)@) == jv_entries(old(o)@) + opt_str_entry(key@, crate::value::opt_str(*x)),
{
    match x {
        Some(v) => push_entry(o, key, Json::String(v.clone())),
        None => {
            assert(jv_entries(o@) + Seq::<(Seq<char>, J<JsonNum>)>::empty() =~= jv_entries(o@));
        },
    }
}

fn push_opt_hex(o: &mut Vec<(String, JsonOut)>, key: &str, x: &Option<Vec<u8>>)
    ensures
        jv_entries(final(o)@) == jv_entries(old(o)@) + opt_hex_entry(key@, crate::value::opt_bytes(*x)),
{
    match x {
        Some(v) => push_entry(o, key, Json::String(hex_encode(v.as_slice()))),
        None => {
            assert(jv_entries(o@) + Seq::<(Seq<char>, J<JsonNum>)>::empty() =~= jv_entries(o@));
        },
    }
}

fn push_opt_u64(o: &mut Vec<(String, JsonOut)>, key: &str, x: Option<u64>)
    ensures
        jv_entries(final(o)@) == jv_entries(old(o)@) + opt_u64_entry(key@, x),
{
    match x {
        Some(v) => push_entry(o, key, Json::Number(JsonNum::Unsigned(v))),
        None => {
            assert(jv_entries(o@) + Seq::<(Seq<char>, J<JsonNum>)>::empty() =~= jv_entries(o@));
        },
    }
}

fn tagged_out(tag: &str, value: JsonOut) -> (r: JsonOut)
    ensures
        jv(r) == tagged(tag@, jv(value)),
{
    let mut o: Vec<(String, JsonOut)> = Vec::new();
    push_entry(&mut o, "$type", Json::String(tag.to_owned()));
    push_entry(&mut o, "$value", value);
    proof {
        assert(jv_entries(o@) =~= seq![("$type"@, J::<JsonNum>::Str(tag@)), ("$value"@, jv(value))]);
    }
    Json::Object(o)
}

fn f64_number(b: u64) -> (r: JsonOut)
    ensures
        jv(r) == f64_json(b),
{
    if (b >> 52u64) & 0x7ffu64 != 0x7ffu64 {
        Json::Number(JsonNum::Float(b))
    } else {
        Json::Null
    }
}

fn f32_number(b: u32) -> (r: JsonOut)
    ensures
        jv(r) == f32_json(b),
{
    if (b >> 23u32) & 0xffu32 != 0xffu32 {
        Json::Number(JsonNum::Float32(b))
    } else {
        Json::Null
    }
}

/// The decimal text of a `u128`.
fn u128_to_decimal(n: u128) -> (r: String)
    ensures
        r@ == decimal_text(n as nat),
    decreases n,
{
    if n < 10 {
        let mut s = String::new();
        string_push(&mut s, ((n as u32) + ('0' as u32)) as u8 as char);
        assert(s@ =~= seq![crate::chars::digit_char(n as nat)]);
        s
    } else {
        let mut s = u128_to_decimal(n / 10);
        string_push(&mut s, (((n % 10) as u32) + ('0' as u32)) as u8 as char);
        s
    }
}

/// The decimal text of an `i128`, as its `to_string` writes it.
pub(crate) fn i128_to_decimal(x: i128) -> (r: String)
    ensures
        r@ == int_text(x as int),
{
    if x < 0 {
        let m: u128 = ((-(x + 1)) as u128) + 1;
        let d = u128_to_decimal(m);
        let mut s = String::new();
        string_push(&mut s, '-');
        s.append(d.as_str());
        assert(s@ =~= seq!['-'] + decimal_text((-(x as int)) as nat));
        s
    } else {
        u128_to_decimal(x as u128)
    }
}

fn kind_text(k: DeltaOpKind) -> (r: &'static str)
    ensures
        r@ == kind_name(k),
{
    match k {
        DeltaOpKind::SetAt => "set",
        DeltaOpKind::Replace => "replace",
        DeltaOpKind::Remove => "remove",
        DeltaOpKind::Append => "append",
        DeltaOpKind::Prepend => "prepend",
        DeltaOpKind::Insert => "insert",
        DeltaOpKind::Increment => "increment",
        DeltaOpKind::Decrement => "decrement",
        DeltaOpKind::Merge => "merge",
        DeltaOpKind::Move => "move",
        DeltaOpKind::Copy => "copy",
        DeltaOpKind::Clear => "clear",
    }
}

/// A typed array as JSON.
fn typed_to_json(t: &SxTypedArray) -> (r: JsonOut)
    ensures
        jv(r) == typed_json(t.dv()),
{
    let mut out: Vec<JsonOut> = Vec::new();
    match t {
        SxTypedArray::U8(v) => {
            let mut i: usize = 0;
            while i < v.len()
                invariant
                    i <= v@.len(),
                    out@.len() == i,
                    forall|j: int| 0 <= j < i ==> jv(#[trigger] out@[j]) == unsigned(v@[j] as u64),
                decreases v.len() - i,
            {
                out.push(Json::Number(JsonNum::Unsigned(v[i] as u64)));
                i += 1;
            }
            proof {
                lemma_jv_items(out@);
                assert(jv_items(out@) =~= u8_items(v@));
            }
            tagged_out("typed_array:u8", Json::Array(out))
        },
        SxTypedArray::I32(v) => {
            let mut i: usize = 0;
            while i < v.len()
                invariant
                    i <= v@.len(),
                    out@.len() == i,
                    forall|j: int| 0 <= j < i ==> jv(#[trigger] out@[j]) == signed(v@[j] as i64),
                decreases v.len() - i,
            {
                out.push(Json::Number(JsonNum::Signed(v[i] as i64)));
                i += 1;
            }
            proof {
                lemma_jv_items(out@);
                assert(jv_items(out@) =~= i32_items(v@));
            }
            tagged_out("typed_array:i32", Json::Array(out))
        },
        SxTypedArray::F32(v) => {
            let mut i: usize = 0;
            while i < v.len()
                invariant
                    i <= v@.len(),
                    out@.len() == i,
                    forall|j: int| 0 <= j < i ==> jv(#[trigger] out@[j]) == f32_json(v@[j]),
                decreases v.len() - i,
            {
                out.push(f32_number(v[i]));
                i += 1;
            }
            proof {
                lemma_jv_items(out@);
                assert(jv_items(out@) =~= f32_items(v@));
            }
            tagged_out("typed_array:f32", Json::Array(out))
        },
        SxTypedArray::F64(v) => {
            let mut i: usize = 0;
            while i < v.len()
                invariant
                    i <= v@.len(),
                    out@.len() == i,
                    forall|j: int| 0 <= j < i ==> jv(#[trigger] out@[j]) == f64_json(v@[j]),
                decreases v.len() - i,
            {
                out.push(f64_number(v[i]));
                i += 1;
            }
            proof {
                lemma_jv_items(out@);
                assert(jv_items(out@) =~= f64_items(v@));
            }
            tagged_out("typed_array:f64", Json::Array(out))
        },
        SxTypedArray::Bool(v) => {
            let mut i: usize = 0;
            while i < v.len()
                invariant
                    i <= v@.len(),
                    out@.len() == i,
                    forall|j: int| 0 <= j < i ==> jv(#[trigger] out@[j]) == J::<JsonNum>::Bool(v@[j]),
                decreases v.len() - i,
            {
                out.push(Json::Bool(v[i]));
                i += 1;
            }
            proof {
                lemma_jv_items(out@);
                assert(jv_items(out@) =~= bool_items(v@));
            }
            tagged_out("typed_array:bool", Json::Array(out))
        },
    }
}

fn items_to_json(s: &Vec<SxValue>) -> (r: Vec<JsonOut>)
    ensures
        jv_items(r@) == to_json_items(dv_vals(s@)),
    decreases s, 1nat,
{
    let mut out: Vec<JsonOut> = Vec::new();
    let mut i: usize = 0;
    while i < s.len()
        invariant
            i <= s.len(),
            out@.len() == i,
            forall|j: int| 0 <= j < i ==> jv(#[trigger] out@[j]) == to_json(dv(s@[j])),
        decreases s.len() - i,
    {
        assert(decreases_to!(s => s@[i as int]));
        let c = sx_to_json(&s[i]);
        out.push(c);
        i += 1;
    }
    proof {
        crate::fields::lemma_dv_vals(s@);
        lemma_to_json_items(dv_vals(s@));
        lemma_jv_items(out@);
        assert(jv_items(out@) =~= to_json_items(dv_vals(s@)));
    }
    out
}

fn fields_to_json(s: &Vec<(String, SxValue)>) -> (r: Vec<(String, JsonOut)>)
    ensures
        jv_entries(r@) == to_json_fields(dv_fields(s@)),
    decreases s, 1nat,
{
    let mut out: Vec<(String, JsonOut)> = Vec::new();
    let mut i: usize = 0;
    while i < s.len()
        invariant
            i <= s.len(),
            out@.len() == i,
            forall|j: int|
                0 <= j < i ==> (#[trigger] out@[j]).0@ == s@[j].0@ && jv(out@[j].1) == to_json(dv(s@[j].1)),
        decreases s.len() - i,
    {
        assert(decreases_to!(s => s@[i as int].1));
        let c = sx_to_json(&s[i].1);
        out.push((s[i].0.clone(), c));
        i += 1;
    }
    proof {
        crate::fields::lemma_dv_fields(s@);
        lemma_to_json_fields(dv_fields(s@));
        lemma_jv_entries(out@);
        assert(jv_entries(out@) =~= to_json_fields(dv_fields(s@)));
    }
    out
}

fn pairs_to_json(s: &Vec<(SxValue, SxValue)>) -> (r: Vec<JsonOut>)
    ensures
        jv_items(r@) == to_json_pairs(dv_pairs(s@)),
    decreases s, 1nat,
{
    let mut out: Vec<JsonOut> = Vec::new();
    let mut i: usize = 0;
    while i < s.len()
        invariant
            i <= s.len(),
            out@.len() == i,
            forall|j: int|
                0 <= j < i ==> jv(#[trigger] out@[j]) == J::Arr(seq![to_json(dv(s@[j].0)), to_json(dv(s@[j].1))]),
        decreases s.len() - i,
    {
        assert(decreases_to!(s => s@[i as int].0));
        assert(decreases_to!(s => s@[i as int].1));
        let a = sx_to_json(&s[i].0);
        let b = sx_to_json(&s[i].1);
        let mut pair: Vec<JsonOut> = Vec::new();
        pair.push(a);
        pair.push(b);
        proof {
            lemma_jv_items(pair@);
            assert(jv_items(pair@) =~= seq![to_json(dv(s@[i as int].0)), to_json(dv(s@[i as int].1))]);
        }
        out.push(Json::Array(pair));
        i += 1;
    }
    proof {
        crate::value_ops::lemma_dv_pairs(s@);
        lemma_to_json_pairs(dv_pairs(s@));
        lemma_jv_items(out@);
        assert(jv_items(out@) =~= to_json_pairs(dv_pairs(s@)));
    }
    out
}

fn column_to_json(c: &SxColumn) -> (r: JsonOut)
    ensures
        jv(r) == column_json(crate::value::dv_column(*c)),
    decreases c, 2nat,
{
    match c {
        SxColumn::Typed(t) => typed_to_json(t),
        SxColumn::Values(v) => Json::Array(items_to_json(v)),
    }
}

fn columns_to_json(s: &Vec<(String, SxColumn)>) -> (r: Vec<(String, JsonOut)>)
    ensures
        jv_entries(r@) == to_json_columns(dv_columns(s@)),
    decreases s, 3nat,
{
    let mut out: Vec<(String, JsonOut)> = Vec::new();
    let mut i: usize = 0;
    while i < s.len()
        invariant
            i <= s.len(),
            out@.len() == i,
            forall|j: int|
                0 <= j < i ==> (#[trigger] out@[j]).0@ == s@[j].0@ && jv(out@[j].1) == column_json(
                    crate::value::dv_column(s@[j].1),
                ),
        decreases s.len() - i,
    {
        assert(decreases_to!(s => s@[i as int].1));
        let c = column_to_json(&s[i].1);
        out.push((s[i].0.clone(), c));
        i += 1;
    }
    proof {
        crate::value_ops::lemma_dv_columns(s@);
        lemma_to_json_columns(dv_columns(s@));
        lemma_jv_entries(out@);
        assert(jv_entries(out@) =~= to_json_columns(dv_columns(s@)));
    }
    out
}

fn op_to_json(o: &crate::value::DeltaOp) -> (r: JsonOut)
    ensures
        jv(r) == op_json(crate::value::dv_op(*o)),
    decreases o, 2nat,
{
    let mut m: Vec<(String, JsonOut)> = Vec::new();
    let ghost e0 = jv_entries(m@);
    match &o.from {
        Some(f) => push_entry(&mut m, "from", Json::String(f.to_text())),
        None => {},
    }
    let ghost e1 = jv_entries(m@);
    assert(e1 =~= opt_path_entry("from"@, crate::value::opt_path(o.from)));
    match o.index {
        Some(idx) => push_entry(&mut m, "index", Json::Number(JsonNum::Unsigned(idx as u64))),
        None => {},
    }
    let ghost e2 = jv_entries(m@);
    assert(e2 =~= e1 + opt_index_entry("index"@, o.index));
    push_entry(&mut m, "kind", Json::String(kind_text(o.kind).to_owned()));
    push_entry(&mut m, "path", Json::String(o.path.to_text()));
    let ghost e3 = jv_entries(m@);
    assert(e3 =~= e2 + seq![("kind"@, J::<JsonNum>::Str(kind_name(o.kind))), ("path"@, J::<JsonNum>::Str(path_text(o.path@)))]);
    match &o.value {
        Some(v) => {
            let j = sx_to_json(v);
            push_entry(&mut m, "value", j);
        },
        None => {},
    }
    proof {
        let vo = crate::value::dv_op(*o);
        assert(jv_entries(m@) =~= e3 + (match vo.value {
            Some(v) => seq![("value"@, to_json(v))],
            None => Seq::<(Seq<char>, J<JsonNum>)>::empty(),
        }));
    }
    Json::Object(m)
}

fn ops_to_json(s: &Vec<crate::value::DeltaOp>) -> (r: Vec<JsonOut>)
    ensures
        jv_items(r@) == to_json_ops(dv_ops(s@)),
    decreases s, 3nat,
{
    let mut out: Vec<JsonOut> = Vec::new();
    let mut i: usize = 0;
    while i < s.len()
        invariant
            i <= s.len(),
            out@.len() == i,
            forall|j: int| 0 <= j < i ==> jv(#[trigger] out@[j]) == op_json(crate::value::dv_op(s@[j])),
        decreases s.len() - i,
    {
        assert(decreases_to!(s => s@[i as int]));
        let c = op_to_json(&s[i]);
        out.push(c);
        i += 1;
    }
    proof {
        crate::value_ops::lemma_dv_ops(s@);
        lemma_to_json_ops(dv_ops(s@));
        lemma_jv_items(out@);
        assert(jv_items(out@) =~= to_json_ops(dv_ops(s@)));
    }
    out
}

/// Converts a value to JSON, writing values that JSON has no native form
/// for as tagged objects.
#[verifier::spinoff_prover]
pub fn sx_to_json(value: &SxValue) -> (r: JsonOut)
    ensures
        jv(r) == to_json(dv(*value)),
    decreases value, 5nat,
{
    match value {
        SxValue::Null => Json::Null,
        SxValue::Bool(b) => Json::Bool(*b),
        SxValue::U8(x) => Json::Number(JsonNum::Unsigned(*x as u64)),
        SxValue::U16(x) => Json::Number(JsonNum::Unsigned(*x as u64)),
        SxValue::U32(x) => Json::Number(JsonNum::Unsigned(*x as u64)),
        SxValue::U64(x) => Json::Number(JsonNum::Unsigned(*x)),
        SxValue::I8(x) => Json::Number(JsonNum::Signed(*x as i64)),
        SxValue::I16(x) => Json::Number(JsonNum::Signed(*x as i64)),
        SxValue::I32(x) => Json::Number(JsonNum::Signed(*x as i64)),
        SxValue::I64(x) => Json::Number(JsonNum::Signed(*x)),
        SxValue::F32(b) => f32_number(*b),
        SxValue::F64(b) => f64_number(*b),
        SxValue::String(s) => Json::String(s.clone()),
        SxValue::Enum(s) => Json::String(s.clone()),
        SxValue::Url(s) => Json::String(s.clone()),
        SxValue::Email(s) => Json::String(s.clone()),
        SxValue::Bytes(b) => tagged_out("bytes", Json::String(base64_encode(b.as_slice()))),
        SxValue::Array(items) => Json::Array(items_to_json(items)),
        SxValue::Object(fields) => Json::Object(fields_to_json(fields)),
        SxValue::MapEntries(pairs) => tagged_out("map", Json::Array(pairs_to_json(pairs))),
        SxValue::Uuid(b) => tagged_out("uuid", Json::String(uuid_to_text(b))),
        SxValue::Timestamp(s) => tagged_out("timestamp", Json::String(s.clone())),
        SxValue::Date(s) => tagged_out("date", Json::String(s.clone())),
        SxValue::Duration(s) => tagged_out("duration", Json::String(s.clone())),
        SxValue::TypedArray(t) => typed_to_json(t),
        SxValue::Table(t) => tagged_out("table", Json::Object(columns_to_json(&t.columns))),
        SxValue::Reference(r) => tagged_out("ref", Json::String(r.target.clone())),
        SxValue::Decimal(_) | SxValue::Money(_) | SxValue::BlobRef(_) => record_to_json(value),
        SxValue::Tensor(_) => tensor_to_json(value),
        SxValue::Delta(_) => delta_to_json(value),
        SxValue::Message(_) => message_to_json(value),
    }
}

/// Decimals, money and blob references as JSON.
fn record_to_json(value: &SxValue) -> (r: JsonOut)
    requires
        value is Decimal || value is Money || value is BlobRef,
    ensures
        jv(r) == to_json(dv(*value)),
{
    let mut o: Vec<(String, JsonOut)> = Vec::new();
    match value {
        SxValue::Decimal(d) => {
            push_entry(&mut o, "scale", Json::Number(JsonNum::Unsigned(d.scale as u64)));
            push_entry(&mut o, "scaled", Json::String(i128_to_decimal(d.scaled)));
            assert(jv_entries(o@) =~= seq![("scale"@, unsigned(d.scale as u64)), ("scaled"@, J::<JsonNum>::Str(int_text(d.scaled as int)))]);
            tagged_out("decimal", Json::Object(o))
        },
        SxValue::Money(m) => {
            push_entry(&mut o, "currency", Json::String(m.currency.clone()));
            push_entry(&mut o, "scale", Json::Number(JsonNum::Unsigned(m.scale as u64)));
            push_entry(&mut o, "scaled", Json::Number(JsonNum::Signed(m.scaled)));
            assert(jv_entries(o@) =~= seq![("currency"@, J::<JsonNum>::Str(m.currency@)), ("scale"@, unsigned(m.scale as u64)), ("scaled"@, signed(m.scaled))]);
            tagged_out("money", Json::Object(o))
        },
        SxValue::BlobRef(b) => {
            push_opt_hex(&mut o, "hash", &b.hash);
            push_opt_str(&mut o, "media_type", &b.media_type);
            push_opt_u64(&mut o, "size", b.size);
            push_entry(&mut o, "uri", Json::String(b.uri.clone()));
            assert(jv_entries(o@) =~= opt_hex_entry("hash"@, crate::value::opt_bytes(b.hash)) + opt_str_entry("media_type"@, crate::value::opt_str(b.media_type)) + opt_u64_entry("size"@, b.size) + seq![("uri"@, J::<JsonNum>::Str(b.uri@))]);
            tagged_out("blob_ref", Json::Object(o))
        },
        _ => Json::Null,
    }
}

fn tensor_to_json(value: &SxValue) -> (r: JsonOut)
    requires
        value is Tensor,
    ensures
        jv(r) == to_json(dv(*value)),
{
    let t = match value {
        SxValue::Tensor(t) => t,
        _ => {
            return Json::Null;
        },
    };
    let mut o: Vec<(String, JsonOut)> = Vec::new();
    push_entry(&mut o, "data", typed_to_json(&t.data));
    push_opt_str(&mut o, "layout", &t.layout);
    let mut shape: Vec<JsonOut> = Vec::new();
    let mut i: usize = 0;
    while i < t.shape.len()
        invariant
            i <= t.shape@.len(),
            shape@.len() == i,
            forall|j: int| 0 <= j < i ==> jv(#[trigger] shape@[j]) == unsigned(t.shape@[j] as u64),
        decreases t.shape.len() - i,
    {
        shape.push(Json::Number(JsonNum::Unsigned(t.shape[i] as u64)));
        i += 1;
    }
    proof {
        lemma_jv_items(shape@);
        assert(jv_items(shape@) =~= shape_items(t.shape@));
    }
    push_entry(&mut o, "shape", Json::Array(shape));
    assert(jv_entries(o@) =~= seq![("data"@, typed_json(t.data.dv()))] + opt_str_entry("layout"@, crate::value::opt_str(t.layout)) + seq![("shape"@, J::Arr(shape_items(t.shape@)))]);
    tagged_out("tensor", Json::Object(o))
}

fn delta_to_json(value: &SxValue) -> (r: JsonOut)
    requires
        value is Delta,
    ensures
        jv(r) == to_json(dv(*value)),
    decreases value, 4nat,
{
    let d = match value {
        SxValue::Delta(d) => d,
        _ => {
            return Json::Null;
        },
    };
    let mut o: Vec<(String, JsonOut)> = Vec::new();
    push_opt_str(&mut o, "from_hash", &d.from_hash);
    push_entry(&mut o, "ops", Json::Array(ops_to_json(&d.ops)));
    assert(jv_entries(o@) =~= opt_str_entry("from_hash"@, crate::value::opt_str(d.from_hash)) + seq![("ops"@, J::Arr(to_json_ops(dv_ops(d.ops@))))]);
    tagged_out("delta", Json::Object(o))
}

#[verifier::spinoff_prover]
fn message_to_json(value: &SxValue) -> (r: JsonOut)
    requires
        value is Message,
    ensures
        jv(r) == to_json(dv(*value)),
    decreases value, 4nat,
{
    let m = match value {
        SxValue::Message(m) => m,
        _ => {
            return Json::Null;
        },
    };
    let mut o: Vec<(String, JsonOut)> = Vec::new();
    push_entry(&mut o, "fields", Json::Object(fields_to_json(&m.fields)));
    push_opt_hex(&mut o, "logical_hash", &m.logical_hash);
    push_opt_str(&mut o, "message_id", &m.message_id);
    let ghost e1 = jv_entries(o@);
    let ghost pj: Seq<(Seq<char>, J<JsonNum>)> = match dv(*value) {
        V::Message(vm) => match vm.payload {
            Some(p) => seq![("payload"@, to_json(*p))],
            None => Seq::empty(),
        },
        _ => Seq::empty(),
    };
    match &m.payload {
        Some(p) => {
            let j = sx_to_json(p);
            push_entry(&mut o, "payload", j);
        },
        None => {
            assert(e1 + pj =~= e1);
        },
    }
    let ghost e2 = jv_entries(o@);
    assert(e2 =~= e1 + pj);
    push_opt_str(&mut o, "schema", &m.schema);
    push_entry(&mut o, "sx_version", Json::Number(JsonNum::Unsigned(m.sx_version as u64)));
    push_opt_str(&mut o, "timestamp", &m.timestamp);
    push_opt_str(&mut o, "type", &m.message_type);
    assert(jv_entries(o@) =~= seq![("fields"@, J::Obj(to_json_fields(dv_fields(m.fields@))))] + opt_hex_entry(
        "logical_hash"@,
        crate::value::opt_bytes(m.logical_hash),
    ) + opt_str_entry("message_id"@, crate::value::opt_str(m.message_id)) + pj + opt_str_entry(
        "schema"@,
        crate::value::opt_str(m.schema),
    ) + seq![("sx_version"@, unsigned(m.sx_version as u64))] + opt_str_entry(
        "timestamp"@,
        crate::value::opt_str(m.timestamp),
    ) + opt_str_entry("type"@, crate::value::opt_str(m.message_type)));
    tagged_out("message", Json::Object(o))
}

} // verus!
