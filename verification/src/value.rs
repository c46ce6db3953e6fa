//! The logical SX value model.
//!
//! Floating-point payloads are held as their IEEE-754 bit patterns (`u32` for
//! `f32`, `u64` for `f64`): the library moves them through codecs exactly and
//! never computes with them.
use crate::path::{Seg, SxPath};
use vstd::prelude::*;

verus! {

/// Supported typed-array element kinds.
#[derive(Debug, Clone, Copy, PartialEq, Eq, Structural)]
pub enum SxTypedArrayType {
    U8,
    I32,
    F32,
    F64,
    Bool,
}

/// Typed array value; `F32`/`F64` elements are IEEE-754 bit patterns.
#[derive(Debug, Clone, PartialEq)]
pub enum SxTypedArray {
    U8(Vec<u8>),
    I32(Vec<i32>),
    F32(Vec<u32>),
    F64(Vec<u64>),
    Bool(Vec<bool>),
}

/// Deterministic decimal value representation.
#[derive(Debug, Clone, Copy, PartialEq, Eq, Structural)]
pub struct DecimalValue {
    pub scaled: i128,
    pub scale: u32,
}

/// Money as deterministic scaled integer plus currency code.
#[derive(Debug, Clone, PartialEq)]
pub struct MoneyValue {
    pub currency: String,
    pub scaled: i64,
    pub scale: u32,
}

/// Internal reference value.
#[derive(Debug, Clone, PartialEq)]
pub struct ReferenceValue {
    pub target: String,
}

/// External blob reference.
#[derive(Debug, Clone, PartialEq)]
pub struct BlobRef {
    pub uri: String,
    pub media_type: Option<String>,
    pub size: Option<u64>,
    pub hash: Option<Vec<u8>>,
}

/// A table column: a typed array or generic values.
#[derive(Debug, PartialEq)]
pub enum SxColumn {
    Typed(SxTypedArray),
    Values(Vec<SxValue>),
}

/// Logical table: named columns in ascending key order.
#[derive(Debug, Default, PartialEq)]
pub struct SxTable {
    pub columns: Vec<(String, SxColumn)>,
}

/// Logical tensor metadata and data payload.
#[derive(Debug, Clone, PartialEq)]
pub struct SxTensor {
    pub shape: Vec<usize>,
    pub data: SxTypedArray,
    pub layout: Option<String>,
}

/// Delta operation kind.
#[derive(Debug, Clone, Copy, PartialEq, Eq, Structural)]
pub enum DeltaOpKind {
    SetAt,
    Replace,
    Remove,
    Append,
    Prepend,
    Insert,
    Increment,
    Decrement,
    Merge,
    Move,
    Copy,
    Clear,
}

/// One delta operation.
#[derive(Debug, PartialEq)]
pub struct DeltaOp {
    pub kind: DeltaOpKind,
    pub path: SxPath,
    pub value: Option<SxValue>,
    pub from: Option<SxPath>,
    pub index: Option<usize>,
}

/// Delta document.
#[derive(Debug, Default, PartialEq)]
pub struct DeltaDocument {
    pub from_hash: Option<String>,
    pub ops: Vec<DeltaOp>,
}

/// Message envelope carrying metadata and payload; `fields` are in ascending
/// key order.
#[derive(Debug, Default, PartialEq)]
pub struct MessageEnvelope {
    pub sx_version: u32,
    pub message_id: Option<String>,
    pub message_type: Option<String>,
    pub schema: Option<String>,
    pub timestamp: Option<String>,
    pub logical_hash: Option<Vec<u8>>,
    pub fields: Vec<(String, SxValue)>,
    pub payload: Option<Box<SxValue>>,
}

/// Logical type of a value.
#[derive(Debug, Clone, Copy, PartialEq, Eq, Structural)]
pub enum SxType {
    Null,
    Bool,
    U8,
    U16,
    U32,
    U64,
    I8,
    I16,
    I32,
    I64,
    F32,
    F64,
    Decimal,
    String,
    Bytes,
    Array,
    Object,
    MapEntries,
    Enum,
    Uuid,
    Timestamp,
    Date,
    Duration,
    TypedArray,
    Table,
    Tensor,
    Reference,
    BlobRef,
    Delta,
    Message,
}

/// Canonical logical SX value.  `Object` entries are in ascending key order
/// with no key twice; `F32`/`F64` hold IEEE-754 bit patterns.
#[derive(Debug, PartialEq)]
pub enum SxValue {
    Null,
    Bool(bool),
    U8(u8),
    U16(u16),
    U32(u32),
    U64(u64),
    I8(i8),
    I16(i16),
    I32(i32),
    I64(i64),
    F32(u32),
    F64(u64),
    Decimal(DecimalValue),
    Money(MoneyValue),
    String(String),
    Bytes(Vec<u8>),
    Array(Vec<SxValue>),
    Object(Vec<(String, SxValue)>),
    MapEntries(Vec<(SxValue, SxValue)>),
    Enum(String),
    Uuid([u8; 16]),
    Timestamp(String),
    Date(String),
    Duration(String),
    Url(String),
    Email(String),
    TypedArray(SxTypedArray),
    Table(SxTable),
    Tensor(SxTensor),
    Reference(ReferenceValue),
    BlobRef(BlobRef),
    Delta(DeltaDocument),
    Message(MessageEnvelope),
}

// ---------------------------------------------------------------------------
// Mathematical views
// ---------------------------------------------------------------------------

/// View of a typed array.
pub enum VTyped {
    U8(Seq<u8>),
    I32(Seq<i32>),
    F32(Seq<u32>),
    F64(Seq<u64>),
    Bool(Seq<bool>),
}

/// View of a table column.
pub enum VColumn {
    Typed(VTyped),
    Values(Seq<V>),
}

/// View of a delta operation.
pub struct VOp {
    pub kind: DeltaOpKind,
    pub path: Seq<Seg>,
    pub value: Option<V>,
    pub from: Option<Seq<Seg>>,
    pub index: Option<usize>,
}

/// View of a value.
pub enum V {
    Null,
    Bool(bool),
    U8(u8),
    U16(u16),
    U32(u32),
    U64(u64),
    I8(i8),
    I16(i16),
    I32(i32),
    I64(i64),
    F32(u32),
    F64(u64),
    Decimal(i128, u32),
    Money(Seq<char>, i64, u32),
    String(Seq<char>),
    Bytes(Seq<u8>),
    Array(Seq<V>),
    Object(Seq<(Seq<char>, V)>),
    MapEntries(Seq<(V, V)>),
    Enum(Seq<char>),
    Uuid(Seq<u8>),
    Timestamp(Seq<char>),
    Date(Seq<char>),
    Duration(Seq<char>),
    Url(Seq<char>),
    Email(Seq<char>),
    TypedArray(VTyped),
    Table(Seq<(Seq<char>, VColumn)>),
    Tensor(Seq<usize>, VTyped, Option<Seq<char>>),
    Reference(Seq<char>),
    BlobRef(Seq<char>, Option<Seq<char>>, Option<u64>, Option<Seq<u8>>),
    Delta(Option<Seq<char>>, Seq<VOp>),
    Message(VMessage),
}

/// View of a message envelope.
pub struct VMessage {
    pub sx_version: u32,
    pub message_id: Option<Seq<char>>,
    pub message_type: Option<Seq<char>>,
    pub schema: Option<Seq<char>>,
    pub timestamp: Option<Seq<char>>,
    pub logical_hash: Option<Seq<u8>>,
    pub fields: Seq<(Seq<char>, V)>,
    pub payload: Option<Box<V>>,
}

pub open spec fn opt_str(o: Option<String>) -> Option<Seq<char>> {
    match o {
        Some(s) => Some(s@),
        None => None,
    }
}

pub open spec fn opt_bytes(o: Option<Vec<u8>>) -> Option<Seq<u8>> {
    match o {
        Some(b) => Some(b@),
        None => None,
    }
}

pub open spec fn opt_path(o: Option<SxPath>) -> Option<Seq<Seg>> {
    match o {
        Some(p) => Some(p@),
        None => None,
    }
}

impl SxTypedArray {
    pub open spec fn dv(&self) -> VTyped {
        match self {
            SxTypedArray::U8(v) => VTyped::U8(v@),
            SxTypedArray::I32(v) => VTyped::I32(v@),
            SxTypedArray::F32(v) => VTyped::F32(v@),
            SxTypedArray::F64(v) => VTyped::F64(v@),
            SxTypedArray::Bool(v) => VTyped::Bool(v@),
        }
    }
}

/// View of a sequence of values.
pub open spec fn dv_vals(s: Seq<SxValue>) -> Seq<V>
    decreases s,
{
    if s.len() == 0 {
        Seq::empty()
    } else {
        dv_vals(s.drop_last()).push(dv(s.last()))
    }
}

/// View of a sequence of keyed entries.
pub open spec fn dv_fields(s: Seq<(String, SxValue)>) -> Seq<(Seq<char>, V)>
    decreases s,
{
    if s.len() == 0 {
        Seq::empty()
    } else {
        dv_fields(s.drop_last()).push((s.last().0@, dv(s.last().1)))
    }
}

/// View of a sequence of map entries.
pub open spec fn dv_pairs(s: Seq<(SxValue, SxValue)>) -> Seq<(V, V)>
    decreases s,
{
    if s.len() == 0 {
        Seq::empty()
    } else {
        dv_pairs(s.drop_last()).push((dv(s.last().0), dv(s.last().1)))
    }
}

/// View of a column.
pub open spec fn dv_column(c: SxColumn) -> VColumn
    decreases c,
{
    match c {
        SxColumn::Typed(t) => VColumn::Typed(t.dv()),
        SxColumn::Values(v) => VColumn::Values(dv_vals(v@)),
    }
}

/// View of a sequence of named columns.
pub open spec fn dv_columns(s: Seq<(String, SxColumn)>) -> Seq<(Seq<char>, VColumn)>
    decreases s,
{
    if s.len() == 0 {
        Seq::empty()
    } else {
        dv_columns(s.drop_last()).push((s.last().0@, dv_column(s.last().1)))
    }
}

/// View of a delta operation.
pub open spec fn dv_op(o: DeltaOp) -> VOp
    decreases o,
{
    VOp {
        kind: o.kind,
        path: o.path@,
        value: match o.value {
            Some(v) => Some(dv(v)),
            None => None,
        },
        from: opt_path(o.from),
        index: o.index,
    }
}

/// View of a sequence of delta operations.
pub open spec fn dv_ops(s: Seq<DeltaOp>) -> Seq<VOp>
    decreases s,
{
    if s.len() == 0 {
        Seq::empty()
    } else {
        dv_ops(s.drop_last()).push(dv_op(s.last()))
    }
}

/// View of a value.
pub open spec fn dv(v: SxValue) -> V
    decreases v,
{
    match v {
        SxValue::Null => V::Null,
        SxValue::Bool(b) => V::Bool(b),
        SxValue::U8(x) => V::U8(x),
        SxValue::U16(x) => V::U16(x),
        SxValue::U32(x) => V::U32(x),
        SxValue::U64(x) => V::U64(x),
        SxValue::I8(x) => V::I8(x),
        SxValue::I16(x) => V::I16(x),
        SxValue::I32(x) => V::I32(x),
        SxValue::I64(x) => V::I64(x),
        SxValue::F32(x) => V::F32(x),
        SxValue::F64(x) => V::F64(x),
        SxValue::Decimal(d) => V::Decimal(d.scaled, d.scale),
        SxValue::Money(m) => V::Money(m.currency@, m.scaled, m.scale),
        SxValue::String(s) => V::String(s@),
        SxValue::Bytes(b) => V::Bytes(b@),
        SxValue::Array(items) => V::Array(dv_vals(items@)),
        SxValue::Object(fields) => V::Object(dv_fields(fields@)),
        SxValue::MapEntries(entries) => V::MapEntries(dv_pairs(entries@)),
        SxValue::Enum(s) => V::Enum(s@),
        SxValue::Uuid(u) => V::Uuid(u@),
        SxValue::Timestamp(s) => V::Timestamp(s@),
        SxValue::Date(s) => V::Date(s@),
        SxValue::Duration(s) => V::Duration(s@),
        SxValue::Url(s) => V::Url(s@),
        SxValue::Email(s) => V::Email(s@),
        SxValue::TypedArray(t) => V::TypedArray(t.dv()),
        SxValue::Table(t) => V::Table(dv_columns(t.columns@)),
        SxValue::Tensor(t) => V::Tensor(t.shape@, t.data.dv(), opt_str(t.layout)),
        SxValue::Reference(r) => V::Reference(r.target@),
        SxValue::BlobRef(b) => V::BlobRef(b.uri@, opt_str(b.media_type), b.size, opt_bytes(b.hash)),
        SxValue::Delta(d) => V::Delta(opt_str(d.from_hash), dv_ops(d.ops@)),
        SxValue::Message(m) => V::Message(
            VMessage {
                sx_version: m.sx_version,
                message_id: opt_str(m.message_id),
                message_type: opt_str(m.message_type),
                schema: opt_str(m.schema),
                timestamp: opt_str(m.timestamp),
                logical_hash: opt_bytes(m.logical_hash),
                fields: dv_fields(m.fields@),
                payload: match m.payload {
                    Some(p) => Some(Box::new(dv(*p))),
                    None => None,
                },
            },
        ),
    }
}

} // verus!
