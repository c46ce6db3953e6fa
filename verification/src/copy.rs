//! Deep copies of values that keep their views.
use crate::fields::{lemma_dv_fields, lemma_dv_vals};
use crate::value::{
    dv, dv_column, dv_columns, dv_fields, dv_op, dv_ops, dv_pairs, dv_vals, BlobRef, DeltaDocument, DeltaOp,
    MessageEnvelope, MoneyValue, ReferenceValue, SxColumn, SxTable, SxTensor, SxValue,
};
use crate::value_ops::{lemma_dv_columns, lemma_dv_ops, lemma_dv_pairs};
use vstd::prelude::*;

verus! {

pub fn copy_opt_string(o: &Option<String>) -> (r: Option<String>)
    ensures
        crate::value::opt_str(r) == crate::value::opt_str(*o),
{
    match o {
        Some(s) => Some(s.clone()),
        None => None,
    }
}

pub fn copy_opt_bytes(o: &Option<Vec<u8>>) -> (r: Option<Vec<u8>>)
    ensures
        crate::value::opt_bytes(r) == crate::value::opt_bytes(*o),
{
    match o {
        Some(b) => {
            let c = b.clone();
            assert(c@ =~= b@);
            Some(c)
        },
        None => None,
    }
}

/// Copies a sequence of values.
pub fn copy_vals(s: &Vec<SxValue>) -> (r: Vec<SxValue>)
    ensures
        dv_vals(r@) == dv_vals(s@),
    decreases s, 1nat,
{
    let mut out: Vec<SxValue> = Vec::new();
    let mut i: usize = 0;
    while i < s.len()
        invariant
            i <= s.len(),
            out@.len() == i,
            forall|j: int| 0 <= j < i ==> dv(#[trigger] out@[j]) == dv(s@[j]),
        decreases s.len() - i,
    {
        assert(decreases_to!(s => s@[i as int]));
        let c = copy_value(&s[i]);
        out.push(c);
        i += 1;
    }
    proof {
        lemma_dv_vals(out@);
        lemma_dv_vals(s@);
        assert(dv_vals(out@) =~= dv_vals(s@));
    }
    out
}

/// Copies keyed entries.
pub fn copy_fields(s: &Vec<(String, SxValue)>) -> (r: Vec<(String, SxValue)>)
    ensures
        dv_fields(r@) == dv_fields(s@),
    decreases s, 1nat,
{
    let mut out: Vec<(String, SxValue)> = Vec::new();
    let mut i: usize = 0;
    while i < s.len()
        invariant
            i <= s.len(),
            out@.len() == i,
            forall|j: int| 0 <= j < i ==> (#[trigger] out@[j]).0@ == s@[j].0@ && dv(out@[j].1) == dv(s@[j].1),
        decreases s.len() - i,
    {
        assert(decreases_to!(s => s@[i as int].1));
        let c = copy_value(&s[i].1);
        out.push((s[i].0.clone(), c));
        i += 1;
    }
    proof {
        lemma_dv_fields(out@);
        lemma_dv_fields(s@);
        assert(dv_fields(out@) =~= dv_fields(s@));
    }
    out
}

/// Copies map entries.
pub fn copy_pairs(s: &Vec<(SxValue, SxValue)>) -> (r: Vec<(SxValue, SxValue)>)
    ensures
        dv_pairs(r@) == dv_pairs(s@),
    decreases s, 1nat,
{
    let mut out: Vec<(SxValue, SxValue)> = Vec::new();
    let mut i: usize = 0;
    while i < s.len()
        invariant
            i <= s.len(),
            out@.len() == i,
            forall|j: int| 0 <= j < i ==> dv((#[trigger] out@[j]).0) == dv(s@[j].0) && dv(out@[j].1) == dv(s@[j].1),
        decreases s.len() - i,
    {
        assert(decreases_to!(s => s@[i as int].0));
        assert(decreases_to!(s => s@[i as int].1));
        let a = copy_value(&s[i].0);
        let b = copy_value(&s[i].1);
        out.push((a, b));
        i += 1;
    }
    proof {
        lemma_dv_pairs(out@);
        lemma_dv_pairs(s@);
        assert(dv_pairs(out@) =~= dv_pairs(s@));
    }
    out
}

/// Copies a column.
pub fn copy_column(c: &SxColumn) -> (r: SxColumn)
    ensures
        dv_column(r) == dv_column(*c),
    decreases c, 2nat,
{
    match c {
        SxColumn::Typed(t) => SxColumn::Typed(t.copy_typed()),
        SxColumn::Values(v) => SxColumn::Values(copy_vals(v)),
    }
}

/// Copies named columns.
pub fn copy_columns(s: &Vec<(String, SxColumn)>) -> (r: Vec<(String, SxColumn)>)
    ensures
        dv_columns(r@) == dv_columns(s@),
    decreases s, 3nat,
{
    let mut out: Vec<(String, SxColumn)> = Vec::new();
    let mut i: usize = 0;
    while i < s.len()
        invariant
            i <= s.len(),
            out@.len() == i,
            forall|j: int| 0 <= j < i ==> (#[trigger] out@[j]).0@ == s@[j].0@ && dv_column(out@[j].1) == dv_column(s@[j].1),
        decreases s.len() - i,
    {
        assert(decreases_to!(s => s@[i as int].1));
        let c = copy_column(&s[i].1);
        out.push((s[i].0.clone(), c));
        i += 1;
    }
    proof {
        lemma_dv_columns(out@);
        lemma_dv_columns(s@);
        assert(dv_columns(out@) =~= dv_columns(s@));
    }
    out
}

/// Copies a delta operation.
pub fn copy_op(o: &DeltaOp) -> (r: DeltaOp)
    ensures
        dv_op(r) == dv_op(*o),
    decreases o, 2nat,
{
    let value = match &o.value {
        Some(v) => Some(copy_value(v)),
        None => None,
    };
    let from = match &o.from {
        Some(p) => Some(p.copy_path()),
        None => None,
    };
    DeltaOp { kind: o.kind, path: o.path.copy_path(), value, from, index: o.index }
}

/// Copies delta operations.
pub fn copy_ops(s: &Vec<DeltaOp>) -> (r: Vec<DeltaOp>)
    ensures
        dv_ops(r@) == dv_ops(s@),
    decreases s, 3nat,
{
    let mut out: Vec<DeltaOp> = Vec::new();
    let mut i: usize = 0;
    while i < s.len()
        invariant
            i <= s.len(),
            out@.len() == i,
            forall|j: int| 0 <= j < i ==> dv_op(#[trigger] out@[j]) == dv_op(s@[j]),
        decreases s.len() - i,
    {
        assert(decreases_to!(s => s@[i as int]));
        let c = copy_op(&s[i]);
        out.push(c);
        i += 1;
    }
    proof {
        lemma_dv_ops(out@);
        lemma_dv_ops(s@);
        assert(dv_ops(out@) =~= dv_ops(s@));
    }
    out
}

/// Deep copy of a value.
pub fn copy_value(v: &SxValue) -> (r: SxValue)
    ensures
        dv(r) == dv(*v),
    decreases v, 0nat,
{
    match v {
        SxValue::Null => SxValue::Null,
        SxValue::Bool(b) => SxValue::Bool(*b),
        SxValue::U8(x) => SxValue::U8(*x),
        SxValue::U16(x) => SxValue::U16(*x),
        SxValue::U32(x) => SxValue::U32(*x),
        SxValue::U64(x) => SxValue::U64(*x),
        SxValue::I8(x) => SxValue::I8(*x),
        SxValue::I16(x) => SxValue::I16(*x),
        SxValue::I32(x) => SxValue::I32(*x),
        SxValue::I64(x) => SxValue::I64(*x),
        SxValue::F32(x) => SxValue::F32(*x),
        SxValue::F64(x) => SxValue::F64(*x),
        SxValue::Decimal(d) => SxValue::Decimal(*d),
        SxValue::Money(m) => SxValue::Money(MoneyValue { currency: m.currency.clone(), scaled: m.scaled, scale: m.scale }),
        SxValue::String(s) => SxValue::String(s.clone()),
        SxValue::Bytes(b) => {
            let c = b.clone();
            assert(c@ =~= b@);
            SxValue::Bytes(c)
        },
        SxValue::Array(items) => SxValue::Array(copy_vals(items)),
        SxValue::Object(fields) => SxValue::Object(copy_fields(fields)),
        SxValue::MapEntries(entries) => SxValue::MapEntries(copy_pairs(entries)),
        SxValue::Enum(s) => SxValue::Enum(s.clone()),
        SxValue::Uuid(u) => SxValue::Uuid(*u),
        SxValue::Timestamp(s) => SxValue::Timestamp(s.clone()),
        SxValue::Date(s) => SxValue::Date(s.clone()),
        SxValue::Duration(s) => SxValue::Duration(s.clone()),
        SxValue::Url(s) => SxValue::Url(s.clone()),
        SxValue::Email(s) => SxValue::Email(s.clone()),
        SxValue::TypedArray(t) => SxValue::TypedArray(t.copy_typed()),
        SxValue::Table(t) => SxValue::Table(SxTable { columns: copy_columns(&t.columns) }),
        SxValue::Tensor(t) => {
            let shape = t.shape.clone();
            assert(shape@ =~= t.shape@);
            SxValue::Tensor(SxTensor { shape, data: t.data.copy_typed(), layout: copy_opt_string(&t.layout) })
        },
        SxValue::Reference(r) => SxValue::Reference(ReferenceValue { target: r.target.clone() }),
        SxValue::BlobRef(b) => SxValue::BlobRef(
            BlobRef {
                uri: b.uri.clone(),
                media_type: copy_opt_string(&b.media_type),
                size: b.size,
                hash: copy_opt_bytes(&b.hash),
            },
        ),
        SxValue::Delta(d) => SxValue::Delta(
            DeltaDocument { from_hash: copy_opt_string(&d.from_hash), ops: copy_ops(&d.ops) },
        ),
        SxValue::Message(m) => {
            let payload = match &m.payload {
                Some(p) => Some(Box::new(copy_value(p))),
                None => None,
            };
            SxValue::Message(
                MessageEnvelope {
                    sx_version: m.sx_version,
                    message_id: copy_opt_string(&m.message_id),
                    message_type: copy_opt_string(&m.message_type),
                    schema: copy_opt_string(&m.schema),
                    timestamp: copy_opt_string(&m.timestamp),
                    logical_hash: copy_opt_bytes(&m.logical_hash),
                    fields: copy_fields(&m.fields),
                    payload,
                },
            )
        },
    }
}

} // verus!
