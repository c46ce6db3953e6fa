//! The structural debug text of values: each variant by name with its
//! fields, strings quoted with Rust's escapes, objects and tables as
//! key-ordered maps.  Float texts come from a [`FloatText`] table that the
//! caller supplies.
use crate::chars::{decimal_text, u64_to_decimal};
use crate::formatter::{
    append_str, bool_exec, bool_text, cat_three, cat_two, float_text, float_text_exec, float_texts_view, join,
    join_exec, push_part, shape_exec, shape_text, strs, typed_parts, typed_parts_exec, FloatText,
};
use crate::fields::{lemma_dv_fields, lemma_dv_vals};
use crate::json::{i128_to_decimal, int_text};
use crate::parser::{debug_quote, str_debug};
use crate::path::{Seg, SxPath, SxPathSegment};
use crate::value::{
    dv, dv_column, dv_columns, dv_fields, dv_ops, dv_pairs, dv_vals, DeltaOp, DeltaOpKind, SxColumn, SxTypedArray,
    SxValue, VColumn, VOp, VTyped, V,
};
use crate::value_ops::{lemma_dv_columns, lemma_dv_ops, lemma_dv_pairs};
use vstd::prelude::*;

verus! {

/// `[a, b, ...]`.
pub open spec fn list_text(parts: Seq<Seq<char>>) -> Seq<char> {
    "["@ + join(parts, ", "@) + "]"@
}

pub open spec fn typed_name_dbg(t: VTyped) -> Seq<char> {
    match t {
        VTyped::U8(_) => "U8"@,
        VTyped::I32(_) => "I32"@,
        VTyped::F32(_) => "F32"@,
        VTyped::F64(_) => "F64"@,
        VTyped::Bool(_) => "Bool"@,
    }
}

/// A typed array: `U8([1, 2])` and so on.
pub open spec fn dbg_typed(t: VTyped, ft: Seq<(bool, u64, Seq<char>)>) -> Seq<char> {
    typed_name_dbg(t) + "("@ + list_text(typed_parts(t, ft)) + ")"@
}

pub open spec fn dbg_seg(s: Seg) -> Seq<char> {
    match s {
        Seg::Key(k) => "Key("@ + str_debug(k) + ")"@,
        Seg::Index(i) => "Index("@ + decimal_text(i as nat) + ")"@,
    }
}

pub open spec fn dbg_segs(p: Seq<Seg>) -> Seq<Seq<char>>
    decreases p.len(),
{
    if p.len() == 0 {
        Seq::empty()
    } else {
        dbg_segs(p.drop_last()).push(dbg_seg(p.last()))
    }
}

pub open spec fn dbg_path(p: Seq<Seg>) -> Seq<char> {
    "SxPath { segments: "@ + list_text(dbg_segs(p)) + " }"@
}

pub open spec fn dbg_opt_str(o: Option<Seq<char>>) -> Seq<char> {
    match o {
        Some(s) => "Some("@ + str_debug(s) + ")"@,
        None => "None"@,
    }
}

pub open spec fn byte_texts(b: Seq<u8>) -> Seq<Seq<char>>
    decreases b.len(),
{
    if b.len() == 0 {
        Seq::empty()
    } else {
        byte_texts(b.drop_last()).push(decimal_text(b.last() as nat))
    }
}

pub open spec fn dbg_bytes(b: Seq<u8>) -> Seq<char> {
    list_text(byte_texts(b))
}

pub open spec fn dbg_opt_bytes(o: Option<Seq<u8>>) -> Seq<char> {
    match o {
        Some(b) => "Some("@ + dbg_bytes(b) + ")"@,
        None => "None"@,
    }
}

pub open spec fn dbg_opt_nat(o: Option<nat>) -> Seq<char> {
    match o {
        Some(n) => "Some("@ + decimal_text(n) + ")"@,
        None => "None"@,
    }
}

pub open spec fn kind_dbg(k: DeltaOpKind) -> Seq<char> {
    match k {
        DeltaOpKind::SetAt => "Set"@,
        DeltaOpKind::Replace => "Replace"@,
        DeltaOpKind::Remove => "Remove"@,
        DeltaOpKind::Append => "Append"@,
        DeltaOpKind::Prepend => "Prepend"@,
        DeltaOpKind::Insert => "Insert"@,
        DeltaOpKind::Increment => "Increment"@,
        DeltaOpKind::Decrement => "Decrement"@,
        DeltaOpKind::Merge => "Merge"@,
        DeltaOpKind::Move => "Move"@,
        DeltaOpKind::Copy => "Copy"@,
        DeltaOpKind::Clear => "Clear"@,
    }
}

pub open spec fn dbg_tensor(shape: Seq<usize>, data: VTyped, layout: Option<Seq<char>>, ft: Seq<(bool, u64, Seq<char>)>) -> Seq<char> {
    "SxTensor { shape: "@ + shape_text(shape) + ", data: "@ + dbg_typed(data, ft) + ", layout: "@ + dbg_opt_str(layout)
        + " }"@
}

/// The debug text of a value.
pub open spec fn dbg(v: V, ft: Seq<(bool, u64, Seq<char>)>) -> Seq<char>
    decreases v, 0nat,
{
    match v {
        V::Null => "Null"@,
        V::Bool(b) => "Bool("@ + bool_text(b) + ")"@,
        V::U8(x) => "U8("@ + decimal_text(x as nat) + ")"@,
        V::U16(x) => "U16("@ + decimal_text(x as nat) + ")"@,
        V::U32(x) => "U32("@ + decimal_text(x as nat) + ")"@,
        V::U64(x) => "U64("@ + decimal_text(x as nat) + ")"@,
        V::I8(x) => "I8("@ + int_text(x as int) + ")"@,
        V::I16(x) => "I16("@ + int_text(x as int) + ")"@,
        V::I32(x) => "I32("@ + int_text(x as int) + ")"@,
        V::I64(x) => "I64("@ + int_text(x as int) + ")"@,
        V::F32(b) => "F32("@ + float_text(ft, false, b as u64) + ")"@,
        V::F64(b) => "F64("@ + float_text(ft, true, b) + ")"@,
        V::Decimal(s, sc) => "Decimal(DecimalValue { scaled: "@ + int_text(s as int) + ", scale: "@ + decimal_text(
            sc as nat,
        ) + " })"@,
        V::Money(c, s, sc) => "Money(MoneyValue { currency: "@ + str_debug(c) + ", scaled: "@ + int_text(s as int)
            + ", scale: "@ + decimal_text(sc as nat) + " })"@,
        V::String(s) => "String("@ + str_debug(s) + ")"@,
        V::Bytes(b) => "Bytes("@ + dbg_bytes(b) + ")"@,
        V::Array(items) => "Array("@ + list_text(dbg_items(items, ft)) + ")"@,
        V::Object(fs) => "Object({"@ + join(dbg_fields(fs, ft), ", "@) + "})"@,
        V::MapEntries(ps) => "Map("@ + list_text(dbg_pairs(ps, ft)) + ")"@,
        V::Enum(s) => "Enum("@ + str_debug(s) + ")"@,
        V::Uuid(u) => "Uuid("@ + dbg_bytes(u) + ")"@,
        V::Timestamp(s) => "Timestamp("@ + str_debug(s) + ")"@,
        V::Date(s) => "Date("@ + str_debug(s) + ")"@,
        V::Duration(s) => "Duration("@ + str_debug(s) + ")"@,
        V::Url(s) => "Url("@ + str_debug(s) + ")"@,
        V::Email(s) => "Email("@ + str_debug(s) + ")"@,
        V::TypedArray(t) => "TypedArray("@ + dbg_typed(t, ft) + ")"@,
        V::Table(cols) => "Table("@ + dbg_table(cols, ft) + ")"@,
        V::Tensor(shape, data, layout) => "Tensor("@ + dbg_tensor(shape, data, layout, ft) + ")"@,
        V::Reference(t) => "Reference(ReferenceValue { target: "@ + str_debug(t) + " })"@,
        V::BlobRef(u, m, s, h) => "BlobRef(BlobRef { uri: "@ + str_debug(u) + ", media_type: "@ + dbg_opt_str(m)
            + ", size: "@ + dbg_opt_nat(
            match s {
                Some(n) => Some(n as nat),
                None => None,
            },
        ) + ", hash: "@ + dbg_opt_bytes(h) + " })"@,
        V::Delta(from, ops) => "Delta("@ + dbg_delta(from, ops, ft) + ")"@,
        V::Message(m) => "Message(MessageEnvelope { sx_version: "@ + decimal_text(m.sx_version as nat)
            + ", message_id: "@ + dbg_opt_str(m.message_id) + ", message_type: "@ + dbg_opt_str(m.message_type)
            + ", schema: "@ + dbg_opt_str(m.schema) + ", timestamp: "@ + dbg_opt_str(m.timestamp)
            + ", logical_hash: "@ + dbg_opt_bytes(m.logical_hash) + ", fields: {"@ + join(
            dbg_fields(m.fields, ft),
            ", "@,
        ) + "}, payload: "@ + match m.payload {
            Some(p) => "Some("@ + dbg(*p, ft) + ")"@,
            None => "None"@,
        } + " })"@,
    }
}

/// `SxTable { columns: {..} }`.
pub open spec fn dbg_table(cols: Seq<(Seq<char>, VColumn)>, ft: Seq<(bool, u64, Seq<char>)>) -> Seq<char>
    decreases cols, 1nat,
{
    "SxTable { columns: {"@ + join(dbg_cols(cols, ft), ", "@) + "} }"@
}

/// `DeltaDocument { from_hash: .., ops: [..] }`.
pub open spec fn dbg_delta(from: Option<Seq<char>>, ops: Seq<VOp>, ft: Seq<(bool, u64, Seq<char>)>) -> Seq<char>
    decreases ops, 1nat,
{
    "DeltaDocument { from_hash: "@ + dbg_opt_str(from) + ", ops: "@ + list_text(dbg_ops(ops, ft)) + " }"@
}

pub open spec fn dbg_items(s: Seq<V>, ft: Seq<(bool, u64, Seq<char>)>) -> Seq<Seq<char>>
    decreases s, 0nat,
{
    if s.len() == 0 {
        Seq::empty()
    } else {
        dbg_items(s.drop_last(), ft).push(dbg(s.last(), ft))
    }
}

pub open spec fn dbg_fields(s: Seq<(Seq<char>, V)>, ft: Seq<(bool, u64, Seq<char>)>) -> Seq<Seq<char>>
    decreases s, 0nat,
{
    if s.len() == 0 {
        Seq::empty()
    } else {
        dbg_fields(s.drop_last(), ft).push(str_debug(s.last().0) + ": "@ + dbg(s.last().1, ft))
    }
}

pub open spec fn dbg_pairs(s: Seq<(V, V)>, ft: Seq<(bool, u64, Seq<char>)>) -> Seq<Seq<char>>
    decreases s, 0nat,
{
    if s.len() == 0 {
        Seq::empty()
    } else {
        dbg_pairs(s.drop_last(), ft).push("("@ + dbg(s.last().0, ft) + ", "@ + dbg(s.last().1, ft) + ")"@)
    }
}

pub open spec fn dbg_cols(s: Seq<(Seq<char>, VColumn)>, ft: Seq<(bool, u64, Seq<char>)>) -> Seq<Seq<char>>
    decreases s, 0nat,
{
    if s.len() == 0 {
        Seq::empty()
    } else {
        dbg_cols(s.drop_last(), ft).push(
            str_debug(s.last().0) + ": "@ + match s.last().1 {
                VColumn::Typed(t) => "Typed("@ + dbg_typed(t, ft) + ")"@,
                VColumn::Values(xs) => "Values("@ + list_text(dbg_items(xs, ft)) + ")"@,
            },
        )
    }
}

pub open spec fn dbg_op(o: VOp, ft: Seq<(bool, u64, Seq<char>)>) -> Seq<char>
    decreases o, 0nat,
{
    "DeltaOp { kind: "@ + kind_dbg(o.kind) + ", path: "@ + dbg_path(o.path) + ", value: "@ + match o.value {
        Some(x) => "Some("@ + dbg(x, ft) + ")"@,
        None => "None"@,
    } + ", from: "@ + match o.from {
        Some(q) => "Some("@ + dbg_path(q) + ")"@,
        None => "None"@,
    } + ", index: "@ + dbg_opt_nat(
        match o.index {
            Some(n) => Some(n as nat),
            None => None,
        },
    ) + " }"@
}

pub open spec fn dbg_ops(s: Seq<VOp>, ft: Seq<(bool, u64, Seq<char>)>) -> Seq<Seq<char>>
    decreases s, 0nat,
{
    if s.len() == 0 {
        Seq::empty()
    } else {
        dbg_ops(s.drop_last(), ft).push(dbg_op(s.last(), ft))
    }
}

// ---------------------------------------------------------------------------
// Executable rendering
// ---------------------------------------------------------------------------

fn list_exec(parts: &Vec<String>) -> (r: String)
    ensures
        r@ == list_text(strs(parts@)),
{
    cat_three("[", join_exec(parts, ", ").as_str(), "]")
}

fn wrap(open: &str, inner: &str) -> (r: String)
    ensures
        r@ == open@ + inner@ + ")"@,
{
    cat_three(open, inner, ")")
}

fn dq_exec(s: &str) -> (r: String)
    ensures
        r@ == str_debug(s@),
{
    debug_quote(s)
}

fn typed_name_dbg_exec(t: &SxTypedArray) -> (r: &'static str)
    ensures
        r@ == typed_name_dbg(t.dv()),
{
    match t {
        SxTypedArray::U8(_) => "U8",
        SxTypedArray::I32(_) => "I32",
        SxTypedArray::F32(_) => "F32",
        SxTypedArray::F64(_) => "F64",
        SxTypedArray::Bool(_) => "Bool",
    }
}

pub(crate) fn dbg_typed_exec(t: &SxTypedArray, ft: &Vec<FloatText>) -> (r: String)
    ensures
        r@ == dbg_typed(t.dv(), float_texts_view(ft@)),
{
    let parts = typed_parts_exec(t, ft);
    let mut out = cat_three(typed_name_dbg_exec(t), "(", list_exec(&parts).as_str());
    append_str(&mut out, ")");
    out
}

fn dbg_seg_exec(s: &SxPathSegment) -> (r: String)
    ensures
        r@ == dbg_seg(s.view_seg()),
{
    match s {
        SxPathSegment::Key(k) => wrap("Key(", dq_exec(k.as_str()).as_str()),
        SxPathSegment::Index(i) => wrap("Index(", u64_to_decimal(*i as u64).as_str()),
    }
}

pub(crate) fn dbg_path_exec(p: &SxPath) -> (r: String)
    ensures
        r@ == dbg_path(p@),
{
    let mut parts: Vec<String> = Vec::new();
    let mut i: usize = 0;
    let ghost ps = p@;
    assert(strs(parts@) =~= dbg_segs(ps.subrange(0, 0)));
    while i < p.segments.len()
        invariant
            i <= p.segments@.len(),
            ps == p@,
            ps.len() == p.segments@.len(),
            forall|k: int| 0 <= k < ps.len() ==> #[trigger] ps[k] == p.segments@[k].view_seg(),
            strs(parts@) == dbg_segs(ps.subrange(0, i as int)),
        decreases p.segments.len() - i,
    {
        assert(ps.subrange(0, i + 1).drop_last() =~= ps.subrange(0, i as int));
        push_part(&mut parts, dbg_seg_exec(&p.segments[i]));
        i += 1;
    }
    assert(ps.subrange(0, i as int) =~= ps);
    cat_three("SxPath { segments: ", list_exec(&parts).as_str(), " }")
}

fn dbg_opt_str_exec(o: &Option<String>) -> (r: String)
    ensures
        r@ == dbg_opt_str(crate::value::opt_str(*o)),
{
    match o {
        Some(s) => wrap("Some(", dq_exec(s.as_str()).as_str()),
        None => "None".to_owned(),
    }
}

pub(crate) fn dbg_bytes_exec(b: &[u8]) -> (r: String)
    ensures
        r@ == dbg_bytes(b@),
{
    let mut parts: Vec<String> = Vec::new();
    let mut i: usize = 0;
    assert(strs(parts@) =~= byte_texts(b@.subrange(0, 0)));
    while i < b.len()
        invariant
            i <= b@.len(),
            strs(parts@) == byte_texts(b@.subrange(0, i as int)),
        decreases b.len() - i,
    {
        assert(b@.subrange(0, i + 1).drop_last() =~= b@.subrange(0, i as int));
        push_part(&mut parts, u64_to_decimal(b[i] as u64));
        i += 1;
    }
    assert(b@.subrange(0, i as int) =~= b@);
    list_exec(&parts)
}

fn dbg_opt_bytes_exec(o: &Option<Vec<u8>>) -> (r: String)
    ensures
        r@ == dbg_opt_bytes(crate::value::opt_bytes(*o)),
{
    match o {
        Some(b) => wrap("Some(", dbg_bytes_exec(b.as_slice()).as_str()),
        None => "None".to_owned(),
    }
}

fn dbg_opt_u64_exec(o: Option<u64>) -> (r: String)
    ensures
        r@ == dbg_opt_nat(
            match o {
                Some(n) => Some(n as nat),
                None => None,
            },
        ),
{
    match o {
        Some(n) => wrap("Some(", u64_to_decimal(n).as_str()),
        None => "None".to_owned(),
    }
}

fn kind_dbg_exec(k: DeltaOpKind) -> (r: &'static str)
    ensures
        r@ == kind_dbg(k),
{
    match k {
        DeltaOpKind::SetAt => "Set",
        DeltaOpKind::Replace => "Replace",
        DeltaOpKind::Remove => "Remove",
        DeltaOpKind::Append => "Append",
        DeltaOpKind::Prepend => "Prepend",
        DeltaOpKind::Insert => "Insert",
        DeltaOpKind::Increment => "Increment",
        DeltaOpKind::Decrement => "Decrement",
        DeltaOpKind::Merge => "Merge",
        DeltaOpKind::Move => "Move",
        DeltaOpKind::Copy => "Copy",
        DeltaOpKind::Clear => "Clear",
    }
}

pub(crate) fn dbg_tensor_exec(t: &crate::value::SxTensor, ft: &Vec<FloatText>) -> (r: String)
    ensures
        r@ == dbg_tensor(t.shape@, t.data.dv(), crate::value::opt_str(t.layout), float_texts_view(ft@)),
{
    let mut out = cat_two("SxTensor { shape: ", shape_exec(&t.shape).as_str());
    append_str(&mut out, ", data: ");
    append_str(&mut out, dbg_typed_exec(&t.data, ft).as_str());
    append_str(&mut out, ", layout: ");
    append_str(&mut out, dbg_opt_str_exec(&t.layout).as_str());
    append_str(&mut out, " }");
    out
}

/// The debug text of a value.
pub fn debug_value(v: &SxValue, ft: &Vec<FloatText>) -> (r: String)
    ensures
        r@ == dbg(dv(*v), float_texts_view(ft@)),
    decreases v, 0nat,
{
    let ghost fv = float_texts_view(ft@);
    match v {
        SxValue::Null => "Null".to_owned(),
        SxValue::Bool(b) => wrap("Bool(", bool_exec(*b).as_str()),
        SxValue::U8(x) => wrap("U8(", u64_to_decimal(*x as u64).as_str()),
        SxValue::U16(x) => wrap("U16(", u64_to_decimal(*x as u64).as_str()),
        SxValue::U32(x) => wrap("U32(", u64_to_decimal(*x as u64).as_str()),
        SxValue::U64(x) => wrap("U64(", u64_to_decimal(*x).as_str()),
        SxValue::I8(x) => wrap("I8(", i128_to_decimal(*x as i128).as_str()),
        SxValue::I16(x) => wrap("I16(", i128_to_decimal(*x as i128).as_str()),
        SxValue::I32(x) => wrap("I32(", i128_to_decimal(*x as i128).as_str()),
        SxValue::I64(x) => wrap("I64(", i128_to_decimal(*x as i128).as_str()),
        SxValue::F32(b) => wrap("F32(", float_text_exec(ft, false, *b as u64).as_str()),
        SxValue::F64(b) => wrap("F64(", float_text_exec(ft, true, *b).as_str()),
        SxValue::Decimal(d) => {
            let mut out = cat_two("Decimal(DecimalValue { scaled: ", i128_to_decimal(d.scaled).as_str());
            append_str(&mut out, ", scale: ");
            append_str(&mut out, u64_to_decimal(d.scale as u64).as_str());
            append_str(&mut out, " })");
            out
        },
        SxValue::Money(m) => {
            let mut out = cat_two("Money(MoneyValue { currency: ", dq_exec(m.currency.as_str()).as_str());
            append_str(&mut out, ", scaled: ");
            append_str(&mut out, i128_to_decimal(m.scaled as i128).as_str());
            append_str(&mut out, ", scale: ");
            append_str(&mut out, u64_to_decimal(m.scale as u64).as_str());
            append_str(&mut out, " })");
            out
        },
        SxValue::String(s) => wrap("String(", dq_exec(s.as_str()).as_str()),
        SxValue::Bytes(b) => wrap("Bytes(", dbg_bytes_exec(b.as_slice()).as_str()),
        SxValue::Array(items) => {
            let parts = dbg_items_exec(items, ft);
            wrap("Array(", list_exec(&parts).as_str())
        },
        SxValue::Object(fs) => {
            let parts = dbg_fields_exec(fs, ft);
            cat_three("Object({", join_exec(&parts, ", ").as_str(), "})")
        },
        SxValue::MapEntries(ps) => {
            let parts = dbg_pairs_exec(ps, ft);
            wrap("Map(", list_exec(&parts).as_str())
        },
        SxValue::Enum(s) => wrap("Enum(", dq_exec(s.as_str()).as_str()),
        SxValue::Uuid(u) => wrap("Uuid(", dbg_bytes_exec(u).as_str()),
        SxValue::Timestamp(s) => wrap("Timestamp(", dq_exec(s.as_str()).as_str()),
        SxValue::Date(s) => wrap("Date(", dq_exec(s.as_str()).as_str()),
        SxValue::Duration(s) => wrap("Duration(", dq_exec(s.as_str()).as_str()),
        SxValue::Url(s) => wrap("Url(", dq_exec(s.as_str()).as_str()),
        SxValue::Email(s) => wrap("Email(", dq_exec(s.as_str()).as_str()),
        SxValue::TypedArray(t) => wrap("TypedArray(", dbg_typed_exec(t, ft).as_str()),
        SxValue::Table(t) => wrap("Table(", dbg_table_exec(&t.columns, ft).as_str()),
        SxValue::Tensor(t) => wrap("Tensor(", dbg_tensor_exec(t, ft).as_str()),
        SxValue::Reference(r) => cat_three("Reference(ReferenceValue { target: ", dq_exec(r.target.as_str()).as_str(), " })"),
        SxValue::BlobRef(b) => {
            let mut out = cat_two("BlobRef(BlobRef { uri: ", dq_exec(b.uri.as_str()).as_str());
            append_str(&mut out, ", media_type: ");
            append_str(&mut out, dbg_opt_str_exec(&b.media_type).as_str());
            append_str(&mut out, ", size: ");
            append_str(&mut out, dbg_opt_u64_exec(b.size).as_str());
            append_str(&mut out, ", hash: ");
            append_str(&mut out, dbg_opt_bytes_exec(&b.hash).as_str());
            append_str(&mut out, " })");
            out
        },
        SxValue::Delta(d) => wrap("Delta(", dbg_delta_exec(&d.from_hash, &d.ops, ft).as_str()),
        SxValue::Message(m) => {
            let mut out = cat_two("Message(MessageEnvelope { sx_version: ", u64_to_decimal(m.sx_version as u64).as_str());
            append_str(&mut out, ", message_id: ");
            append_str(&mut out, dbg_opt_str_exec(&m.message_id).as_str());
            append_str(&mut out, ", message_type: ");
            append_str(&mut out, dbg_opt_str_exec(&m.message_type).as_str());
            append_str(&mut out, ", schema: ");
            append_str(&mut out, dbg_opt_str_exec(&m.schema).as_str());
            append_str(&mut out, ", timestamp: ");
            append_str(&mut out, dbg_opt_str_exec(&m.timestamp).as_str());
            append_str(&mut out, ", logical_hash: ");
            append_str(&mut out, dbg_opt_bytes_exec(&m.logical_hash).as_str());
            append_str(&mut out, ", fields: {");
            let parts = dbg_fields_exec(&m.fields, ft);
            append_str(&mut out, join_exec(&parts, ", ").as_str());
            append_str(&mut out, "}, payload: ");
            match &m.payload {
                Some(p) => append_str(&mut out, wrap("Some(", debug_value(p, ft).as_str()).as_str()),
                None => append_str(&mut out, "None"),
            }
            append_str(&mut out, " })");
            assert(out@ =~= dbg(dv(*v), fv));
            out
        },
    }
}

pub(crate) fn dbg_table_exec(cs: &Vec<(String, SxColumn)>, ft: &Vec<FloatText>) -> (r: String)
    ensures
        r@ == dbg_table(dv_columns(cs@), float_texts_view(ft@)),
    decreases cs, 2nat,
{
    let parts = dbg_cols_exec(cs, ft);
    cat_three("SxTable { columns: {", join_exec(&parts, ", ").as_str(), "} }")
}

pub(crate) fn dbg_delta_exec(from: &Option<String>, os: &Vec<DeltaOp>, ft: &Vec<FloatText>) -> (r: String)
    ensures
        r@ == dbg_delta(crate::value::opt_str(*from), dv_ops(os@), float_texts_view(ft@)),
    decreases os, 2nat,
{
    let mut out = cat_two("DeltaDocument { from_hash: ", dbg_opt_str_exec(from).as_str());
    append_str(&mut out, ", ops: ");
    let parts = dbg_ops_exec(os, ft);
    append_str(&mut out, list_exec(&parts).as_str());
    append_str(&mut out, " }");
    out
}

fn dbg_items_exec(items: &Vec<SxValue>, ft: &Vec<FloatText>) -> (r: Vec<String>)
    ensures
        strs(r@) == dbg_items(dv_vals(items@), float_texts_view(ft@)),
    decreases items, 1nat,
{
    let ghost xs = dv_vals(items@);
    let ghost fv = float_texts_view(ft@);
    proof {
        lemma_dv_vals(items@);
    }
    let mut parts: Vec<String> = Vec::new();
    let mut i: usize = 0;
    assert(strs(parts@) =~= dbg_items(xs.subrange(0, 0), fv));
    while i < items.len()
        invariant
            i <= items@.len(),
            xs == dv_vals(items@),
            xs.len() == items@.len(),
            forall|k: int| 0 <= k < items@.len() ==> #[trigger] xs[k] == dv(items@[k]),
            fv == float_texts_view(ft@),
            strs(parts@) == dbg_items(xs.subrange(0, i as int), fv),
        decreases items.len() - i,
    {
        assert(decreases_to!(items => items@[i as int]));
        assert(xs.subrange(0, i + 1).drop_last() =~= xs.subrange(0, i as int));
        push_part(&mut parts, debug_value(&items[i], ft));
        i += 1;
    }
    assert(xs.subrange(0, i as int) =~= xs);
    parts
}

fn dbg_fields_exec(fs: &Vec<(String, SxValue)>, ft: &Vec<FloatText>) -> (r: Vec<String>)
    ensures
        strs(r@) == dbg_fields(dv_fields(fs@), float_texts_view(ft@)),
    decreases fs, 1nat,
{
    let ghost xs = dv_fields(fs@);
    let ghost fv = float_texts_view(ft@);
    proof {
        lemma_dv_fields(fs@);
    }
    let mut parts: Vec<String> = Vec::new();
    let mut i: usize = 0;
    assert(strs(parts@) =~= dbg_fields(xs.subrange(0, 0), fv));
    while i < fs.len()
        invariant
            i <= fs@.len(),
            xs == dv_fields(fs@),
            xs.len() == fs@.len(),
            forall|k: int| 0 <= k < fs@.len() ==> #[trigger] xs[k] == (fs@[k].0@, dv(fs@[k].1)),
            fv == float_texts_view(ft@),
            strs(parts@) == dbg_fields(xs.subrange(0, i as int), fv),
        decreases fs.len() - i,
    {
        assert(decreases_to!(fs => fs@[i as int].1));
        assert(xs.subrange(0, i + 1).drop_last() =~= xs.subrange(0, i as int));
        let line = cat_three(dq_exec(fs[i].0.as_str()).as_str(), ": ", debug_value(&fs[i].1, ft).as_str());
        push_part(&mut parts, line);
        i += 1;
    }
    assert(xs.subrange(0, i as int) =~= xs);
    parts
}

fn dbg_pairs_exec(ps: &Vec<(SxValue, SxValue)>, ft: &Vec<FloatText>) -> (r: Vec<String>)
    ensures
        strs(r@) == dbg_pairs(dv_pairs(ps@), float_texts_view(ft@)),
    decreases ps, 1nat,
{
    let ghost xs = dv_pairs(ps@);
    let ghost fv = float_texts_view(ft@);
    proof {
        lemma_dv_pairs(ps@);
    }
    let mut parts: Vec<String> = Vec::new();
    let mut i: usize = 0;
    assert(strs(parts@) =~= dbg_pairs(xs.subrange(0, 0), fv));
    while i < ps.len()
        invariant
            i <= ps@.len(),
            xs == dv_pairs(ps@),
            xs.len() == ps@.len(),
            forall|k: int| 0 <= k < ps@.len() ==> #[trigger] xs[k] == (dv(ps@[k].0), dv(ps@[k].1)),
            fv == float_texts_view(ft@),
            strs(parts@) == dbg_pairs(xs.subrange(0, i as int), fv),
        decreases ps.len() - i,
    {
        assert(decreases_to!(ps => ps@[i as int].0));
        assert(decreases_to!(ps => ps@[i as int].1));
        assert(xs.subrange(0, i + 1).drop_last() =~= xs.subrange(0, i as int));
        let mut line = cat_three("(", debug_value(&ps[i].0, ft).as_str(), ", ");
        append_str(&mut line, debug_value(&ps[i].1, ft).as_str());
        append_str(&mut line, ")");
        push_part(&mut parts, line);
        i += 1;
    }
    assert(xs.subrange(0, i as int) =~= xs);
    parts
}

fn dbg_cols_exec(cs: &Vec<(String, SxColumn)>, ft: &Vec<FloatText>) -> (r: Vec<String>)
    ensures
        strs(r@) == dbg_cols(dv_columns(cs@), float_texts_view(ft@)),
    decreases cs, 1nat,
{
    let ghost xs = dv_columns(cs@);
    let ghost fv = float_texts_view(ft@);
    proof {
        lemma_dv_columns(cs@);
    }
    let mut parts: Vec<String> = Vec::new();
    let mut i: usize = 0;
    assert(strs(parts@) =~= dbg_cols(xs.subrange(0, 0), fv));
    while i < cs.len()
        invariant
            i <= cs@.len(),
            xs == dv_columns(cs@),
            xs.len() == cs@.len(),
            forall|k: int| 0 <= k < cs@.len() ==> #[trigger] xs[k] == (cs@[k].0@, dv_column(cs@[k].1)),
            fv == float_texts_view(ft@),
            strs(parts@) == dbg_cols(xs.subrange(0, i as int), fv),
        decreases cs.len() - i,
    {
        assert(decreases_to!(cs => cs@[i as int].1));
        assert(xs.subrange(0, i + 1).drop_last() =~= xs.subrange(0, i as int));
        let body = match &cs[i].1 {
            SxColumn::Typed(t) => wrap("Typed(", dbg_typed_exec(t, ft).as_str()),
            SxColumn::Values(vs) => {
                assert(decreases_to!(cs@[i as int].1 => *vs));
                let items = dbg_items_exec(vs, ft);
                wrap("Values(", list_exec(&items).as_str())
            },
        };
        let line = cat_three(dq_exec(cs[i].0.as_str()).as_str(), ": ", body.as_str());
        push_part(&mut parts, line);
        i += 1;
    }
    assert(xs.subrange(0, i as int) =~= xs);
    parts
}

fn dbg_op_exec(o: &DeltaOp, ft: &Vec<FloatText>) -> (r: String)
    ensures
        r@ == dbg_op(crate::value::dv_op(*o), float_texts_view(ft@)),
    decreases o, 1nat,
{
    let mut out = cat_two("DeltaOp { kind: ", kind_dbg_exec(o.kind));
    append_str(&mut out, ", path: ");
    append_str(&mut out, dbg_path_exec(&o.path).as_str());
    append_str(&mut out, ", value: ");
    match &o.value {
        Some(x) => append_str(&mut out, wrap("Some(", debug_value(x, ft).as_str()).as_str()),
        None => append_str(&mut out, "None"),
    }
    append_str(&mut out, ", from: ");
    match &o.from {
        Some(q) => append_str(&mut out, wrap("Some(", dbg_path_exec(q).as_str()).as_str()),
        None => append_str(&mut out, "None"),
    }
    append_str(&mut out, ", index: ");
    let idx = match o.index {
        Some(n) => wrap("Some(", u64_to_decimal(n as u64).as_str()),
        None => "None".to_owned(),
    };
    append_str(&mut out, idx.as_str());
    append_str(&mut out, " }");
    out
}

fn dbg_ops_exec(os: &Vec<DeltaOp>, ft: &Vec<FloatText>) -> (r: Vec<String>)
    ensures
        strs(r@) == dbg_ops(dv_ops(os@), float_texts_view(ft@)),
    decreases os, 1nat,
{
    let ghost xs = dv_ops(os@);
    let ghost fv = float_texts_view(ft@);
    proof {
        lemma_dv_ops(os@);
    }
    let mut parts: Vec<String> = Vec::new();
    let mut i: usize = 0;
    assert(strs(parts@) =~= dbg_ops(xs.subrange(0, 0), fv));
    while i < os.len()
        invariant
            i <= os@.len(),
            xs == dv_ops(os@),
            xs.len() == os@.len(),
            forall|k: int| 0 <= k < os@.len() ==> #[trigger] xs[k] == crate::value::dv_op(os@[k]),
            fv == float_texts_view(ft@),
            strs(parts@) == dbg_ops(xs.subrange(0, i as int), fv),
        decreases os.len() - i,
    {
        assert(decreases_to!(os => os@[i as int]));
        assert(xs.subrange(0, i + 1).drop_last() =~= xs.subrange(0, i as int));
        push_part(&mut parts, dbg_op_exec(&os[i], ft));
        i += 1;
    }
    assert(xs.subrange(0, i as int) =~= xs);
    parts
}

} // verus!
