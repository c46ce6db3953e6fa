//! The SX text form of a value.
//!
//! Deterministic pretty printing: nested arrays and objects one item per line
//! with two spaces of indentation per level.  Floats are held as bit
//! patterns; their texts come from a table of [`FloatText`]s that the caller
//! supplies.
use crate::chars::{decimal_text, string_push, u64_to_decimal};
use crate::json::{b64_text, base64_encode, hex_encode, hex_text, i128_to_decimal, int_text, uuid_text, uuid_to_text};
use crate::path::{path_text, SxPath};
use crate::value::{
    dv, dv_columns, dv_fields, dv_ops, dv_op, dv_pairs, dv_vals, dv_column, DeltaOp, DeltaOpKind, SxColumn, SxTypedArray,
    SxValue, VColumn, VOp, VTyped, V,
};
use crate::value_ops::{lemma_dv_columns, lemma_dv_ops, lemma_dv_pairs, typed_len};
use crate::fields::{lemma_dv_fields, lemma_dv_vals};
use crate::lexer::{escape_char, string_body};
use vstd::prelude::*;

verus! {

/// The text of a float: `wide` for an `f64` (its bits), else an `f32` (its
/// bits in the low 32).
pub struct FloatText {
    pub wide: bool,
    pub bits: u64,
    pub text: String,
}

pub open spec fn float_texts_view(fs: Seq<FloatText>) -> Seq<(bool, u64, Seq<char>)> {
    fs.map_values(|f: FloatText| (f.wide, f.bits, f.text@))
}

/// The text of the first entry for the float, empty when there is none.
pub open spec fn float_text(ft: Seq<(bool, u64, Seq<char>)>, wide: bool, bits: u64) -> Seq<char>
    decreases ft.len(),
{
    if ft.len() == 0 {
        Seq::empty()
    } else if ft[0].0 == wide && ft[0].1 == bits {
        ft[0].2
    } else {
        float_text(ft.drop_first(), wide, bits)
    }
}

/// The parts joined with `sep` between them.
pub open spec fn join(parts: Seq<Seq<char>>, sep: Seq<char>) -> Seq<char>
    decreases parts.len(),
{
    if parts.len() == 0 {
        Seq::empty()
    } else if parts.len() == 1 {
        parts[0]
    } else {
        join(parts.drop_last(), sep) + sep + parts.last()
    }
}

pub open spec fn spaces(n: nat) -> Seq<char> {
    Seq::new(n, |k: int| ' ')
}

/// `\` and `"` escaped with a backslash.
pub open spec fn quote_esc(s: Seq<char>) -> Seq<char>
    decreases s.len(),
{
    if s.len() == 0 {
        Seq::empty()
    } else {
        quote_esc(s.drop_last()) + (if s.last() == '\\' {
            seq!['\\', '\\']
        } else if s.last() == '"' {
            seq!['\\', '"']
        } else {
            seq![s.last()]
        })
    }
}

pub open spec fn quoted(s: Seq<char>) -> Seq<char> {
    "\""@ + quote_esc(s) + "\""@
}

/// A typed literal `name("text")` with the text escaped.
pub open spec fn call_text(name: Seq<char>, s: Seq<char>) -> Seq<char> {
    name + "("@ + quoted(s) + ")"@
}

pub open spec fn bool_text(b: bool) -> Seq<char> {
    if b {
        "true"@
    } else {
        "false"@
    }
}

pub open spec fn typed_name(t: VTyped) -> Seq<char> {
    match t {
        VTyped::U8(_) => "u8"@,
        VTyped::I32(_) => "i32"@,
        VTyped::F32(_) => "f32"@,
        VTyped::F64(_) => "f64"@,
        VTyped::Bool(_) => "bool"@,
    }
}

pub open spec fn typed_parts(t: VTyped, ft: Seq<(bool, u64, Seq<char>)>) -> Seq<Seq<char>> {
    match t {
        VTyped::U8(xs) => xs.map_values(|x: u8| decimal_text(x as nat)),
        VTyped::I32(xs) => xs.map_values(|x: i32| int_text(x as int)),
        VTyped::F32(xs) => xs.map_values(|x: u32| float_text(ft, false, x as u64)),
        VTyped::F64(xs) => xs.map_values(|x: u64| float_text(ft, true, x)),
        VTyped::Bool(xs) => xs.map_values(|x: bool| bool_text(x)),
    }
}

/// `name[e, e, ...]`.
pub open spec fn typed_text(t: VTyped, ft: Seq<(bool, u64, Seq<char>)>) -> Seq<char> {
    typed_name(t) + "["@ + join(typed_parts(t, ft), ", "@) + "]"@
}

/// The lowercase name of a delta operation kind.
pub open spec fn kind_text(k: DeltaOpKind) -> Seq<char> {
    match k {
        DeltaOpKind::SetAt => "set"@,
        DeltaOpKind::Replace => "replace"@,
        DeltaOpKind::Remove => "remove"@,
        DeltaOpKind::Append => "append"@,
        DeltaOpKind::Prepend => "prepend"@,
        DeltaOpKind::Insert => "insert"@,
        DeltaOpKind::Increment => "increment"@,
        DeltaOpKind::Decrement => "decrement"@,
        DeltaOpKind::Merge => "merge"@,
        DeltaOpKind::Move => "move"@,
        DeltaOpKind::Copy => "copy"@,
        DeltaOpKind::Clear => "clear"@,
    }
}

/// `[a, b, ...]`: the `Debug` text of a shape.
pub open spec fn dims_texts(s: Seq<usize>) -> Seq<Seq<char>>
    decreases s.len(),
{
    if s.len() == 0 {
        Seq::empty()
    } else {
        dims_texts(s.drop_last()).push(decimal_text(s.last() as nat))
    }
}

pub open spec fn shape_text(s: Seq<usize>) -> Seq<char> {
    "["@ + join(dims_texts(s), ", "@) + "]"@
}

pub open spec fn blob_parts(uri: Seq<char>, mt: Option<Seq<char>>, size: Option<u64>, hash: Option<Seq<u8>>) -> Seq<Seq<char>> {
    let p0 = seq!["uri: "@ + quoted(uri)];
    let p1 = match mt {
        Some(m) => p0.push("media_type: "@ + quoted(m)),
        None => p0,
    };
    let p2 = match size {
        Some(z) => p1.push("size: "@ + decimal_text(z as nat)),
        None => p1,
    };
    match hash {
        Some(h) => p2.push("hash: \""@ + hex_text(h) + "\""@),
        None => p2,
    }
}

/// The text of a value at an indentation level.
pub open spec fn fmt(v: V, indent: nat, ft: Seq<(bool, u64, Seq<char>)>) -> Seq<char>
    decreases v, 0nat,
{
    match v {
        V::Null => "null"@,
        V::Bool(b) => bool_text(b),
        V::U8(x) => decimal_text(x as nat),
        V::U16(x) => decimal_text(x as nat),
        V::U32(x) => decimal_text(x as nat),
        V::U64(x) => decimal_text(x as nat),
        V::I8(x) => int_text(x as int),
        V::I16(x) => int_text(x as int),
        V::I32(x) => int_text(x as int),
        V::I64(x) => int_text(x as int),
        V::F32(b) => float_text(ft, false, b as u64),
        V::F64(b) => float_text(ft, true, b),
        V::Decimal(s, sc) => "decimal(\""@ + int_text(s as int) + "\", scale: "@ + decimal_text(sc as nat) + ")"@,
        V::Money(c, s, sc) => "money(\""@ + c + "\", "@ + int_text(s as int) + ", scale: "@ + decimal_text(sc as nat)
            + ")"@,
        V::String(s) => quoted(s),
        V::Bytes(b) => "bytes(\"base64:"@ + b64_text(b) + "\")"@,
        V::Enum(s) => quoted(s),
        V::Uuid(u) => "uuid(\""@ + uuid_text(u) + "\")"@,
        V::Timestamp(s) => call_text("timestamp"@, s),
        V::Date(s) => call_text("date"@, s),
        V::Duration(s) => call_text("duration"@, s),
        V::Url(s) => call_text("url"@, s),
        V::Email(s) => call_text("email"@, s),
        V::Array(items) => array_text(items, indent, ft),
        V::Object(fs) => if fs.len() == 0 {
            "{}"@
        } else {
            "{\n"@ + join(field_lines(fs, indent, ft), ",\n"@) + "\n"@ + spaces(indent) + "}"@
        },
        V::TypedArray(t) => typed_text(t, ft),
        V::Table(cols) => if cols.len() == 0 {
            "table {\n}"@
        } else {
            "table {\n"@ + join(col_lines(cols, indent, ft), ",\n"@) + "\n}"@
        },
        V::MapEntries(ps) => "map {\n"@ + pairs_text(ps, indent, ft) + "}"@,
        V::Tensor(shape, data, _) => "tensor<"@ + typed_name(data) + ", "@ + shape_text(shape) + "> "@ + typed_text(
            data,
            ft,
        ),
        V::Reference(t) => call_text("ref"@, t),
        V::BlobRef(uri, mt, size, hash) => "blob_ref { "@ + join(blob_parts(uri, mt, size, hash), ", "@) + " }"@,
        V::Delta(from, ops) => "delta"@ + (match from {
            Some(h) => " from hash("@ + quoted(h) + ")"@,
            None => Seq::empty(),
        }) + " {\n"@ + ops_text(ops, indent, ft) + "}"@,
        V::Message(m) => "message {\n  sx_version: "@ + decimal_text(m.sx_version as nat) + ",\n  payload: "@ + (
        match m.payload {
            Some(p) => fmt(*p, indent + 2, ft),
            None => "null"@,
        }) + "\n}"@,
    }
}

/// Items one per line, indented a level deeper, between brackets.
pub open spec fn array_text(items: Seq<V>, indent: nat, ft: Seq<(bool, u64, Seq<char>)>) -> Seq<char>
    decreases items, 1nat,
{
    if items.len() == 0 {
        "[]"@
    } else {
        "[\n"@ + join(item_lines(items, indent, ft), ",\n"@) + "\n"@ + spaces(indent) + "]"@
    }
}

pub open spec fn item_lines(s: Seq<V>, indent: nat, ft: Seq<(bool, u64, Seq<char>)>) -> Seq<Seq<char>>
    decreases s, 0nat,
{
    if s.len() == 0 {
        Seq::empty()
    } else {
        item_lines(s.drop_last(), indent, ft).push(spaces(indent + 2) + fmt(s.last(), indent + 2, ft))
    }
}

pub open spec fn field_lines(s: Seq<(Seq<char>, V)>, indent: nat, ft: Seq<(bool, u64, Seq<char>)>) -> Seq<Seq<char>>
    decreases s, 0nat,
{
    if s.len() == 0 {
        Seq::empty()
    } else {
        field_lines(s.drop_last(), indent, ft).push(
            spaces(indent + 2) + s.last().0 + ": "@ + fmt(s.last().1, indent + 2, ft),
        )
    }
}

pub open spec fn col_lines(s: Seq<(Seq<char>, VColumn)>, indent: nat, ft: Seq<(bool, u64, Seq<char>)>) -> Seq<Seq<char>>
    decreases s, 0nat,
{
    if s.len() == 0 {
        Seq::empty()
    } else {
        col_lines(s.drop_last(), indent, ft).push(
            "  "@ + s.last().0 + ": "@ + match s.last().1 {
                VColumn::Typed(t) => typed_text(t, ft),
                VColumn::Values(xs) => array_text(xs, indent + 2, ft),
            },
        )
    }
}

pub open spec fn pairs_text(s: Seq<(V, V)>, indent: nat, ft: Seq<(bool, u64, Seq<char>)>) -> Seq<char>
    decreases s, 0nat,
{
    if s.len() == 0 {
        Seq::empty()
    } else {
        pairs_text(s.drop_last(), indent, ft) + "  "@ + fmt(s.last().0, indent + 2, ft) + ": "@ + fmt(
            s.last().1,
            indent + 2,
            ft,
        ) + "\n"@
    }
}

pub open spec fn ops_text(s: Seq<VOp>, indent: nat, ft: Seq<(bool, u64, Seq<char>)>) -> Seq<char>
    decreases s, 0nat,
{
    if s.len() == 0 {
        Seq::empty()
    } else {
        ops_text(s.drop_last(), indent, ft) + "  "@ + kind_text(s.last().kind) + " "@ + path_text(s.last().path) + (
        match s.last().value {
            Some(x) => " = "@ + fmt(x, indent + 2, ft),
            None => Seq::empty(),
        }) + "\n"@
    }
}

// ---------------------------------------------------------------------------
// Nesting height
// ---------------------------------------------------------------------------

pub open spec fn max_nat(a: nat, b: nat) -> nat {
    if a >= b {
        a
    } else {
        b
    }
}

/// How many levels of indentation the text of a value goes below its own.
pub open spec fn height(v: V) -> nat
    decreases v, 0nat,
{
    match v {
        V::Array(items) => 1 + items_h(items),
        V::Object(fs) => 1 + fields_h(fs),
        V::Table(cols) => 2 + cols_h(cols),
        V::MapEntries(ps) => 1 + pairs_h(ps),
        V::Delta(_, ops) => 1 + ops_h(ops),
        V::Message(m) => match m.payload {
            Some(p) => 1 + height(*p),
            None => 0,
        },
        _ => 0,
    }
}

pub open spec fn items_h(s: Seq<V>) -> nat
    decreases s, 0nat,
{
    if s.len() == 0 {
        0
    } else {
        max_nat(items_h(s.drop_last()), height(s.last()))
    }
}

pub open spec fn fields_h(s: Seq<(Seq<char>, V)>) -> nat
    decreases s, 0nat,
{
    if s.len() == 0 {
        0
    } else {
        max_nat(fields_h(s.drop_last()), height(s.last().1))
    }
}

pub open spec fn cols_h(s: Seq<(Seq<char>, VColumn)>) -> nat
    decreases s, 0nat,
{
    if s.len() == 0 {
        0
    } else {
        max_nat(cols_h(s.drop_last()), match s.last().1 {
            VColumn::Values(xs) => items_h(xs),
            VColumn::Typed(_) => 0,
        })
    }
}

pub open spec fn pairs_h(s: Seq<(V, V)>) -> nat
    decreases s, 0nat,
{
    if s.len() == 0 {
        0
    } else {
        max_nat(pairs_h(s.drop_last()), max_nat(height(s.last().0), height(s.last().1)))
    }
}

pub open spec fn ops_h(s: Seq<VOp>) -> nat
    decreases s, 0nat,
{
    if s.len() == 0 {
        0
    } else {
        max_nat(ops_h(s.drop_last()), match s.last().value {
            Some(x) => height(x),
            None => 0,
        })
    }
}

proof fn lemma_items_h(s: Seq<V>, i: int)
    requires
        0 <= i < s.len(),
    ensures
        height(s[i]) <= items_h(s),
    decreases s.len(),
{
    if i < s.len() - 1 {
        lemma_items_h(s.drop_last(), i);
    }
}

proof fn lemma_fields_h(s: Seq<(Seq<char>, V)>, i: int)
    requires
        0 <= i < s.len(),
    ensures
        height(s[i].1) <= fields_h(s),
    decreases s.len(),
{
    if i < s.len() - 1 {
        lemma_fields_h(s.drop_last(), i);
    }
}

proof fn lemma_cols_h(s: Seq<(Seq<char>, VColumn)>, i: int)
    requires
        0 <= i < s.len(),
    ensures
        s[i].1 matches VColumn::Values(xs) ==> items_h(xs) <= cols_h(s),
    decreases s.len(),
{
    if i < s.len() - 1 {
        lemma_cols_h(s.drop_last(), i);
    }
}

proof fn lemma_pairs_h(s: Seq<(V, V)>, i: int)
    requires
        0 <= i < s.len(),
    ensures
        height(s[i].0) <= pairs_h(s),
        height(s[i].1) <= pairs_h(s),
    decreases s.len(),
{
    if i < s.len() - 1 {
        lemma_pairs_h(s.drop_last(), i);
    }
}

proof fn lemma_ops_h(s: Seq<VOp>, i: int)
    requires
        0 <= i < s.len(),
    ensures
        s[i].value matches Some(x) ==> height(x) <= ops_h(s),
    decreases s.len(),
{
    if i < s.len() - 1 {
        lemma_ops_h(s.drop_last(), i);
    }
}

/// `h`, or `cap` where `h` is larger.
pub open spec fn capped(h: nat, cap: nat) -> nat {
    if h <= cap {
        h
    } else {
        cap
    }
}

/// The nesting height of a value, or `cap` where it is larger.
pub fn height_capped(v: &SxValue, cap: u64) -> (r: u64)
    ensures
        r == capped(height(dv(*v)), cap as nat),
    decreases v, 0nat,
{
    match v {
        SxValue::Array(items) => {
            if cap == 0 {
                0
            } else {
                1 + items_capped(items, cap - 1)
            }
        },
        SxValue::Object(fs) => {
            if cap == 0 {
                0
            } else {
                1 + fields_capped(fs, cap - 1)
            }
        },
        SxValue::Table(t) => {
            if cap < 2 {
                cap
            } else {
                2 + cols_capped(&t.columns, cap - 2)
            }
        },
        SxValue::MapEntries(ps) => {
            if cap == 0 {
                0
            } else {
                1 + pairs_capped(ps, cap - 1)
            }
        },
        SxValue::Delta(d) => {
            if cap == 0 {
                0
            } else {
                1 + ops_capped(&d.ops, cap - 1)
            }
        },
        SxValue::Message(m) => match &m.payload {
            Some(p) => {
                if cap == 0 {
                    0
                } else {
                    assert(decreases_to!(m.payload => *p));
                    1 + height_capped(p, cap - 1)
                }
            },
            None => 0,
        },
        _ => 0,
    }
}

fn items_capped(items: &Vec<SxValue>, cap: u64) -> (r: u64)
    ensures
        r == capped(items_h(dv_vals(items@)), cap as nat),
    decreases items, 1nat,
{
    let ghost xs = dv_vals(items@);
    proof {
        lemma_dv_vals(items@);
    }
    let mut m: u64 = 0;
    let mut i: usize = 0;
    assert(xs.take(0) =~= Seq::<V>::empty());
    while i < items.len()
        invariant
            i <= items@.len(),
            xs == dv_vals(items@),
            xs.len() == items@.len(),
            forall|k: int| 0 <= k < items@.len() ==> #[trigger] xs[k] == dv(items@[k]),
            m == capped(items_h(xs.take(i as int)), cap as nat),
        decreases items.len() - i,
    {
        assert(decreases_to!(items => items@[i as int]));
        assert(xs.take(i + 1).drop_last() =~= xs.take(i as int));
        let h = height_capped(&items[i], cap);
        if h > m {
            m = h;
        }
        i += 1;
    }
    assert(xs.take(i as int) =~= xs);
    m
}

fn fields_capped(fs: &Vec<(String, SxValue)>, cap: u64) -> (r: u64)
    ensures
        r == capped(fields_h(dv_fields(fs@)), cap as nat),
    decreases fs, 1nat,
{
    let ghost xs = dv_fields(fs@);
    proof {
        lemma_dv_fields(fs@);
    }
    let mut m: u64 = 0;
    let mut i: usize = 0;
    assert(xs.take(0) =~= Seq::<(Seq<char>, V)>::empty());
    while i < fs.len()
        invariant
            i <= fs@.len(),
            xs == dv_fields(fs@),
            xs.len() == fs@.len(),
            forall|k: int| 0 <= k < fs@.len() ==> #[trigger] xs[k] == (fs@[k].0@, dv(fs@[k].1)),
            m == capped(fields_h(xs.take(i as int)), cap as nat),
        decreases fs.len() - i,
    {
        assert(decreases_to!(fs => fs@[i as int].1));
        assert(xs.take(i + 1).drop_last() =~= xs.take(i as int));
        let h = height_capped(&fs[i].1, cap);
        if h > m {
            m = h;
        }
        i += 1;
    }
    assert(xs.take(i as int) =~= xs);
    m
}

fn cols_capped(cols: &Vec<(String, SxColumn)>, cap: u64) -> (r: u64)
    ensures
        r == capped(cols_h(dv_columns(cols@)), cap as nat),
    decreases cols, 1nat,
{
    let ghost xs = dv_columns(cols@);
    proof {
        lemma_dv_columns(cols@);
    }
    let mut m: u64 = 0;
    let mut i: usize = 0;
    assert(xs.take(0) =~= Seq::<(Seq<char>, VColumn)>::empty());
    while i < cols.len()
        invariant
            i <= cols@.len(),
            xs == dv_columns(cols@),
            xs.len() == cols@.len(),
            forall|k: int| 0 <= k < cols@.len() ==> #[trigger] xs[k] == (cols@[k].0@, dv_column(cols@[k].1)),
            m == capped(cols_h(xs.take(i as int)), cap as nat),
        decreases cols.len() - i,
    {
        assert(xs.take(i + 1).drop_last() =~= xs.take(i as int));
        let h = match &cols[i].1 {
            SxColumn::Values(vals) => {
                assert(decreases_to!(cols => cols@[i as int].1));
                items_capped(vals, cap)
            },
            SxColumn::Typed(_) => 0,
        };
        if h > m {
            m = h;
        }
        i += 1;
    }
    assert(xs.take(i as int) =~= xs);
    m
}

fn pairs_capped(ps: &Vec<(SxValue, SxValue)>, cap: u64) -> (r: u64)
    ensures
        r == capped(pairs_h(dv_pairs(ps@)), cap as nat),
    decreases ps, 1nat,
{
    let ghost xs = dv_pairs(ps@);
    proof {
        lemma_dv_pairs(ps@);
    }
    let mut m: u64 = 0;
    let mut i: usize = 0;
    assert(xs.take(0) =~= Seq::<(V, V)>::empty());
    while i < ps.len()
        invariant
            i <= ps@.len(),
            xs == dv_pairs(ps@),
            xs.len() == ps@.len(),
            forall|k: int| 0 <= k < ps@.len() ==> #[trigger] xs[k] == (dv(ps@[k].0), dv(ps@[k].1)),
            m == capped(pairs_h(xs.take(i as int)), cap as nat),
        decreases ps.len() - i,
    {
        assert(decreases_to!(ps => ps@[i as int].0));
        assert(decreases_to!(ps => ps@[i as int].1));
        assert(xs.take(i + 1).drop_last() =~= xs.take(i as int));
        let a = height_capped(&ps[i].0, cap);
        let b = height_capped(&ps[i].1, cap);
        if a > m {
            m = a;
        }
        if b > m {
            m = b;
        }
        i += 1;
    }
    assert(xs.take(i as int) =~= xs);
    m
}

fn ops_capped(ops: &Vec<DeltaOp>, cap: u64) -> (r: u64)
    ensures
        r == capped(ops_h(dv_ops(ops@)), cap as nat),
    decreases ops, 1nat,
{
    let ghost xs = dv_ops(ops@);
    proof {
        lemma_dv_ops(ops@);
    }
    let mut m: u64 = 0;
    let mut i: usize = 0;
    assert(xs.take(0) =~= Seq::<VOp>::empty());
    while i < ops.len()
        invariant
            i <= ops@.len(),
            xs == dv_ops(ops@),
            xs.len() == ops@.len(),
            forall|k: int| 0 <= k < ops@.len() ==> #[trigger] xs[k] == dv_op(ops@[k]),
            m == capped(ops_h(xs.take(i as int)), cap as nat),
        decreases ops.len() - i,
    {
        assert(xs.take(i + 1).drop_last() =~= xs.take(i as int));
        let h = match &ops[i].value {
            Some(x) => {
                assert(decreases_to!(ops => ops@[i as int].value));
                height_capped(x, cap)
            },
            None => 0,
        };
        if h > m {
            m = h;
        }
        i += 1;
    }
    assert(xs.take(i as int) =~= xs);
    m
}

// ---------------------------------------------------------------------------
// Executable formatting
// ---------------------------------------------------------------------------

pub open spec fn strs(v: Seq<String>) -> Seq<Seq<char>> {
    v.map_values(|x: String| x@)
}

pub(crate) fn append_str(out: &mut String, s: &str)
    ensures
        final(out)@ == old(out)@ + s@,
{
    out.append(s);
}

/// The parts joined with `sep` between them.
pub(crate) fn join_exec(parts: &Vec<String>, sep: &str) -> (r: String)
    ensures
        r@ == join(strs(parts@), sep@),
{
    let mut out = String::new();
    let mut i: usize = 0;
    while i < parts.len()
        invariant
            i <= parts@.len(),
            out@ == join(strs(parts@).subrange(0, i as int), sep@),
        decreases parts.len() - i,
    {
        let ghost sv = strs(parts@);
        assert(sv.subrange(0, i + 1).drop_last() =~= sv.subrange(0, i as int));
        if i > 0 {
            append_str(&mut out, sep);
        } else {
            assert(out@ =~= Seq::<char>::empty());
        }
        append_str(&mut out, parts[i].as_str());
        proof {
            if i == 0 {
                assert(out@ =~= sv.subrange(0, 1)[0]);
            }
        }
        i += 1;
    }
    assert(strs(parts@).subrange(0, i as int) =~= strs(parts@));
    out
}

fn spaces_exec(n: usize) -> (r: String)
    ensures
        r@ == spaces(n as nat),
{
    let mut out = String::new();
    let mut i: usize = 0;
    while i < n
        invariant
            i <= n,
            out@ == spaces(i as nat),
        decreases n - i,
    {
        string_push(&mut out, ' ');
        assert(out@ =~= spaces((i + 1) as nat));
        i += 1;
    }
    out
}

fn quote_esc_exec(s: &str) -> (r: String)
    ensures
        r@ == quote_esc(s@),
{
    let n = s.unicode_len();
    let mut out = String::new();
    let mut i: usize = 0;
    while i < n
        invariant
            i <= n,
            n == s@.len(),
            out@ == quote_esc(s@.subrange(0, i as int)),
        decreases n - i,
    {
        let c = s.get_char(i);
        assert(s@.subrange(0, i + 1).drop_last() =~= s@.subrange(0, i as int));
        if c == '\\' {
            string_push(&mut out, '\\');
            string_push(&mut out, '\\');
        } else if c == '"' {
            string_push(&mut out, '\\');
            string_push(&mut out, '"');
        } else {
            string_push(&mut out, c);
        }
        assert(out@ =~= quote_esc(s@.subrange(0, i + 1)));
        i += 1;
    }
    assert(s@.subrange(0, n as int) =~= s@);
    out
}

fn quoted_exec(s: &str) -> (r: String)
    ensures
        r@ == quoted(s@),
{
    let mut out = "\"".to_owned();
    append_str(&mut out, quote_esc_exec(s).as_str());
    append_str(&mut out, "\"");
    out
}

fn call_exec(name: &str, s: &str) -> (r: String)
    ensures
        r@ == call_text(name@, s@),
{
    let mut out = name.to_owned();
    append_str(&mut out, "(");
    append_str(&mut out, quoted_exec(s).as_str());
    append_str(&mut out, ")");
    out
}

pub(crate) fn float_text_exec(ft: &Vec<FloatText>, wide: bool, bits: u64) -> (r: String)
    ensures
        r@ == float_text(float_texts_view(ft@), wide, bits),
{
    let ghost fv = float_texts_view(ft@);
    assert(fv.skip(0) =~= fv);
    let mut k: usize = 0;
    while k < ft.len()
        invariant
            k <= ft@.len(),
            fv == float_texts_view(ft@),
            float_text(fv, wide, bits) == float_text(fv.skip(k as int), wide, bits),
        decreases ft.len() - k,
    {
        if ft[k].wide == wide && ft[k].bits == bits {
            return ft[k].text.clone();
        }
        assert(fv.skip(k as int).drop_first() =~= fv.skip(k + 1));
        k += 1;
    }
    String::new()
}

pub(crate) fn bool_exec(b: bool) -> (r: String)
    ensures
        r@ == bool_text(b),
{
    if b {
        "true".to_owned()
    } else {
        "false".to_owned()
    }
}

fn typed_name_exec(t: &SxTypedArray) -> (r: &'static str)
    ensures
        r@ == typed_name(t.dv()),
{
    match t {
        SxTypedArray::U8(_) => "u8",
        SxTypedArray::I32(_) => "i32",
        SxTypedArray::F32(_) => "f32",
        SxTypedArray::F64(_) => "f64",
        SxTypedArray::Bool(_) => "bool",
    }
}

pub(crate) fn typed_parts_exec(t: &SxTypedArray, ft: &Vec<FloatText>) -> (r: Vec<String>)
    ensures
        strs(r@) == typed_parts(t.dv(), float_texts_view(ft@)),
{
    let ghost fv = float_texts_view(ft@);
    let mut out: Vec<String> = Vec::new();
    let n = t.len();
    let mut i: usize = 0;
    while i < n
        invariant
            i <= n,
            n == typed_len(t.dv()),
            fv == float_texts_view(ft@),
            strs(out@) == typed_parts(t.dv(), fv).subrange(0, i as int),
        decreases n - i,
    {
        let ghost before = strs(out@);
        let p = match t {
            SxTypedArray::U8(xs) => u64_to_decimal(xs[i] as u64),
            SxTypedArray::I32(xs) => i128_to_decimal(xs[i] as i128),
            SxTypedArray::F32(xs) => float_text_exec(ft, false, xs[i] as u64),
            SxTypedArray::F64(xs) => float_text_exec(ft, true, xs[i]),
            SxTypedArray::Bool(xs) => bool_exec(xs[i]),
        };
        assert(p@ == typed_parts(t.dv(), fv)[i as int]);
        let ghost prev = out@;
        out.push(p);
        assert(out@ =~= prev.push(p));
        assert(strs(out@) =~= before.push(p@));
        assert(typed_parts(t.dv(), fv).len() == n);
        assert(strs(out@) =~= typed_parts(t.dv(), fv).subrange(0, i + 1));
        i += 1;
    }
    assert(typed_parts(t.dv(), fv).subrange(0, n as int) =~= typed_parts(t.dv(), fv));
    out
}

fn typed_exec(t: &SxTypedArray, ft: &Vec<FloatText>) -> (r: String)
    ensures
        r@ == typed_text(t.dv(), float_texts_view(ft@)),
{
    let mut out = typed_name_exec(t).to_owned();
    append_str(&mut out, "[");
    let parts = typed_parts_exec(t, ft);
    append_str(&mut out, join_exec(&parts, ", ").as_str());
    append_str(&mut out, "]");
    out
}

pub(crate) fn kind_exec(k: DeltaOpKind) -> (r: &'static str)
    ensures
        r@ == kind_text(k),
{
    match k {
        DeltaOpKind::SetAt => "set",
        DeltaOpKind::Replace => "replace",
        DeltaOpKind::Remove => "remove",
        DeltaOpKind::Append => "append",
        DeltaOpKind::Prepend => "prepend",
        DeltaOpKind::Insert => "insert",
        DeltaOpKind::Increment => "increment",
        DeltaOpKind::Decrement => "decrement",
        DeltaOpKind::Merge => "merge",
        DeltaOpKind::Move => "move",
        DeltaOpKind::Copy => "copy",
        DeltaOpKind::Clear => "clear",
    }
}

pub(crate) fn shape_exec(s: &Vec<usize>) -> (r: String)
    ensures
        r@ == shape_text(s@),
{
    let mut parts: Vec<String> = Vec::new();
    let mut i: usize = 0;
    assert(strs(parts@) =~= dims_texts(s@.subrange(0, 0)));
    while i < s.len()
        invariant
            i <= s@.len(),
            strs(parts@) == dims_texts(s@.subrange(0, i as int)),
        decreases s.len() - i,
    {
        assert(s@.subrange(0, i + 1).drop_last() =~= s@.subrange(0, i as int));
        push_part(&mut parts, u64_to_decimal(s[i] as u64));
        i += 1;
    }
    assert(s@.subrange(0, i as int) =~= s@);
    let mut out = "[".to_owned();
    append_str(&mut out, join_exec(&parts, ", ").as_str());
    append_str(&mut out, "]");
    out
}

pub(crate) fn push_part(parts: &mut Vec<String>, p: String)
    ensures
        strs(final(parts)@) == strs(old(parts)@).push(p@),
{
    let ghost prev = parts@;
    parts.push(p);
    assert(parts@ =~= prev.push(p));
    assert(strs(parts@) =~= strs(prev).push(p@));
}

pub(crate) fn cat_three(a: &str, b: &str, c: &str) -> (r: String)
    ensures
        r@ == a@ + b@ + c@,
{
    let mut out = a.to_owned();
    append_str(&mut out, b);
    append_str(&mut out, c);
    out
}

pub(crate) fn cat_two(a: &str, b: &str) -> (r: String)
    ensures
        r@ == a@ + b@,
{
    let mut out = a.to_owned();
    append_str(&mut out, b);
    out
}

pub(crate) fn cat_all(a: &str, b: &str, c: &str, d: &str) -> (r: String)
    ensures
        r@ == a@ + b@ + c@ + d@,
{
    let mut out = a.to_owned();
    append_str(&mut out, b);
    append_str(&mut out, c);
    append_str(&mut out, d);
    out
}

/// The text of a value at an indentation level.
fn fmt_value(v: &SxValue, indent: usize, ft: &Vec<FloatText>) -> (r: String)
    requires
        indent + 2 * height(dv(*v)) <= usize::MAX,
    ensures
        r@ == fmt(dv(*v), indent as nat, float_texts_view(ft@)),
    decreases v, 0nat,
{
    match v {
        SxValue::Null => "null".to_owned(),
        SxValue::Bool(b) => bool_exec(*b),
        SxValue::U8(x) => u64_to_decimal(*x as u64),
        SxValue::U16(x) => u64_to_decimal(*x as u64),
        SxValue::U32(x) => u64_to_decimal(*x as u64),
        SxValue::U64(x) => u64_to_decimal(*x),
        SxValue::I8(x) => i128_to_decimal(*x as i128),
        SxValue::I16(x) => i128_to_decimal(*x as i128),
        SxValue::I32(x) => i128_to_decimal(*x as i128),
        SxValue::I64(x) => i128_to_decimal(*x as i128),
        SxValue::F32(b) => float_text_exec(ft, false, *b as u64),
        SxValue::F64(b) => float_text_exec(ft, true, *b),
        SxValue::Decimal(d) => {
            let mut out = cat_all("decimal(\"", i128_to_decimal(d.scaled).as_str(), "\", scale: ", u64_to_decimal(d.scale as u64).as_str());
            append_str(&mut out, ")");
            assert(out@ =~= fmt(dv(*v), indent as nat, float_texts_view(ft@)));
            out
        },
        SxValue::Money(m) => {
            let mut out = cat_all("money(\"", m.currency.as_str(), "\", ", i128_to_decimal(m.scaled as i128).as_str());
            append_str(&mut out, ", scale: ");
            append_str(&mut out, u64_to_decimal(m.scale as u64).as_str());
            append_str(&mut out, ")");
            assert(out@ =~= fmt(dv(*v), indent as nat, float_texts_view(ft@)));
            out
        },
        SxValue::String(s) => quoted_exec(s.as_str()),
        SxValue::Bytes(b) => cat_three("bytes(\"base64:", base64_encode(b.as_slice()).as_str(), "\")"),
        SxValue::Enum(s) => quoted_exec(s.as_str()),
        SxValue::Uuid(u) => cat_three("uuid(\"", uuid_to_text(u).as_str(), "\")"),
        SxValue::Timestamp(s) => call_exec("timestamp", s.as_str()),
        SxValue::Date(s) => call_exec("date", s.as_str()),
        SxValue::Duration(s) => call_exec("duration", s.as_str()),
        SxValue::Url(s) => call_exec("url", s.as_str()),
        SxValue::Email(s) => call_exec("email", s.as_str()),
        SxValue::Array(items) => array_exec(items, indent, ft),
        SxValue::Object(fs) => {
            proof {
                lemma_dv_fields(fs@);
            }
            if fs.len() == 0 {
                return "{}".to_owned();
            }
            let lines = field_lines_exec(fs, indent, ft);
            let mut out = cat_all("{\n", join_exec(&lines, ",\n").as_str(), "\n", spaces_exec(indent).as_str());
            append_str(&mut out, "}");
            assert(out@ =~= fmt(dv(*v), indent as nat, float_texts_view(ft@)));
            out
        },
        SxValue::TypedArray(t) => typed_exec(t, ft),
        SxValue::Table(t) => {
            proof {
                lemma_dv_columns(t.columns@);
            }
            if t.columns.len() == 0 {
                return "table {\n}".to_owned();
            }
            let lines = col_lines_exec(&t.columns, indent, ft);
            cat_three("table {\n", join_exec(&lines, ",\n").as_str(), "\n}")
        },
        SxValue::MapEntries(ps) => cat_three("map {\n", pairs_exec(ps, indent, ft).as_str(), "}"),
        SxValue::Tensor(t) => {
            let mut out = cat_all("tensor<", typed_name_exec(&t.data), ", ", shape_exec(&t.shape).as_str());
            append_str(&mut out, "> ");
            append_str(&mut out, typed_exec(&t.data, ft).as_str());
            assert(out@ =~= fmt(dv(*v), indent as nat, float_texts_view(ft@)));
            out
        },
        SxValue::Reference(r) => call_exec("ref", r.target.as_str()),
        SxValue::BlobRef(b) => {
            let mut parts: Vec<String> = Vec::new();
            assert(strs(parts@) =~= Seq::<Seq<char>>::empty());
            push_part(&mut parts, cat_two("uri: ", quoted_exec(b.uri.as_str()).as_str()));
            assert(strs(parts@) =~= seq!["uri: "@ + quoted(b.uri@)]);
            match &b.media_type {
                Some(m) => push_part(&mut parts, cat_two("media_type: ", quoted_exec(m.as_str()).as_str())),
                None => {},
            }
            match b.size {
                Some(z) => push_part(&mut parts, cat_two("size: ", u64_to_decimal(z).as_str())),
                None => {},
            }
            match &b.hash {
                Some(h) => push_part(&mut parts, cat_three("hash: \"", hex_encode(h.as_slice()).as_str(), "\"")),
                None => {},
            }
            cat_three("blob_ref { ", join_exec(&parts, ", ").as_str(), " }")
        },
        SxValue::Delta(d) => {
            let mut out = "delta".to_owned();
            match &d.from_hash {
                Some(h) => append_str(&mut out, cat_three(" from hash(", quoted_exec(h.as_str()).as_str(), ")").as_str()),
                None => {},
            }
            append_str(&mut out, " {\n");
            append_str(&mut out, ops_exec(&d.ops, indent, ft).as_str());
            append_str(&mut out, "}");
            assert(out@ =~= fmt(dv(*v), indent as nat, float_texts_view(ft@)));
            out
        },
        SxValue::Message(m) => {
            let mut out = cat_three("message {\n  sx_version: ", u64_to_decimal(m.sx_version as u64).as_str(), ",\n  payload: ");
            match &m.payload {
                Some(p) => append_str(&mut out, fmt_value(p, indent + 2, ft).as_str()),
                None => append_str(&mut out, "null"),
            }
            append_str(&mut out, "\n}");
            assert(out@ =~= fmt(dv(*v), indent as nat, float_texts_view(ft@)));
            out
        },
    }
}

fn array_exec(items: &Vec<SxValue>, indent: usize, ft: &Vec<FloatText>) -> (r: String)
    requires
        indent + 2 + 2 * items_h(dv_vals(items@)) <= usize::MAX,
    ensures
        r@ == array_text(dv_vals(items@), indent as nat, float_texts_view(ft@)),
    decreases items, 1nat,
{
    let ghost xs = dv_vals(items@);
    let ghost fv = float_texts_view(ft@);
    proof {
        lemma_dv_vals(items@);
    }
    if items.len() == 0 {
        return "[]".to_owned();
    }
    let mut lines: Vec<String> = Vec::new();
    let mut i: usize = 0;
    assert(strs(lines@) =~= item_lines(xs.subrange(0, 0), indent as nat, fv));
    while i < items.len()
        invariant
            i <= items@.len(),
            xs == dv_vals(items@),
            xs.len() == items@.len(),
            forall|k: int| 0 <= k < items@.len() ==> #[trigger] xs[k] == dv(items@[k]),
            fv == float_texts_view(ft@),
            indent + 2 + 2 * items_h(xs) <= usize::MAX,
            strs(lines@) == item_lines(xs.subrange(0, i as int), indent as nat, fv),
        decreases items.len() - i,
    {
        proof {
            lemma_items_h(xs, i as int);
        }
        assert(decreases_to!(items => items@[i as int]));
        let mut line = spaces_exec(indent + 2);
        append_str(&mut line, fmt_value(&items[i], indent + 2, ft).as_str());
        assert(xs.subrange(0, i + 1).drop_last() =~= xs.subrange(0, i as int));
        push_part(&mut lines, line);
        i += 1;
    }
    assert(xs.subrange(0, i as int) =~= xs);
    let mut out = cat_all("[\n", join_exec(&lines, ",\n").as_str(), "\n", spaces_exec(indent).as_str());
    append_str(&mut out, "]");
    out
}

fn field_lines_exec(fs: &Vec<(String, SxValue)>, indent: usize, ft: &Vec<FloatText>) -> (r: Vec<String>)
    requires
        indent + 2 + 2 * fields_h(dv_fields(fs@)) <= usize::MAX,
    ensures
        strs(r@) == field_lines(dv_fields(fs@), indent as nat, float_texts_view(ft@)),
    decreases fs, 1nat,
{
    let ghost xs = dv_fields(fs@);
    let ghost fv = float_texts_view(ft@);
    proof {
        lemma_dv_fields(fs@);
    }
    let mut lines: Vec<String> = Vec::new();
    let mut i: usize = 0;
    assert(strs(lines@) =~= field_lines(xs.subrange(0, 0), indent as nat, fv));
    while i < fs.len()
        invariant
            i <= fs@.len(),
            xs == dv_fields(fs@),
            xs.len() == fs@.len(),
            forall|k: int| 0 <= k < fs@.len() ==> #[trigger] xs[k] == (fs@[k].0@, dv(fs@[k].1)),
            fv == float_texts_view(ft@),
            indent + 2 + 2 * fields_h(xs) <= usize::MAX,
            strs(lines@) == field_lines(xs.subrange(0, i as int), indent as nat, fv),
        decreases fs.len() - i,
    {
        proof {
            lemma_fields_h(xs, i as int);
        }
        assert(decreases_to!(fs => fs@[i as int].1));
        let line = cat_all(spaces_exec(indent + 2).as_str(), fs[i].0.as_str(), ": ", fmt_value(&fs[i].1, indent + 2, ft).as_str());
        assert(xs.subrange(0, i + 1).drop_last() =~= xs.subrange(0, i as int));
        push_part(&mut lines, line);
        i += 1;
    }
    assert(xs.subrange(0, i as int) =~= xs);
    lines
}

fn col_lines_exec(cs: &Vec<(String, SxColumn)>, indent: usize, ft: &Vec<FloatText>) -> (r: Vec<String>)
    requires
        indent + 4 + 2 * cols_h(dv_columns(cs@)) <= usize::MAX,
    ensures
        strs(r@) == col_lines(dv_columns(cs@), indent as nat, float_texts_view(ft@)),
    decreases cs, 1nat,
{
    let ghost xs = dv_columns(cs@);
    let ghost fv = float_texts_view(ft@);
    proof {
        lemma_dv_columns(cs@);
    }
    let mut lines: Vec<String> = Vec::new();
    let mut i: usize = 0;
    assert(strs(lines@) =~= col_lines(xs.subrange(0, 0), indent as nat, fv));
    while i < cs.len()
        invariant
            i <= cs@.len(),
            xs == dv_columns(cs@),
            xs.len() == cs@.len(),
            forall|k: int| 0 <= k < cs@.len() ==> #[trigger] xs[k] == (cs@[k].0@, dv_column(cs@[k].1)),
            fv == float_texts_view(ft@),
            indent + 4 + 2 * cols_h(xs) <= usize::MAX,
            strs(lines@) == col_lines(xs.subrange(0, i as int), indent as nat, fv),
        decreases cs.len() - i,
    {
        proof {
            lemma_cols_h(xs, i as int);
        }
        assert(decreases_to!(cs => cs@[i as int].1));
        let body = match &cs[i].1 {
            SxColumn::Typed(t) => typed_exec(t, ft),
            SxColumn::Values(vs) => {
                assert(decreases_to!(cs@[i as int].1 => *vs));
                array_exec(vs, indent + 2, ft)
            },
        };
        let line = cat_all("  ", cs[i].0.as_str(), ": ", body.as_str());
        assert(xs.subrange(0, i + 1).drop_last() =~= xs.subrange(0, i as int));
        push_part(&mut lines, line);
        i += 1;
    }
    assert(xs.subrange(0, i as int) =~= xs);
    lines
}

fn pairs_exec(ps: &Vec<(SxValue, SxValue)>, indent: usize, ft: &Vec<FloatText>) -> (r: String)
    requires
        indent + 2 + 2 * pairs_h(dv_pairs(ps@)) <= usize::MAX,
    ensures
        r@ == pairs_text(dv_pairs(ps@), indent as nat, float_texts_view(ft@)),
    decreases ps, 1nat,
{
    let ghost xs = dv_pairs(ps@);
    let ghost fv = float_texts_view(ft@);
    proof {
        lemma_dv_pairs(ps@);
    }
    let mut out = String::new();
    let mut i: usize = 0;
    assert(out@ =~= pairs_text(xs.subrange(0, 0), indent as nat, fv));
    while i < ps.len()
        invariant
            i <= ps@.len(),
            xs == dv_pairs(ps@),
            xs.len() == ps@.len(),
            forall|k: int| 0 <= k < ps@.len() ==> #[trigger] xs[k] == (dv(ps@[k].0), dv(ps@[k].1)),
            fv == float_texts_view(ft@),
            indent + 2 + 2 * pairs_h(xs) <= usize::MAX,
            out@ == pairs_text(xs.subrange(0, i as int), indent as nat, fv),
        decreases ps.len() - i,
    {
        proof {
            lemma_pairs_h(xs, i as int);
        }
        assert(decreases_to!(ps => ps@[i as int].0));
        assert(decreases_to!(ps => ps@[i as int].1));
        let k = fmt_value(&ps[i].0, indent + 2, ft);
        let w = fmt_value(&ps[i].1, indent + 2, ft);
        append_str(&mut out, cat_all("  ", k.as_str(), ": ", w.as_str()).as_str());
        append_str(&mut out, "\n");
        assert(xs.subrange(0, i + 1).drop_last() =~= xs.subrange(0, i as int));
        i += 1;
    }
    assert(xs.subrange(0, i as int) =~= xs);
    out
}

fn ops_exec(os: &Vec<DeltaOp>, indent: usize, ft: &Vec<FloatText>) -> (r: String)
    requires
        indent + 2 + 2 * ops_h(dv_ops(os@)) <= usize::MAX,
    ensures
        r@ == ops_text(dv_ops(os@), indent as nat, float_texts_view(ft@)),
    decreases os, 1nat,
{
    let ghost xs = dv_ops(os@);
    let ghost fv = float_texts_view(ft@);
    proof {
        lemma_dv_ops(os@);
    }
    let mut out = String::new();
    let mut i: usize = 0;
    assert(out@ =~= ops_text(xs.subrange(0, 0), indent as nat, fv));
    while i < os.len()
        invariant
            i <= os@.len(),
            xs == dv_ops(os@),
            xs.len() == os@.len(),
            forall|k: int| 0 <= k < os@.len() ==> #[trigger] xs[k] == crate::value::dv_op(os@[k]),
            fv == float_texts_view(ft@),
            indent + 2 + 2 * ops_h(xs) <= usize::MAX,
            out@ == ops_text(xs.subrange(0, i as int), indent as nat, fv),
        decreases os.len() - i,
    {
        proof {
            lemma_ops_h(xs, i as int);
        }
        let mut line = cat_all("  ", kind_exec(os[i].kind), " ", os[i].path.to_text().as_str());
        match &os[i].value {
            Some(x) => {
                assert(decreases_to!(os => os@[i as int]));
                assert(decreases_to!(os@[i as int] => *x));
                append_str(&mut line, " = ");
                append_str(&mut line, fmt_value(x, indent + 2, ft).as_str());
            },
            None => {},
        }
        append_str(&mut out, line.as_str());
        append_str(&mut out, "\n");
        assert(xs.subrange(0, i + 1).drop_last() =~= xs.subrange(0, i as int));
        i += 1;
    }
    assert(xs.subrange(0, i as int) =~= xs);
    out
}

/// Formats an SX value using deterministic pretty rules; each float's text
/// comes from `floats`.
pub fn format_value(value: &SxValue, floats: &Vec<FloatText>) -> (r: String)
    requires
        2 * height(dv(*value)) <= usize::MAX,
    ensures
        r@ == fmt(dv(*value), 0, float_texts_view(floats@)),
{
    fmt_value(value, 0, floats)
}

/// Formats an SX value in canonical text form: the pretty form.
pub fn format_canonical(value: &SxValue, floats: &Vec<FloatText>) -> (r: String)
    requires
        2 * height(dv(*value)) <= usize::MAX,
    ensures
        r@ == fmt(dv(*value), 0, float_texts_view(floats@)),
{
    format_value(value, floats)
}

// ---------------------------------------------------------------------------
// The floats of a value
// ---------------------------------------------------------------------------

/// The floats of a typed array: `true` with the bits of an `f64`, `false`
/// with those of an `f32`.
pub open spec fn typed_floats(t: VTyped) -> Seq<(bool, u64)> {
    match t {
        VTyped::F32(xs) => xs.map_values(|x: u32| (false, x as u64)),
        VTyped::F64(xs) => xs.map_values(|x: u64| (true, x)),
        _ => Seq::empty(),
    }
}

/// The floats of a value in the order its text shows them.
pub open spec fn floats_in(v: V) -> Seq<(bool, u64)>
    decreases v, 0nat,
{
    match v {
        V::F32(b) => seq![(false, b as u64)],
        V::F64(b) => seq![(true, b)],
        V::Array(items) => items_floats(items),
        V::Object(fs) => fields_floats(fs),
        V::MapEntries(ps) => pairs_floats(ps),
        V::TypedArray(t) => typed_floats(t),
        V::Tensor(_, data, _) => typed_floats(data),
        V::Table(cols) => cols_floats(cols),
        V::Delta(_, ops) => ops_floats(ops),
        V::Message(m) => match m.payload {
            Some(p) => floats_in(*p),
            None => Seq::empty(),
        },
        _ => Seq::empty(),
    }
}

pub open spec fn items_floats(s: Seq<V>) -> Seq<(bool, u64)>
    decreases s, 0nat,
{
    if s.len() == 0 {
        Seq::empty()
    } else {
        items_floats(s.drop_last()) + floats_in(s.last())
    }
}

pub open spec fn fields_floats(s: Seq<(Seq<char>, V)>) -> Seq<(bool, u64)>
    decreases s, 0nat,
{
    if s.len() == 0 {
        Seq::empty()
    } else {
        fields_floats(s.drop_last()) + floats_in(s.last().1)
    }
}

pub open spec fn pairs_floats(s: Seq<(V, V)>) -> Seq<(bool, u64)>
    decreases s, 0nat,
{
    if s.len() == 0 {
        Seq::empty()
    } else {
        pairs_floats(s.drop_last()) + floats_in(s.last().0) + floats_in(s.last().1)
    }
}

pub open spec fn cols_floats(s: Seq<(Seq<char>, VColumn)>) -> Seq<(bool, u64)>
    decreases s, 0nat,
{
    if s.len() == 0 {
        Seq::empty()
    } else {
        cols_floats(s.drop_last()) + match s.last().1 {
            VColumn::Typed(t) => typed_floats(t),
            VColumn::Values(xs) => items_floats(xs),
        }
    }
}

pub open spec fn ops_floats(s: Seq<VOp>) -> Seq<(bool, u64)>
    decreases s, 0nat,
{
    if s.len() == 0 {
        Seq::empty()
    } else {
        ops_floats(s.drop_last()) + match s.last().value {
            Some(x) => floats_in(x),
            None => Seq::empty(),
        }
    }
}

fn append_floats(out: &mut Vec<(bool, u64)>, more: Vec<(bool, u64)>)
    ensures
        final(out)@ == old(out)@ + more@,
{
    let mut m = more;
    out.append(&mut m);
}

fn typed_floats_exec(t: &SxTypedArray) -> (r: Vec<(bool, u64)>)
    ensures
        r@ == typed_floats(t.dv()),
{
    let mut out: Vec<(bool, u64)> = Vec::new();
    match t {
        SxTypedArray::F32(xs) => {
            let mut i: usize = 0;
            while i < xs.len()
                invariant
                    i <= xs@.len(),
                    out@ == xs@.subrange(0, i as int).map_values(|x: u32| (false, x as u64)),
                decreases xs.len() - i,
            {
                out.push((false, xs[i] as u64));
                assert(out@ =~= xs@.subrange(0, i + 1).map_values(|x: u32| (false, x as u64)));
                i += 1;
            }
            assert(xs@.subrange(0, i as int) =~= xs@);
        },
        SxTypedArray::F64(xs) => {
            let mut i: usize = 0;
            while i < xs.len()
                invariant
                    i <= xs@.len(),
                    out@ == xs@.subrange(0, i as int).map_values(|x: u64| (true, x)),
                decreases xs.len() - i,
            {
                out.push((true, xs[i]));
                assert(out@ =~= xs@.subrange(0, i + 1).map_values(|x: u64| (true, x)));
                i += 1;
            }
            assert(xs@.subrange(0, i as int) =~= xs@);
        },
        _ => {
            assert(out@ =~= typed_floats(t.dv()));
        },
    }
    out
}

/// The floats of a value, in the order its text shows them: what a
/// [`FloatText`] table for [`format_value`] needs entries for.
pub fn float_values(v: &SxValue) -> (r: Vec<(bool, u64)>)
    ensures
        r@ == floats_in(dv(*v)),
    decreases v, 0nat,
{
    match v {
        SxValue::F32(b) => {
            let r = vec![(false, *b as u64)];
            assert(r@ =~= floats_in(dv(*v)));
            r
        },
        SxValue::F64(b) => {
            let r = vec![(true, *b)];
            assert(r@ =~= floats_in(dv(*v)));
            r
        },
        SxValue::Array(items) => items_floats_exec(items),
        SxValue::Object(fs) => fields_floats_exec(fs),
        SxValue::MapEntries(ps) => pairs_floats_exec(ps),
        SxValue::TypedArray(t) => typed_floats_exec(t),
        SxValue::Tensor(t) => typed_floats_exec(&t.data),
        SxValue::Table(t) => cols_floats_exec(&t.columns),
        SxValue::Delta(d) => ops_floats_exec(&d.ops),
        SxValue::Message(m) => match &m.payload {
            Some(p) => float_values(p),
            None => Vec::new(),
        },
        _ => Vec::new(),
    }
}

fn fields_floats_exec(fs: &Vec<(String, SxValue)>) -> (r: Vec<(bool, u64)>)
    ensures
        r@ == fields_floats(dv_fields(fs@)),
    decreases fs, 1nat,
{
    let mut out: Vec<(bool, u64)> = Vec::new();
    let ghost xs = dv_fields(fs@);
    proof {
        lemma_dv_fields(fs@);
    }
    let mut i: usize = 0;
    assert(out@ =~= fields_floats(xs.subrange(0, 0)));
    while i < fs.len()
        invariant
            i <= fs@.len(),
            xs == dv_fields(fs@),
            xs.len() == fs@.len(),
            forall|k: int| 0 <= k < fs@.len() ==> #[trigger] xs[k] == (fs@[k].0@, dv(fs@[k].1)),
            out@ == fields_floats(xs.subrange(0, i as int)),
        decreases fs.len() - i,
    {
        assert(decreases_to!(fs => fs@[i as int].1));
        append_floats(&mut out, float_values(&fs[i].1));
        assert(xs.subrange(0, i + 1).drop_last() =~= xs.subrange(0, i as int));
        i += 1;
    }
    assert(xs.subrange(0, i as int) =~= xs);
    out
}

fn pairs_floats_exec(ps: &Vec<(SxValue, SxValue)>) -> (r: Vec<(bool, u64)>)
    ensures
        r@ == pairs_floats(dv_pairs(ps@)),
    decreases ps, 1nat,
{
    let mut out: Vec<(bool, u64)> = Vec::new();
    let ghost xs = dv_pairs(ps@);
    proof {
        lemma_dv_pairs(ps@);
    }
    let mut i: usize = 0;
    assert(out@ =~= pairs_floats(xs.subrange(0, 0)));
    while i < ps.len()
        invariant
            i <= ps@.len(),
            xs == dv_pairs(ps@),
            xs.len() == ps@.len(),
            forall|k: int| 0 <= k < ps@.len() ==> #[trigger] xs[k] == (dv(ps@[k].0), dv(ps@[k].1)),
            out@ == pairs_floats(xs.subrange(0, i as int)),
        decreases ps.len() - i,
    {
        assert(decreases_to!(ps => ps@[i as int].0));
        assert(decreases_to!(ps => ps@[i as int].1));
        append_floats(&mut out, float_values(&ps[i].0));
        append_floats(&mut out, float_values(&ps[i].1));
        assert(xs.subrange(0, i + 1).drop_last() =~= xs.subrange(0, i as int));
        i += 1;
    }
    assert(xs.subrange(0, i as int) =~= xs);
    out
}

fn cols_floats_exec(cs: &Vec<(String, SxColumn)>) -> (r: Vec<(bool, u64)>)
    ensures
        r@ == cols_floats(dv_columns(cs@)),
    decreases cs, 1nat,
{
    let mut out: Vec<(bool, u64)> = Vec::new();
    let ghost xs = dv_columns(cs@);
    proof {
        lemma_dv_columns(cs@);
    }
    let mut i: usize = 0;
    assert(out@ =~= cols_floats(xs.subrange(0, 0)));
    while i < cs.len()
        invariant
            i <= cs@.len(),
            xs == dv_columns(cs@),
            xs.len() == cs@.len(),
            forall|k: int| 0 <= k < cs@.len() ==> #[trigger] xs[k] == (cs@[k].0@, dv_column(cs@[k].1)),
            out@ == cols_floats(xs.subrange(0, i as int)),
        decreases cs.len() - i,
    {
        assert(decreases_to!(cs => cs@[i as int].1));
        match &cs[i].1 {
            SxColumn::Typed(ta) => append_floats(&mut out, typed_floats_exec(ta)),
            SxColumn::Values(vs) => {
                assert(decreases_to!(cs@[i as int].1 => *vs));
                append_floats(&mut out, items_floats_exec(vs));
            },
        }
        assert(xs.subrange(0, i + 1).drop_last() =~= xs.subrange(0, i as int));
        i += 1;
    }
    assert(xs.subrange(0, i as int) =~= xs);
    out
}

fn ops_floats_exec(os: &Vec<DeltaOp>) -> (r: Vec<(bool, u64)>)
    ensures
        r@ == ops_floats(dv_ops(os@)),
    decreases os, 1nat,
{
    let mut out: Vec<(bool, u64)> = Vec::new();
    let ghost xs = dv_ops(os@);
    proof {
        lemma_dv_ops(os@);
    }
    let mut i: usize = 0;
    assert(out@ =~= ops_floats(xs.subrange(0, 0)));
    while i < os.len()
        invariant
            i <= os@.len(),
            xs == dv_ops(os@),
            xs.len() == os@.len(),
            forall|k: int| 0 <= k < os@.len() ==> #[trigger] xs[k] == crate::value::dv_op(os@[k]),
            out@ == ops_floats(xs.subrange(0, i as int)),
        decreases os.len() - i,
    {
        match &os[i].value {
            Some(x) => {
                assert(decreases_to!(os => os@[i as int]));
                assert(decreases_to!(os@[i as int] => *x));
                append_floats(&mut out, float_values(x));
            },
            None => {},
        }
        assert(xs.subrange(0, i + 1).drop_last() =~= xs.subrange(0, i as int));
        i += 1;
    }
    assert(xs.subrange(0, i as int) =~= xs);
    out
}

fn items_floats_exec(items: &Vec<SxValue>) -> (r: Vec<(bool, u64)>)
    ensures
        r@ == items_floats(dv_vals(items@)),
    decreases items, 1nat,
{
    let mut out: Vec<(bool, u64)> = Vec::new();
    let ghost xs = dv_vals(items@);
    proof {
        lemma_dv_vals(items@);
    }
    let mut i: usize = 0;
    assert(out@ =~= items_floats(xs.subrange(0, 0)));
    while i < items.len()
        invariant
            i <= items@.len(),
            xs == dv_vals(items@),
            xs.len() == items@.len(),
            forall|k: int| 0 <= k < items@.len() ==> #[trigger] xs[k] == dv(items@[k]),
            out@ == items_floats(xs.subrange(0, i as int)),
        decreases items.len() - i,
    {
        assert(decreases_to!(items => items@[i as int]));
        append_floats(&mut out, float_values(&items[i]));
        assert(xs.subrange(0, i + 1).drop_last() =~= xs.subrange(0, i as int));
        i += 1;
    }
    assert(xs.subrange(0, i as int) =~= xs);
    out
}


// ---------------------------------------------------------------------------
// Reading quoted text back
// ---------------------------------------------------------------------------

/// Every character is ASCII.
pub open spec fn is_ascii_text(s: Seq<char>) -> bool {
    forall|i: int| 0 <= i < s.len() ==> (#[trigger] s[i] as u32) < 128
}

/// The bytes of ASCII text, one per character.
pub open spec fn ascii_bytes(s: Seq<char>) -> Seq<u8> {
    s.map_values(|c: char| c as u8)
}

proof fn lemma_quote_esc_concat(a: Seq<char>, b: Seq<char>)
    ensures
        quote_esc(a + b) == quote_esc(a) + quote_esc(b),
    decreases b.len(),
{
    if b.len() == 0 {
        assert(a + b =~= a);
        assert(quote_esc(a) + quote_esc(b) =~= quote_esc(a));
    } else {
        lemma_quote_esc_concat(a, b.drop_last());
        assert((a + b).drop_last() =~= a + b.drop_last());
        assert((a + b).last() == b.last());
        assert(quote_esc(a + b.drop_last()) + quote_esc(seq![b.last()]).subrange(0, 0) =~= quote_esc(a + b.drop_last()));
        assert(quote_esc(a) + quote_esc(b) =~= quote_esc(a) + quote_esc(b.drop_last()) + (quote_esc(b)).subrange(
            quote_esc(b.drop_last()).len() as int,
            quote_esc(b).len() as int,
        ));
    }
}

proof fn lemma_ascii_char(c: char)
    requires
        (c as u32) < 128,
    ensures
        ((c as u8) as char) == c,
        (c as u8 == 34u8) == (c == '"'),
        (c as u8 == 92u8) == (c == '\\'),
{
}

/// The string body the lexer reads from `i`, where the bytes there are the
/// escaped text of `s` followed by a quote.
proof fn lemma_body_reads_back(b: Seq<u8>, i: int, s: Seq<char>)
    requires
        is_ascii_text(s),
        0 <= i,
        i + quote_esc(s).len() < b.len(),
        b.subrange(i, i + quote_esc(s).len()) == ascii_bytes(quote_esc(s)),
        b[i + quote_esc(s).len()] == 34u8,
    ensures
        string_body(b, i) == Ok::<(Seq<char>, int), Seq<char>>((s, i + quote_esc(s).len() + 1)),
    decreases s.len(),
{
    if s.len() == 0 {
        assert(s =~= Seq::<char>::empty());
    } else {
        let c = s[0];
        let t = s.drop_first();
        assert(seq![c] + t =~= s);
        lemma_quote_esc_concat(seq![c], t);
        assert(seq![c].drop_last() =~= Seq::<char>::empty());
        assert(seq![c].last() == c);
        assert(quote_esc(Seq::<char>::empty()) =~= Seq::<char>::empty());
        let e = quote_esc(seq![c]);
        let q = quote_esc(s);
        let n = q.len() as int;
        let m = e.len() as int;
        assert(is_ascii_text(t)) by {
            assert forall|k: int| 0 <= k < t.len() implies (#[trigger] t[k] as u32) < 128 by {
                assert(t[k] == s[k + 1]);
            }
        }
        assert((s[0] as u32) < 128);
        lemma_ascii_char(c);
        if c == '\\' {
            assert(e =~= seq!['\\', '\\']);
        } else if c == '"' {
            assert(e =~= seq!['\\', '"']);
        } else {
            assert(e =~= seq![c]);
        }
        assert(q == e + quote_esc(t));
        let sub = b.subrange(i, i + n);
        assert(sub == ascii_bytes(q));
        assert(b[i] == sub[0] && sub[0] == (q[0] as u8));
        if m == 2 {
            assert(b[i + 1] == sub[1] && sub[1] == (q[1] as u8));
        }
        let qt = quote_esc(t);
        assert(b.subrange(i + m, i + m + qt.len()) =~= ascii_bytes(qt)) by {
            assert forall|k: int| 0 <= k < qt.len() implies #[trigger] b.subrange(i + m, i + m + qt.len())[k]
                == ascii_bytes(qt)[k] by {
                assert(q[m + k] == qt[k]);
                assert(sub[m + k] == b[i + m + k]);
                assert(sub[m + k] == (q[m + k] as u8));
            }
        }
        lemma_body_reads_back(b, i + m, t);
        let end = i + n + 1;
        assert(string_body(b, i + m) == Ok::<(Seq<char>, int), Seq<char>>((t, end)));
        if c == '\\' {
            assert(b[i] == 92u8);
            assert(b[i + 1] == 92u8);
            assert(escape_char(b[i + 1]) == Some('\\'));
            assert(seq!['\\'] + t =~= s);
        } else if c == '"' {
            assert(b[i] == 92u8);
            assert(b[i + 1] == 34u8);
            assert(escape_char(b[i + 1]) == Some('"'));
            assert(seq!['"'] + t =~= s);
        } else {
            assert(b[i] == c as u8);
            assert(b[i] != 92u8 && b[i] != 34u8);
            assert(seq![b[i] as char] + t =~= s);
        }
    }
}

/// The lexer reads the quoted form of ASCII text back as the text: from
/// past the opening quote the string body is `s`, and it ends past the
/// closing quote, whatever bytes follow.
pub proof fn law_quoted_reads_back(s: Seq<char>, rest: Seq<u8>)
    requires
        is_ascii_text(s),
    ensures
        string_body(ascii_bytes(quoted(s)) + rest, 1) == Ok::<(Seq<char>, int), Seq<char>>(
            (s, quoted(s).len() as int),
        ),
{
    reveal_strlit("\"");
    let n = quote_esc(s).len() as int;
    let b = ascii_bytes(quoted(s)) + rest;
    assert(quoted(s).len() == n + 2);
    assert(quoted(s)[0] == '"' && quoted(s)[n + 1] == '"');
    assert(b[0] == 34u8 && b[n + 1] == 34u8);
    assert(b.subrange(1, 1 + n) =~= ascii_bytes(quote_esc(s))) by {
        assert forall|k: int| 0 <= k < n implies #[trigger] b.subrange(1, 1 + n)[k] == ascii_bytes(quote_esc(s))[k] by {
            assert(quoted(s)[1 + k] == quote_esc(s)[k]);
        }
    }
    lemma_body_reads_back(b, 1, s);
}

/// Text without a backslash or a quote is written as it is.
pub proof fn law_quote_plain_text(s: Seq<char>)
    requires
        forall|i: int| 0 <= i < s.len() ==> #[trigger] s[i] != '\\' && s[i] != '"',
    ensures
        quote_esc(s) == s,
    decreases s.len(),
{
    if s.len() > 0 {
        law_quote_plain_text(s.drop_last());
        assert(s.drop_last() + seq![s.last()] =~= s);
    }
}

} // verus!
