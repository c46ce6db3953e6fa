//! The schema hash: SHA-256 over a canonical text of the schema, one line
//! for its name and version, then one line per field in ascending id order
//! (fields with equal ids keep their order), each showing the field's type
//! and default in their debug form and its hints joined by `|`.
use crate::chars::{decimal_text, u64_to_decimal};
use crate::debug_text::{dbg, debug_value};
use crate::digest::{sha256, spec_sha256};
use crate::formatter::{append_str, cat_three, cat_two, float_texts_view, join, join_exec, push_part, strs, FloatText};
use crate::parser::{debug_quote, str_debug};
use crate::schema::{lemma_ty_entries, ty_entries, ty_view, Schema, SchemaField, SchemaType, Ty};
use crate::value::{dv, SxTypedArrayType, V};
use vstd::prelude::*;
use vstd::utf8::encode_utf8;

verus! {

pub open spec fn element_name(e: SxTypedArrayType) -> Seq<char> {
    match e {
        SxTypedArrayType::U8 => "U8"@,
        SxTypedArrayType::I32 => "I32"@,
        SxTypedArrayType::F32 => "F32"@,
        SxTypedArrayType::F64 => "F64"@,
        SxTypedArrayType::Bool => "Bool"@,
    }
}

pub open spec fn quoted_all(s: Seq<Seq<char>>) -> Seq<Seq<char>>
    decreases s.len(),
{
    if s.len() == 0 {
        Seq::empty()
    } else {
        quoted_all(s.drop_last()).push(str_debug(s.last()))
    }
}

/// The debug text of a schema type; a table's columns show as a map.
pub open spec fn ty_dbg(t: Ty) -> Seq<char>
    decreases t, 0nat,
{
    match t {
        Ty::Primitive(p) => "Primitive("@ + str_debug(p) + ")"@,
        Ty::Array(inner) => "Array("@ + ty_dbg(*inner) + ")"@,
        Ty::TypedArray(e) => "TypedArray("@ + element_name(e) + ")"@,
        Ty::Object(n) => "Object("@ + str_debug(n) + ")"@,
        Ty::Enum(vals) => "Enum(["@ + join(quoted_all(vals), ", "@) + "])"@,
        Ty::Table(cols) => "Table({"@ + join(col_dbgs(cols), ", "@) + "})"@,
    }
}

pub open spec fn col_dbgs(s: Seq<(Seq<char>, Ty)>) -> Seq<Seq<char>>
    decreases s, 0nat,
{
    if s.len() == 0 {
        Seq::empty()
    } else {
        col_dbgs(s.drop_last()).push(str_debug(s.last().0) + ": "@ + ty_dbg(s.last().1))
    }
}

pub open spec fn default_dbg(d: Option<V>, ft: Seq<(bool, u64, Seq<char>)>) -> Seq<char> {
    match d {
        Some(x) => "Some("@ + dbg(x, ft) + ")"@,
        None => "None"@,
    }
}

/// The line of one field, with its id.
pub open spec fn field_entry(f: SchemaField, ft: Seq<(bool, u64, Seq<char>)>) -> (u32, Seq<char>) {
    (
        f.id,
        "#"@ + decimal_text(f.id as nat) + " "@ + f.name@ + (if f.optional {
            "?"@
        } else {
            Seq::empty()
        }) + ": "@ + ty_dbg(ty_view(f.ty)) + " default:"@ + default_dbg(
            match f.default {
                Some(d) => Some(dv(d)),
                None => None,
            },
            ft,
        ) + " hints:"@ + join(strs(f.hints@), "|"@),
    )
}

pub open spec fn field_entries(fs: Seq<SchemaField>, ft: Seq<(bool, u64, Seq<char>)>) -> Seq<(u32, Seq<char>)>
    decreases fs.len(),
{
    if fs.len() == 0 {
        Seq::empty()
    } else {
        field_entries(fs.drop_last(), ft).push(field_entry(fs.last(), ft))
    }
}

/// Inserts `x` after every entry whose id is not larger.
pub open spec fn insert_by_id(s: Seq<(u32, Seq<char>)>, x: (u32, Seq<char>)) -> Seq<(u32, Seq<char>)>
    decreases s.len(),
{
    if s.len() == 0 {
        seq![x]
    } else if x.0 < s[0].0 {
        seq![x] + s
    } else {
        seq![s[0]] + insert_by_id(s.drop_first(), x)
    }
}

/// The entries stably sorted by id.
pub open spec fn sort_by_id(s: Seq<(u32, Seq<char>)>) -> Seq<(u32, Seq<char>)>
    decreases s.len(),
{
    if s.len() == 0 {
        Seq::empty()
    } else {
        insert_by_id(sort_by_id(s.drop_last()), s.last())
    }
}

pub open spec fn texts_of(s: Seq<(u32, Seq<char>)>) -> Seq<Seq<char>>
    decreases s.len(),
{
    if s.len() == 0 {
        Seq::empty()
    } else {
        texts_of(s.drop_last()).push(s.last().1)
    }
}

/// The canonical text of a schema.
pub open spec fn schema_canon(schema: Schema, ft: Seq<(bool, u64, Seq<char>)>) -> Seq<char> {
    join(
        seq!["schema "@ + schema.name@ + " v"@ + decimal_text(schema.version as nat)] + texts_of(
            sort_by_id(field_entries(schema.fields@, ft)),
        ),
        "\n"@,
    )
}

fn element_name_exec(e: SxTypedArrayType) -> (r: &'static str)
    ensures
        r@ == element_name(e),
{
    match e {
        SxTypedArrayType::U8 => "U8",
        SxTypedArrayType::I32 => "I32",
        SxTypedArrayType::F32 => "F32",
        SxTypedArrayType::F64 => "F64",
        SxTypedArrayType::Bool => "Bool",
    }
}

fn quoted_all_exec(vals: &Vec<String>) -> (r: Vec<String>)
    ensures
        strs(r@) == quoted_all(strs(vals@)),
{
    let mut out: Vec<String> = Vec::new();
    let mut i: usize = 0;
    assert(strs(out@) =~= quoted_all(strs(vals@).take(0)));
    while i < vals.len()
        invariant
            i <= vals@.len(),
            strs(out@) == quoted_all(strs(vals@).take(i as int)),
        decreases vals.len() - i,
    {
        assert(strs(vals@).take(i + 1).drop_last() =~= strs(vals@).take(i as int));
        push_part(&mut out, debug_quote(vals[i].as_str()));
        i += 1;
    }
    assert(strs(vals@).take(i as int) =~= strs(vals@));
    out
}

fn ty_dbg_exec(t: &SchemaType) -> (r: String)
    ensures
        r@ == ty_dbg(ty_view(*t)),
    decreases t, 0nat,
{
    match t {
        SchemaType::Primitive(p) => cat_three("Primitive(", debug_quote(p.as_str()).as_str(), ")"),
        SchemaType::Array(inner) => cat_three("Array(", ty_dbg_exec(inner).as_str(), ")"),
        SchemaType::TypedArray(e) => cat_three("TypedArray(", element_name_exec(*e), ")"),
        SchemaType::Object(n) => cat_three("Object(", debug_quote(n.as_str()).as_str(), ")"),
        SchemaType::Enum(vals) => cat_three("Enum([", join_exec(&quoted_all_exec(vals), ", ").as_str(), "])"),
        SchemaType::Table(cols) => cat_three("Table({", join_exec(&col_dbgs_exec(cols), ", ").as_str(), "})"),
    }
}

fn col_dbgs_exec(cols: &Vec<(String, SchemaType)>) -> (r: Vec<String>)
    ensures
        strs(r@) == col_dbgs(ty_entries(cols@)),
    decreases cols, 1nat,
{
    let ghost xs = ty_entries(cols@);
    proof {
        lemma_ty_entries(cols@);
    }
    let mut out: Vec<String> = Vec::new();
    let mut i: usize = 0;
    assert(strs(out@) =~= col_dbgs(xs.take(0)));
    while i < cols.len()
        invariant
            i <= cols@.len(),
            xs == ty_entries(cols@),
            xs.len() == cols@.len(),
            forall|k: int| 0 <= k < cols@.len() ==> #[trigger] xs[k] == (cols@[k].0@, ty_view(cols@[k].1)),
            strs(out@) == col_dbgs(xs.take(i as int)),
        decreases cols.len() - i,
    {
        assert(decreases_to!(cols => cols@[i as int].1));
        assert(xs.take(i + 1).drop_last() =~= xs.take(i as int));
        let line = cat_three(debug_quote(cols[i].0.as_str()).as_str(), ": ", ty_dbg_exec(&cols[i].1).as_str());
        push_part(&mut out, line);
        i += 1;
    }
    assert(xs.take(i as int) =~= xs);
    out
}

fn field_line_exec(f: &SchemaField, ft: &Vec<FloatText>) -> (r: String)
    ensures
        r@ == field_entry(*f, float_texts_view(ft@)).1,
{
    let mut out = cat_three("#", u64_to_decimal(f.id as u64).as_str(), " ");
    append_str(&mut out, f.name.as_str());
    if f.optional {
        append_str(&mut out, "?");
    }
    append_str(&mut out, ": ");
    append_str(&mut out, ty_dbg_exec(&f.ty).as_str());
    append_str(&mut out, " default:");
    match &f.default {
        Some(d) => {
            append_str(&mut out, cat_three("Some(", debug_value(d, ft).as_str(), ")").as_str());
        },
        None => append_str(&mut out, "None"),
    }
    append_str(&mut out, " hints:");
    append_str(&mut out, join_exec(&f.hints, "|").as_str());
    out
}

proof fn lemma_insert_by_id(s: Seq<(u32, Seq<char>)>, x: (u32, Seq<char>), p: int)
    requires
        0 <= p <= s.len(),
        forall|j: int| 0 <= j < p ==> !(x.0 < (#[trigger] s[j]).0),
        p < s.len() ==> x.0 < s[p].0,
    ensures
        insert_by_id(s, x) == s.insert(p, x),
    decreases p,
{
    if p == 0 {
        if s.len() == 0 {
            assert(s.insert(0, x) =~= seq![x]);
        } else {
            assert(s.insert(0, x) =~= seq![x] + s);
        }
    } else {
        let t = s.drop_first();
        assert forall|j: int| 0 <= j < p - 1 implies !(x.0 < (#[trigger] t[j]).0) by {
            assert(t[j] == s[j + 1]);
        }
        if p < s.len() {
            assert(t[p - 1] == s[p]);
        }
        lemma_insert_by_id(t, x, p - 1);
        assert(seq![s[0]] + t.insert(p - 1, x) =~= s.insert(p, x));
    }
}

pub open spec fn entries_view(v: Seq<(u32, String)>) -> Seq<(u32, Seq<char>)> {
    v.map_values(|p: (u32, String)| (p.0, p.1@))
}

fn sorted_lines(fs: &Vec<SchemaField>, ft: &Vec<FloatText>) -> (r: Vec<String>)
    ensures
        strs(r@) == texts_of(sort_by_id(field_entries(fs@, float_texts_view(ft@)))),
{
    let ghost es = field_entries(fs@, float_texts_view(ft@));
    proof {
        lemma_field_entries_prefix(fs@, float_texts_view(ft@), 0);
    }
    let mut out: Vec<(u32, String)> = Vec::new();
    let mut i: usize = 0;
    assert(entries_view(out@) =~= sort_by_id(es.take(0)));
    assert(field_entries(fs@.take(0), float_texts_view(ft@)) =~= es.take(0));
    while i < fs.len()
        invariant
            i <= fs@.len(),
            es == field_entries(fs@, float_texts_view(ft@)),
            es.len() == fs@.len(),
            es.take(i as int) == field_entries(fs@.take(i as int), float_texts_view(ft@)),
            entries_view(out@) == sort_by_id(es.take(i as int)),
        decreases fs.len() - i,
    {
        let ghost before = entries_view(out@);
        let line = field_line_exec(&fs[i], ft);
        let id = fs[i].id;
        let ghost x = (id, line@);
        proof {
            assert(fs@.take(i + 1).drop_last() =~= fs@.take(i as int));
            assert(fs@.take(i + 1).last() == fs@[i as int]);
            assert(field_entries(fs@.take(i + 1), float_texts_view(ft@)) == es.take(i as int).push(x));
            lemma_field_entries_prefix(fs@, float_texts_view(ft@), (i + 1) as nat);
            assert(es.take(i + 1).drop_last() =~= es.take(i as int));
            assert(es.take(i + 1).last() == x);
        }
        let mut p: usize = 0;
        while p < out.len() && !(id < out[p].0)
            invariant
                p <= out@.len(),
                before == entries_view(out@),
                forall|j: int| 0 <= j < p ==> !(id < (#[trigger] before[j]).0),
            decreases out.len() - p,
        {
            p += 1;
        }
        proof {
            lemma_insert_by_id(before, x, p as int);
        }
        out.insert(p, (id, line));
        assert(entries_view(out@) =~= before.insert(p as int, x));
        i += 1;
    }
    assert(es.take(i as int) =~= es);
    let mut texts: Vec<String> = Vec::new();
    let mut k: usize = 0;
    let ghost sorted = entries_view(out@);
    assert(strs(texts@) =~= texts_of(sorted.take(0)));
    while k < out.len()
        invariant
            k <= out@.len(),
            sorted == entries_view(out@),
            strs(texts@) == texts_of(sorted.take(k as int)),
        decreases out.len() - k,
    {
        assert(sorted.take(k + 1).drop_last() =~= sorted.take(k as int));
        push_part(&mut texts, out[k].1.clone());
        k += 1;
    }
    assert(sorted.take(k as int) =~= sorted);
    texts
}

proof fn lemma_field_entries_prefix(fs: Seq<SchemaField>, ft: Seq<(bool, u64, Seq<char>)>, n: nat)
    requires
        n <= fs.len(),
    ensures
        field_entries(fs, ft).take(n as int) == field_entries(fs.take(n as int), ft),
        field_entries(fs, ft).len() == fs.len(),
    decreases fs.len(),
{
    if fs.len() > 0 {
        if n == fs.len() {
            assert(fs.take(n as int) =~= fs);
            lemma_field_entries_prefix(fs.drop_last(), ft, 0);
            assert(field_entries(fs, ft).take(n as int) =~= field_entries(fs, ft));
        } else {
            lemma_field_entries_prefix(fs.drop_last(), ft, n);
            assert(fs.drop_last().take(n as int) =~= fs.take(n as int));
            assert(field_entries(fs, ft).take(n as int) =~= field_entries(fs.drop_last(), ft).take(n as int));
        }
    }
}

/// The schema hash: SHA-256 over the UTF-8 bytes of the schema's canonical
/// text.  `floats` gives the debug text of each float in the defaults.
pub fn schema_hash(schema: &Schema, floats: &Vec<FloatText>) -> (r: [u8; 32])
    ensures
        r@ == spec_sha256(encode_utf8(schema_canon(*schema, float_texts_view(floats@)))),
{
    let mut lines: Vec<String> = Vec::new();
    let head = cat_three("schema ", schema.name.as_str(), " v");
    push_part(&mut lines, cat_two(head.as_str(), u64_to_decimal(schema.version as u64).as_str()));
    let rest = sorted_lines(&schema.fields, floats);
    let ghost first = strs(lines@);
    let mut k: usize = 0;
    while k < rest.len()
        invariant
            k <= rest@.len(),
            strs(lines@) == first + strs(rest@).take(k as int),
        decreases rest.len() - k,
    {
        push_part(&mut lines, rest[k].clone());
        assert(strs(rest@).take(k + 1) =~= strs(rest@).take(k as int).push(rest@[k as int]@));
        k += 1;
    }
    assert(strs(rest@).take(k as int) =~= strs(rest@));
    let ghost headline = "schema "@ + schema.name@ + " v"@ + decimal_text(schema.version as nat);
    assert(first =~= seq![headline]);
    assert(strs(lines@) == seq![headline] + texts_of(sort_by_id(field_entries(schema.fields@, float_texts_view(floats@)))));
    let canon = join_exec(&lines, "\n");
    assert(canon@ == schema_canon(*schema, float_texts_view(floats@)));
    let d = sha256(canon.as_str().as_bytes());
    let mut out = [0u8; 32];
    let mut i: usize = 0;
    while i < 32
        invariant
            i <= 32,
            d@.len() == 32,
            forall|j: int| 0 <= j < i ==> out@[j] == d@[j],
        decreases 32 - i,
    {
        out.set(i, d[i]);
        i += 1;
    }
    assert(out@ =~= d@);
    out
}

} // verus!
