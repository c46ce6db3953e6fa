//! Canonical semantic text of values and the logical hash over it.
//!
//! The canonical text tags each scalar with its kind, normalizes decimals
//! and timestamps, escapes strings, sorts map entries by their key's text
//! and embeds the debug text of typed arrays, tables, tensors and deltas.
//! Two float tables come from the caller: the normalized decimal text of
//! each scalar float, and the debug text of each float inside the embedded
//! debug texts.
use crate::canonical::{escape, escaped, normalize_decimal, spec_normalize_decimal};
use crate::chars::{decimal_text, u64_to_decimal};
use crate::debug_text::{
    dbg_delta, dbg_delta_exec, dbg_opt_bytes, dbg_opt_nat, dbg_table, dbg_table_exec, dbg_tensor, dbg_tensor_exec,
    dbg_typed, dbg_typed_exec,
};
use crate::digest::{sha256, spec_sha256};
use crate::error::{SxError, SxErrorCode, SxResult};
use crate::fields::{lemma_dv_fields, lemma_dv_vals};
use crate::formatter::{
    append_str, cat_three, cat_two, float_text, float_text_exec, float_texts_view, join, join_exec, push_part, strs,
    FloatText,
};
use crate::json::{hex_encode, hex_text, i128_to_decimal, int_text, uuid_text, uuid_to_text};
use crate::keys::{key_less, key_lt};
use crate::value::{dv, dv_fields, dv_pairs, dv_vals, SxValue, V};
use crate::value_ops::lemma_dv_pairs;
use vstd::string::StringSliceAdditionalSpecFns;
use vstd::prelude::*;

verus! {

/// What RFC 3339 normalization gives for a text: the instant in UTC with
/// nanoseconds and a `Z`, or the message of the parse error.
pub uninterp spec fn rfc3339_result(s: Seq<char>) -> Result<Seq<char>, Seq<char>>;

/// `chrono::DateTime::parse_from_rfc3339`, then `to_utc` and
/// `to_rfc3339_opts(SecondsFormat::Nanos, true)`: the normalized text, or
/// the parse error's message.
#[verifier::external_body]
fn normalize_rfc3339(s: &str) -> (r: Result<String, String>)
    ensures
        match r {
            Ok(t) => rfc3339_result(s@) == Ok::<Seq<char>, Seq<char>>(t@),
            Err(m) => rfc3339_result(s@) == Err::<Seq<char>, Seq<char>>(m@),
        },
{
    match chrono::DateTime::parse_from_rfc3339(s) {
        Ok(d) => Ok(d.to_utc().to_rfc3339_opts(chrono::SecondsFormat::Nanos, true)),
        Err(e) => Err(e.to_string()),
    }
}

/// The Unicode lowercase of a text.
pub uninterp spec fn lower_text(s: Seq<char>) -> Seq<char>;

/// `str::to_lowercase`.
#[verifier::external_body]
fn lowercase(s: &str) -> (r: String)
    ensures
        r@ == lower_text(s@),
{
    s.to_lowercase()
}

/// Inserts `x` after every pair whose key does not sort after its key.
pub open spec fn insert_stable(s: Seq<(Seq<char>, Seq<char>)>, x: (Seq<char>, Seq<char>)) -> Seq<(Seq<char>, Seq<char>)>
    decreases s.len(),
{
    if s.len() == 0 {
        seq![x]
    } else if key_lt(x.0, s[0].0) {
        seq![x] + s
    } else {
        seq![s[0]] + insert_stable(s.drop_first(), x)
    }
}

/// The pairs stably sorted by key text.
pub open spec fn sort_pairs(s: Seq<(Seq<char>, Seq<char>)>) -> Seq<(Seq<char>, Seq<char>)>
    decreases s.len(),
{
    if s.len() == 0 {
        Seq::empty()
    } else {
        insert_stable(sort_pairs(s.drop_last()), s.last())
    }
}

pub open spec fn pair_texts(s: Seq<(Seq<char>, Seq<char>)>) -> Seq<Seq<char>> {
    s.map_values(|p: (Seq<char>, Seq<char>)| p.0 + ":"@ + p.1)
}

/// `d:scaled@scale` after normalization.
pub open spec fn decimal_canon(scaled: int, scale: nat) -> Seq<char> {
    let n = spec_normalize_decimal(scaled, scale);
    int_text(n.0) + "@"@ + decimal_text(n.1)
}

/// The canonical text of a value, or the message of the error.
pub open spec fn canon(v: V, dft: Seq<(bool, u64, Seq<char>)>, cft: Seq<(bool, u64, Seq<char>)>) -> Result<
    Seq<char>,
    Seq<char>,
>
    decreases v, 0nat,
{
    match v {
        V::Null => Ok("null"@),
        V::Bool(b) => Ok(
            if b {
                "true"@
            } else {
                "false"@
            },
        ),
        V::U8(x) => Ok("u:"@ + decimal_text(x as nat)),
        V::U16(x) => Ok("u:"@ + decimal_text(x as nat)),
        V::U32(x) => Ok("u:"@ + decimal_text(x as nat)),
        V::U64(x) => Ok("u:"@ + decimal_text(x as nat)),
        V::I8(x) => Ok("i:"@ + int_text(x as int)),
        V::I16(x) => Ok("i:"@ + int_text(x as int)),
        V::I32(x) => Ok("i:"@ + int_text(x as int)),
        V::I64(x) => Ok("i:"@ + int_text(x as int)),
        V::F32(b) => Ok("f:"@ + float_text(cft, false, b as u64)),
        V::F64(b) => Ok("f:"@ + float_text(cft, true, b)),
        V::Decimal(s, sc) => Ok("d:"@ + decimal_canon(s as int, sc as nat)),
        V::Money(c, s, sc) => Ok("money:"@ + c + ":"@ + decimal_canon(s as int, sc as nat)),
        V::String(s) => Ok("s:"@ + escaped(s)),
        V::Bytes(b) => Ok("b:"@ + hex_text(b)),
        V::Array(items) => match canon_items(items, dft, cft) {
            Ok(ps) => Ok("["@ + join(ps, ","@) + "]"@),
            Err(m) => Err(m),
        },
        V::Object(fs) => match canon_fields(fs, dft, cft) {
            Ok(ps) => Ok("{"@ + join(ps, ","@) + "}"@),
            Err(m) => Err(m),
        },
        V::MapEntries(ps) => match canon_pairs(ps, dft, cft) {
            Ok(qs) => Ok("map{"@ + join(pair_texts(sort_pairs(qs)), ","@) + "}"@),
            Err(m) => Err(m),
        },
        V::Enum(s) => Ok("enum:"@ + escaped(s)),
        V::Uuid(u) => Ok("uuid:"@ + uuid_text(u)),
        V::Timestamp(s) => match rfc3339_result(s) {
            Ok(t) => Ok("ts:"@ + t),
            Err(e) => Err("invalid timestamp '"@ + s + "': "@ + e),
        },
        V::Date(s) => Ok("date:"@ + s),
        V::Duration(s) => Ok("dur:"@ + s),
        V::Url(s) => Ok("url:"@ + s),
        V::Email(s) => Ok("email:"@ + lower_text(s)),
        V::TypedArray(t) => Ok("typed:"@ + dbg_typed(t, dft)),
        V::Table(cols) => Ok("table:"@ + dbg_table(cols, dft)),
        V::Tensor(shape, data, layout) => Ok("tensor:"@ + dbg_tensor(shape, data, layout, dft)),
        V::Reference(t) => Ok("ref:"@ + t),
        V::BlobRef(u, _, size, hash) => Ok(
            "blob:"@ + u + ":"@ + dbg_opt_nat(
                match size {
                    Some(n) => Some(n as nat),
                    None => None,
                },
            ) + ":"@ + dbg_opt_bytes(hash),
        ),
        V::Delta(from, ops) => Ok("delta:"@ + dbg_delta(from, ops, dft)),
        V::Message(m) => match canon_fields(m.fields, dft, cft) {
            Ok(ps) => Ok("{"@ + join(ps, ","@) + "}"@),
            Err(e) => Err(e),
        },
    }
}

pub open spec fn canon_items(s: Seq<V>, dft: Seq<(bool, u64, Seq<char>)>, cft: Seq<(bool, u64, Seq<char>)>) -> Result<
    Seq<Seq<char>>,
    Seq<char>,
>
    decreases s, 0nat,
{
    if s.len() == 0 {
        Ok(Seq::empty())
    } else {
        match canon_items(s.drop_last(), dft, cft) {
            Err(m) => Err(m),
            Ok(ps) => match canon(s.last(), dft, cft) {
                Err(m) => Err(m),
                Ok(t) => Ok(ps.push(t)),
            },
        }
    }
}

pub open spec fn canon_fields(
    s: Seq<(Seq<char>, V)>,
    dft: Seq<(bool, u64, Seq<char>)>,
    cft: Seq<(bool, u64, Seq<char>)>,
) -> Result<Seq<Seq<char>>, Seq<char>>
    decreases s, 0nat,
{
    if s.len() == 0 {
        Ok(Seq::empty())
    } else {
        match canon_fields(s.drop_last(), dft, cft) {
            Err(m) => Err(m),
            Ok(ps) => match canon(s.last().1, dft, cft) {
                Err(m) => Err(m),
                Ok(t) => Ok(ps.push(escaped(s.last().0) + ":"@ + t)),
            },
        }
    }
}

pub open spec fn canon_pairs(s: Seq<(V, V)>, dft: Seq<(bool, u64, Seq<char>)>, cft: Seq<(bool, u64, Seq<char>)>) -> Result<
    Seq<(Seq<char>, Seq<char>)>,
    Seq<char>,
>
    decreases s, 0nat,
{
    if s.len() == 0 {
        Ok(Seq::empty())
    } else {
        match canon_pairs(s.drop_last(), dft, cft) {
            Err(m) => Err(m),
            Ok(ps) => match canon(s.last().0, dft, cft) {
                Err(m) => Err(m),
                Ok(k) => match canon(s.last().1, dft, cft) {
                    Err(m) => Err(m),
                    Ok(t) => Ok(ps.push((k, t))),
                },
            },
        }
    }
}

// ---------------------------------------------------------------------------
// Executable canonical text
// ---------------------------------------------------------------------------

pub open spec fn pairs_view(v: Seq<(String, String)>) -> Seq<(Seq<char>, Seq<char>)> {
    v.map_values(|p: (String, String)| (p.0@, p.1@))
}

proof fn lemma_insert_stable(s: Seq<(Seq<char>, Seq<char>)>, x: (Seq<char>, Seq<char>), p: int)
    requires
        0 <= p <= s.len(),
        forall|j: int| 0 <= j < p ==> !key_lt(x.0, #[trigger] s[j].0),
        p < s.len() ==> key_lt(x.0, s[p].0),
    ensures
        insert_stable(s, x) == s.insert(p, x),
    decreases p,
{
    if p == 0 {
        if s.len() == 0 {
            assert(s.insert(0, x) =~= seq![x]);
        } else {
            assert(s.insert(0, x) =~= seq![x] + s);
        }
    } else {
        let t = s.drop_first();
        assert forall|j: int| 0 <= j < p - 1 implies !key_lt(x.0, #[trigger] t[j].0) by {
            assert(t[j] == s[j + 1]);
        }
        if p < s.len() {
            assert(t[p - 1] == s[p]);
        }
        lemma_insert_stable(t, x, p - 1);
        assert(seq![s[0]] + t.insert(p - 1, x) =~= s.insert(p, x));
    }
}

fn sort_pairs_exec(ps: &Vec<(String, String)>) -> (r: Vec<(String, String)>)
    ensures
        pairs_view(r@) == sort_pairs(pairs_view(ps@)),
{
    let ghost pv = pairs_view(ps@);
    let mut out: Vec<(String, String)> = Vec::new();
    let mut i: usize = 0;
    assert(pairs_view(out@) =~= sort_pairs(pv.subrange(0, 0)));
    while i < ps.len()
        invariant
            i <= ps@.len(),
            pv == pairs_view(ps@),
            pairs_view(out@) == sort_pairs(pv.subrange(0, i as int)),
        decreases ps.len() - i,
    {
        let ghost before = pairs_view(out@);
        assert(pv.subrange(0, i + 1).drop_last() =~= pv.subrange(0, i as int));
        let mut p: usize = 0;
        while p < out.len() && !key_less(ps[i].0.as_str(), out[p].0.as_str())
            invariant
                i < ps@.len(),
                p <= out@.len(),
                before == pairs_view(out@),
                forall|j: int| 0 <= j < p ==> !key_lt(ps@[i as int].0@, #[trigger] before[j].0),
            decreases out.len() - p,
        {
            p += 1;
        }
        proof {
            lemma_insert_stable(before, pv[i as int], p as int);
        }
        out.insert(p, (ps[i].0.clone(), ps[i].1.clone()));
        assert(pairs_view(out@) =~= before.insert(p as int, pv[i as int]));
        i += 1;
    }
    assert(pv.subrange(0, i as int) =~= pv);
    out
}

fn pair_texts_exec(ps: &Vec<(String, String)>) -> (r: Vec<String>)
    ensures
        strs(r@) == pair_texts(pairs_view(ps@)),
{
    let mut out: Vec<String> = Vec::new();
    let mut i: usize = 0;
    while i < ps.len()
        invariant
            i <= ps@.len(),
            strs(out@) == pair_texts(pairs_view(ps@)).subrange(0, i as int),
        decreases ps.len() - i,
    {
        let t = cat_three(ps[i].0.as_str(), ":", ps[i].1.as_str());
        push_part(&mut out, t);
        assert(strs(out@) =~= pair_texts(pairs_view(ps@)).subrange(0, i + 1));
        i += 1;
    }
    assert(pair_texts(pairs_view(ps@)).subrange(0, i as int) =~= pair_texts(pairs_view(ps@)));
    out
}

fn decimal_canon_exec(scaled: i128, scale: u32) -> (r: String)
    ensures
        r@ == decimal_canon(scaled as int, scale as nat),
{
    let (ns, nsc) = normalize_decimal(scaled, scale);
    cat_three(i128_to_decimal(ns).as_str(), "@", u64_to_decimal(nsc as u64).as_str())
}

fn canon_exec(v: &SxValue, dft: &Vec<FloatText>, cft: &Vec<FloatText>) -> (r: Result<String, String>)
    ensures
        match canon(dv(*v), float_texts_view(dft@), float_texts_view(cft@)) {
            Ok(t) => (r matches Ok(x) && x@ == t),
            Err(m) => (r matches Err(x) && x@ == m),
        },
    decreases v, 0nat,
{
    match v {
        SxValue::Null => Ok("null".to_owned()),
        SxValue::Bool(b) => Ok(
            if *b {
                "true".to_owned()
            } else {
                "false".to_owned()
            },
        ),
        SxValue::U8(x) => Ok(cat_two("u:", u64_to_decimal(*x as u64).as_str())),
        SxValue::U16(x) => Ok(cat_two("u:", u64_to_decimal(*x as u64).as_str())),
        SxValue::U32(x) => Ok(cat_two("u:", u64_to_decimal(*x as u64).as_str())),
        SxValue::U64(x) => Ok(cat_two("u:", u64_to_decimal(*x).as_str())),
        SxValue::I8(x) => Ok(cat_two("i:", i128_to_decimal(*x as i128).as_str())),
        SxValue::I16(x) => Ok(cat_two("i:", i128_to_decimal(*x as i128).as_str())),
        SxValue::I32(x) => Ok(cat_two("i:", i128_to_decimal(*x as i128).as_str())),
        SxValue::I64(x) => Ok(cat_two("i:", i128_to_decimal(*x as i128).as_str())),
        SxValue::F32(b) => Ok(cat_two("f:", float_text_exec(cft, false, *b as u64).as_str())),
        SxValue::F64(b) => Ok(cat_two("f:", float_text_exec(cft, true, *b).as_str())),
        SxValue::Decimal(d) => Ok(cat_two("d:", decimal_canon_exec(d.scaled, d.scale).as_str())),
        SxValue::Money(m) => {
            let mut out = cat_three("money:", m.currency.as_str(), ":");
            append_str(&mut out, decimal_canon_exec(m.scaled as i128, m.scale).as_str());
            Ok(out)
        },
        SxValue::String(s) => Ok(cat_two("s:", escape(s.as_str()).as_str())),
        SxValue::Bytes(b) => Ok(cat_two("b:", hex_encode(b.as_slice()).as_str())),
        SxValue::Array(items) => match canon_items_exec(items, dft, cft) {
            Ok(ps) => Ok(cat_three("[", join_exec(&ps, ",").as_str(), "]")),
            Err(m) => Err(m),
        },
        SxValue::Object(fs) => match canon_fields_exec(fs, dft, cft) {
            Ok(ps) => Ok(cat_three("{", join_exec(&ps, ",").as_str(), "}")),
            Err(m) => Err(m),
        },
        SxValue::MapEntries(ps) => match canon_pairs_exec(ps, dft, cft) {
            Ok(qs) => {
                let sorted = sort_pairs_exec(&qs);
                let texts = pair_texts_exec(&sorted);
                Ok(cat_three("map{", join_exec(&texts, ",").as_str(), "}"))
            },
            Err(m) => Err(m),
        },
        SxValue::Enum(s) => Ok(cat_two("enum:", escape(s.as_str()).as_str())),
        SxValue::Uuid(u) => Ok(cat_two("uuid:", uuid_to_text(u).as_str())),
        SxValue::Timestamp(s) => match normalize_rfc3339(s.as_str()) {
            Ok(t) => Ok(cat_two("ts:", t.as_str())),
            Err(e) => {
                let mut m = cat_three("invalid timestamp '", s.as_str(), "': ");
                append_str(&mut m, e.as_str());
                Err(m)
            },
        },
        SxValue::Date(s) => Ok(cat_two("date:", s.as_str())),
        SxValue::Duration(s) => Ok(cat_two("dur:", s.as_str())),
        SxValue::Url(s) => Ok(cat_two("url:", s.as_str())),
        SxValue::Email(s) => Ok(cat_two("email:", lowercase(s.as_str()).as_str())),
        SxValue::TypedArray(t) => Ok(cat_two("typed:", dbg_typed_exec(t, dft).as_str())),
        SxValue::Table(t) => Ok(cat_two("table:", dbg_table_exec(&t.columns, dft).as_str())),
        SxValue::Tensor(t) => Ok(cat_two("tensor:", dbg_tensor_exec(t, dft).as_str())),
        SxValue::Reference(r) => Ok(cat_two("ref:", r.target.as_str())),
        SxValue::BlobRef(b) => {
            let mut out = cat_three("blob:", b.uri.as_str(), ":");
            let size = match b.size {
                Some(n) => cat_three("Some(", u64_to_decimal(n).as_str(), ")"),
                None => "None".to_owned(),
            };
            append_str(&mut out, size.as_str());
            append_str(&mut out, ":");
            let hash = match &b.hash {
                Some(h) => cat_three("Some(", crate::debug_text::dbg_bytes_exec(h.as_slice()).as_str(), ")"),
                None => "None".to_owned(),
            };
            append_str(&mut out, hash.as_str());
            Ok(out)
        },
        SxValue::Delta(d) => Ok(cat_two("delta:", dbg_delta_exec(&d.from_hash, &d.ops, dft).as_str())),
        SxValue::Message(m) => match canon_fields_exec(&m.fields, dft, cft) {
            Ok(ps) => Ok(cat_three("{", join_exec(&ps, ",").as_str(), "}")),
            Err(e) => Err(e),
        },
    }
}

fn canon_items_exec(items: &Vec<SxValue>, dft: &Vec<FloatText>, cft: &Vec<FloatText>) -> (r: Result<Vec<String>, String>)
    ensures
        match canon_items(dv_vals(items@), float_texts_view(dft@), float_texts_view(cft@)) {
            Ok(ps) => (r matches Ok(x) && strs(x@) == ps),
            Err(m) => (r matches Err(x) && x@ == m),
        },
    decreases items, 1nat,
{
    let ghost xs = dv_vals(items@);
    let ghost dv_ = float_texts_view(dft@);
    let ghost cv = float_texts_view(cft@);
    proof {
        lemma_dv_vals(items@);
    }
    let mut out: Vec<String> = Vec::new();
    let mut i: usize = 0;
    assert(xs.subrange(0, 0) =~= Seq::<V>::empty());
    assert(strs(out@) =~= Seq::<Seq<char>>::empty());
    assert(canon_items(xs.subrange(0, 0), dv_, cv) == Ok::<Seq<Seq<char>>, Seq<char>>(strs(out@)));
    while i < items.len()
        invariant
            i <= items@.len(),
            xs == dv_vals(items@),
            xs.len() == items@.len(),
            forall|k: int| 0 <= k < items@.len() ==> #[trigger] xs[k] == dv(items@[k]),
            dv_ == float_texts_view(dft@),
            cv == float_texts_view(cft@),
            canon_items(xs.subrange(0, i as int), dv_, cv) == Ok::<Seq<Seq<char>>, Seq<char>>(strs(out@)),
        decreases items.len() - i,
    {
        assert(decreases_to!(items => items@[i as int]));
        assert(xs.subrange(0, i + 1).drop_last() =~= xs.subrange(0, i as int));
        match canon_exec(&items[i], dft, cft) {
            Ok(t) => push_part(&mut out, t),
            Err(m) => {
                proof {
                    lemma_canon_items_prefix(xs, (i + 1) as nat, dv_, cv);
                }
                return Err(m);
            },
        }
        i += 1;
    }
    assert(xs.subrange(0, i as int) =~= xs);
    Ok(out)
}

proof fn lemma_canon_items_prefix(xs: Seq<V>, n: nat, d: Seq<(bool, u64, Seq<char>)>, c: Seq<(bool, u64, Seq<char>)>)
    requires
        n <= xs.len(),
        canon_items(xs.subrange(0, n as int), d, c) is Err,
    ensures
        canon_items(xs, d, c) == canon_items(xs.subrange(0, n as int), d, c),
    decreases xs.len() - n,
{
    if n < xs.len() {
        assert(xs.subrange(0, (n + 1) as int).drop_last() =~= xs.subrange(0, n as int));
        lemma_canon_items_prefix(xs, n + 1, d, c);
    } else {
        assert(xs.subrange(0, n as int) =~= xs);
    }
}

proof fn lemma_canon_fields_prefix(
    xs: Seq<(Seq<char>, V)>,
    n: nat,
    d: Seq<(bool, u64, Seq<char>)>,
    c: Seq<(bool, u64, Seq<char>)>,
)
    requires
        n <= xs.len(),
        canon_fields(xs.subrange(0, n as int), d, c) is Err,
    ensures
        canon_fields(xs, d, c) == canon_fields(xs.subrange(0, n as int), d, c),
    decreases xs.len() - n,
{
    if n < xs.len() {
        assert(xs.subrange(0, (n + 1) as int).drop_last() =~= xs.subrange(0, n as int));
        lemma_canon_fields_prefix(xs, n + 1, d, c);
    } else {
        assert(xs.subrange(0, n as int) =~= xs);
    }
}

proof fn lemma_canon_pairs_prefix(xs: Seq<(V, V)>, n: nat, d: Seq<(bool, u64, Seq<char>)>, c: Seq<(bool, u64, Seq<char>)>)
    requires
        n <= xs.len(),
        canon_pairs(xs.subrange(0, n as int), d, c) is Err,
    ensures
        canon_pairs(xs, d, c) == canon_pairs(xs.subrange(0, n as int), d, c),
    decreases xs.len() - n,
{
    if n < xs.len() {
        assert(xs.subrange(0, (n + 1) as int).drop_last() =~= xs.subrange(0, n as int));
        lemma_canon_pairs_prefix(xs, n + 1, d, c);
    } else {
        assert(xs.subrange(0, n as int) =~= xs);
    }
}

fn canon_fields_exec(fs: &Vec<(String, SxValue)>, dft: &Vec<FloatText>, cft: &Vec<FloatText>) -> (r: Result<Vec<String>, String>)
    ensures
        match canon_fields(dv_fields(fs@), float_texts_view(dft@), float_texts_view(cft@)) {
            Ok(ps) => (r matches Ok(x) && strs(x@) == ps),
            Err(m) => (r matches Err(x) && x@ == m),
        },
    decreases fs, 1nat,
{
    let ghost xs = dv_fields(fs@);
    let ghost dv_ = float_texts_view(dft@);
    let ghost cv = float_texts_view(cft@);
    proof {
        lemma_dv_fields(fs@);
    }
    let mut out: Vec<String> = Vec::new();
    let mut i: usize = 0;
    assert(xs.subrange(0, 0) =~= Seq::<(Seq<char>, V)>::empty());
    assert(strs(out@) =~= Seq::<Seq<char>>::empty());
    assert(canon_fields(xs.subrange(0, 0), dv_, cv) == Ok::<Seq<Seq<char>>, Seq<char>>(strs(out@)));
    while i < fs.len()
        invariant
            i <= fs@.len(),
            xs == dv_fields(fs@),
            xs.len() == fs@.len(),
            forall|k: int| 0 <= k < fs@.len() ==> #[trigger] xs[k] == (fs@[k].0@, dv(fs@[k].1)),
            dv_ == float_texts_view(dft@),
            cv == float_texts_view(cft@),
            canon_fields(xs.subrange(0, i as int), dv_, cv) == Ok::<Seq<Seq<char>>, Seq<char>>(strs(out@)),
        decreases fs.len() - i,
    {
        assert(decreases_to!(fs => fs@[i as int].1));
        assert(xs.subrange(0, i + 1).drop_last() =~= xs.subrange(0, i as int));
        match canon_exec(&fs[i].1, dft, cft) {
            Ok(t) => push_part(&mut out, cat_three(escape(fs[i].0.as_str()).as_str(), ":", t.as_str())),
            Err(m) => {
                proof {
                    lemma_canon_fields_prefix(xs, (i + 1) as nat, dv_, cv);
                }
                return Err(m);
            },
        }
        i += 1;
    }
    assert(xs.subrange(0, i as int) =~= xs);
    Ok(out)
}

fn canon_pairs_exec(ps: &Vec<(SxValue, SxValue)>, dft: &Vec<FloatText>, cft: &Vec<FloatText>) -> (r: Result<
    Vec<(String, String)>,
    String,
>)
    ensures
        match canon_pairs(dv_pairs(ps@), float_texts_view(dft@), float_texts_view(cft@)) {
            Ok(qs) => (r matches Ok(x) && pairs_view(x@) == qs),
            Err(m) => (r matches Err(x) && x@ == m),
        },
    decreases ps, 1nat,
{
    let ghost xs = dv_pairs(ps@);
    let ghost dv_ = float_texts_view(dft@);
    let ghost cv = float_texts_view(cft@);
    proof {
        lemma_dv_pairs(ps@);
    }
    let mut out: Vec<(String, String)> = Vec::new();
    let mut i: usize = 0;
    assert(xs.subrange(0, 0) =~= Seq::<(V, V)>::empty());
    assert(pairs_view(out@) =~= Seq::<(Seq<char>, Seq<char>)>::empty());
    assert(canon_pairs(xs.subrange(0, 0), dv_, cv) == Ok::<Seq<(Seq<char>, Seq<char>)>, Seq<char>>(pairs_view(out@)));
    while i < ps.len()
        invariant
            i <= ps@.len(),
            xs == dv_pairs(ps@),
            xs.len() == ps@.len(),
            forall|k: int| 0 <= k < ps@.len() ==> #[trigger] xs[k] == (dv(ps@[k].0), dv(ps@[k].1)),
            dv_ == float_texts_view(dft@),
            cv == float_texts_view(cft@),
            canon_pairs(xs.subrange(0, i as int), dv_, cv) == Ok::<Seq<(Seq<char>, Seq<char>)>, Seq<char>>(
                pairs_view(out@),
            ),
        decreases ps.len() - i,
    {
        assert(decreases_to!(ps => ps@[i as int].0));
        assert(decreases_to!(ps => ps@[i as int].1));
        assert(xs.subrange(0, i + 1).drop_last() =~= xs.subrange(0, i as int));
        let k = match canon_exec(&ps[i].0, dft, cft) {
            Ok(k) => k,
            Err(m) => {
                proof {
                    lemma_canon_pairs_prefix(xs, (i + 1) as nat, dv_, cv);
                }
                return Err(m);
            },
        };
        let t = match canon_exec(&ps[i].1, dft, cft) {
            Ok(t) => t,
            Err(m) => {
                proof {
                    lemma_canon_pairs_prefix(xs, (i + 1) as nat, dv_, cv);
                }
                return Err(m);
            },
        };
        let ghost before = pairs_view(out@);
        out.push((k, t));
        assert(pairs_view(out@) =~= before.push((k@, t@)));
        i += 1;
    }
    assert(xs.subrange(0, i as int) =~= xs);
    Ok(out)
}

/// The canonical text of a value; `debug_floats` gives the float texts of
/// the embedded debug texts, `canon_floats` those of scalar floats.  A
/// timestamp that is not RFC 3339 is a `ValidationError`.
pub fn canonicalize(value: &SxValue, debug_floats: &Vec<FloatText>, canon_floats: &Vec<FloatText>) -> (r: SxResult<String>)
    ensures
        match canon(dv(*value), float_texts_view(debug_floats@), float_texts_view(canon_floats@)) {
            Ok(t) => (r matches Ok(s) && s@ == t),
            Err(m) => (r matches Err(e) && e.code == SxErrorCode::ValidationError && e.message@ == m),
        },
{
    match canon_exec(value, debug_floats, canon_floats) {
        Ok(s) => Ok(s),
        Err(m) => Err(SxError::new(SxErrorCode::ValidationError, m)),
    }
}

/// The SHA-256 digest of the UTF-8 bytes of the canonical text.
pub fn logical_hash(value: &SxValue, debug_floats: &Vec<FloatText>, canon_floats: &Vec<FloatText>) -> (r: SxResult<[u8; 32]>)
    ensures
        match canon(dv(*value), float_texts_view(debug_floats@), float_texts_view(canon_floats@)) {
            Ok(t) => (r matches Ok(h) && h@ == spec_sha256(vstd::utf8::encode_utf8(t))),
            Err(m) => (r matches Err(e) && e.code == SxErrorCode::ValidationError && e.message@ == m),
        },
{
    let text = match canonicalize(value, debug_floats, canon_floats) {
        Ok(t) => t,
        Err(e) => {
            return Err(e);
        },
    };
    let d = sha256(text.as_str().as_bytes());
    let mut out = [0u8; 32];
    let mut i: usize = 0;
    while i < 32
        invariant
            i <= 32,
            d@.len() == 32,
            forall|k: int| 0 <= k < i ==> out@[k] == d@[k],
        decreases 32 - i,
    {
        out.set(i, d[i]);
        i += 1;
    }
    assert(out@ =~= d@);
    Ok(out)
}

/// True when both values have the same logical hash.
pub fn logically_equal(a: &SxValue, b: &SxValue, debug_floats: &Vec<FloatText>, canon_floats: &Vec<FloatText>) -> (r: SxResult<bool>)
    ensures
        match (
            canon(dv(*a), float_texts_view(debug_floats@), float_texts_view(canon_floats@)),
            canon(dv(*b), float_texts_view(debug_floats@), float_texts_view(canon_floats@)),
        ) {
            (Ok(x), Ok(y)) => r == Ok::<bool, SxError>(
                spec_sha256(vstd::utf8::encode_utf8(x)) == spec_sha256(vstd::utf8::encode_utf8(y)),
            ),
            (Err(m), _) => (r matches Err(e) && e.message@ == m),
            (Ok(_), Err(m)) => (r matches Err(e) && e.message@ == m),
        },
{
    let ha = match logical_hash(a, debug_floats, canon_floats) {
        Ok(h) => h,
        Err(e) => {
            return Err(e);
        },
    };
    let hb = match logical_hash(b, debug_floats, canon_floats) {
        Ok(h) => h,
        Err(e) => {
            return Err(e);
        },
    };
    Ok(digests_equal(&ha, &hb))
}

fn digests_equal(a: &[u8; 32], b: &[u8; 32]) -> (r: bool)
    ensures
        r == (a@ == b@),
{
    let mut i: usize = 0;
    while i < 32
        invariant
            i <= 32,
            a@.len() == 32,
            b@.len() == 32,
            forall|k: int| 0 <= k < i ==> a@[k] == b@[k],
        decreases 32 - i,
    {
        if a[i] != b[i] {
            assert(a@[i as int] != b@[i as int]);
            return false;
        }
        i += 1;
    }
    assert(a@ =~= b@);
    true
}

/// Signing is not supported: always `UnsupportedFeature`.
pub fn sign_value(value: &SxValue, algorithm: &str, private_key: &[u8]) -> (r: SxResult<Vec<u8>>)
    ensures
        r matches Err(e) && e.code == SxErrorCode::UnsupportedFeature
            && e.message@ == "signature algorithms are unsupported in v1; hash-only mode implemented"@,
{
    Err(SxError::msg(SxErrorCode::UnsupportedFeature, "signature algorithms are unsupported in v1; hash-only mode implemented"))
}

/// Verifying signatures is not supported: always `UnsupportedFeature`.
pub fn verify_signature(value: &SxValue, algorithm: &str, public_key: &[u8], signature: &[u8]) -> (r: SxResult<bool>)
    ensures
        r matches Err(e) && e.code == SxErrorCode::UnsupportedFeature
            && e.message@ == "signature algorithms are unsupported in v1; hash-only mode implemented"@,
{
    Err(SxError::msg(SxErrorCode::UnsupportedFeature, "signature algorithms are unsupported in v1; hash-only mode implemented"))
}


/// A scaled decimal and the same decimal with one more digit of scale
/// (scaled by ten) normalize alike.
pub proof fn lemma_normalize_rescaled(s: int, sc: nat)
    ensures
        spec_normalize_decimal(s * 10, sc + 1) == spec_normalize_decimal(s, sc),
{
    assert((s * 10) % 10 == 0 && (s * 10) / 10 == s) by (nonlinear_arith);
}

/// Canonical text does not depend on the scale an amount of money is
/// written with: `s` at scale `sc` and `10 * s` at scale `sc + 1` are the
/// same amount and have the same canonical text.
pub proof fn law_canon_money_rescaled(c: Seq<char>, s: i64, sc: u32, dft: Seq<(bool, u64, Seq<char>)>, cft: Seq<(bool, u64, Seq<char>)>)
    requires
        i64::MIN <= s * 10 <= i64::MAX,
        sc < u32::MAX,
    ensures
        canon(V::Money(c, (s * 10) as i64, (sc + 1) as u32), dft, cft) == canon(V::Money(c, s, sc), dft, cft),
{
    lemma_normalize_rescaled(s as int, sc as nat);
    assert(((s * 10) as i64) as int == (s as int) * 10);
    assert(((sc + 1) as u32) as nat == (sc as nat) + 1);
}

/// Canonical text does not depend on the scale a decimal is written with.
pub proof fn law_canon_decimal_rescaled(s: i128, sc: u32, dft: Seq<(bool, u64, Seq<char>)>, cft: Seq<(bool, u64, Seq<char>)>)
    requires
        i128::MIN <= s * 10 <= i128::MAX,
        sc < u32::MAX,
    ensures
        canon(V::Decimal((s * 10) as i128, (sc + 1) as u32), dft, cft) == canon(V::Decimal(s, sc), dft, cft),
{
    lemma_normalize_rescaled(s as int, sc as nat);
    assert(((s * 10) as i128) as int == (s as int) * 10);
    assert(((sc + 1) as u32) as nat == (sc as nat) + 1);
}

} // verus!
