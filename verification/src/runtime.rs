//! Views over encoded messages and decoded values: lazy decoding, field
//! reads, path projection, and row filters on tables.
use crate::codec::{binary_decode, decode_binary};
use crate::copy::{copy_column, copy_value};
use crate::decode::DecodeStats;
use crate::delta::value_at;
use crate::equality::{values_equal, veq};
use crate::error::{SxError, SxErrorCode, SxResult};
use crate::fields::{
    find_key, insert_entry, insert_field, key_position, lemma_dv_fields, lemma_dv_vals, lemma_insert_at,
    lemma_insert_sorted, lookup,
};
use crate::keys::{key_lt, sorted_keys, sorted_str_keys, str_equal};
use crate::path::{path_text, Seg, SxPath, SxPathSegment};
use crate::value::{dv, dv_column, dv_columns, dv_fields, dv_vals, SxColumn, SxTable, SxTypedArray, SxValue, V, VColumn, VTyped};
use crate::value_ops::{column_len, lemma_dv_columns, lemma_lookup_first, lemma_lookup_none};
use vstd::prelude::*;

verus! {

/// Lazy message view over SX binary bytes.
pub struct SxMessageView<'a> {
    bytes: &'a [u8],
}

/// Object view.
pub struct SxObjectView<'a> {
    object: &'a Vec<(String, SxValue)>,
}

/// Array view.
pub struct SxArrayView<'a> {
    array: &'a Vec<SxValue>,
}

/// String view.
pub struct SxStringView<'a> {
    value: &'a str,
}

/// Typed array view.
pub struct SxTypedArrayView<'a> {
    value: &'a SxTypedArray,
}

/// Table view.
pub struct SxTableView<'a> {
    table: &'a SxTable,
}

/// Comparisons of the numeric filter.
#[derive(Debug, Clone, Copy, PartialEq, Eq, Structural)]
pub enum NumericOp {
    Gt,
    Ge,
    Lt,
    Le,
    Eq,
}

// ---------------------------------------------------------------------------
// Specification
// ---------------------------------------------------------------------------

/// The top-level field `name` of an object or of a message's fields.
pub open spec fn hot_field_of(v: V, name: Seq<char>) -> Option<V> {
    match v {
        V::Object(fs) => lookup(fs, name),
        V::Message(m) => lookup(m.fields, name),
        _ => None,
    }
}

/// The value at a path, when every segment finds its key or index.
pub open spec fn path_value(v: V, p: Seq<Seg>) -> Option<V> {
    match value_at(v, p, 0) {
        Ok(x) => Some(x),
        Err(_) => None,
    }
}

/// The object holding, under the text of each path, the value found there;
/// later paths with the same text win.
pub open spec fn projection(v: V, ps: Seq<Seq<Seg>>) -> Seq<(Seq<char>, V)>
    decreases ps.len(),
{
    if ps.len() == 0 {
        Seq::empty()
    } else {
        let rest = projection(v, ps.drop_last());
        match path_value(v, ps.last()) {
            Some(x) => insert_entry(rest, path_text(ps.last()), x),
            None => rest,
        }
    }
}

/// The value in row `i` of a column.
pub open spec fn cell(c: VColumn, i: int) -> V {
    match c {
        VColumn::Values(vs) => vs[i],
        VColumn::Typed(VTyped::U8(x)) => V::U8(x[i]),
        VColumn::Typed(VTyped::I32(x)) => V::I32(x[i]),
        VColumn::Typed(VTyped::F32(x)) => V::F32(x[i]),
        VColumn::Typed(VTyped::F64(x)) => V::F64(x[i]),
        VColumn::Typed(VTyped::Bool(x)) => V::Bool(x[i]),
    }
}

/// The number of rows of a table: that of its first column.
pub open spec fn rows_of(cols: Seq<(Seq<char>, VColumn)>) -> nat {
    if cols.len() == 0 {
        0
    } else {
        column_len(cols[0].1)
    }
}

/// Rows of the generic values kept by a mask; rows past the mask are
/// dropped.
pub open spec fn keep_rows(vs: Seq<V>, mask: Seq<bool>) -> Seq<V>
    decreases vs.len(),
{
    if vs.len() == 0 {
        Seq::empty()
    } else {
        let i = vs.len() - 1;
        keep_rows(vs.drop_last(), mask) + if i < mask.len() && mask[i] {
            seq![vs[i]]
        } else {
            Seq::empty()
        }
    }
}

/// A table with a row mask applied: generic columns keep the masked rows,
/// typed columns stay whole.
pub open spec fn masked(cols: Seq<(Seq<char>, VColumn)>, mask: Seq<bool>) -> Seq<(Seq<char>, VColumn)> {
    Seq::new(
        cols.len(),
        |j: int|
            (
                cols[j].0,
                match cols[j].1 {
                    VColumn::Values(vs) => VColumn::Values(keep_rows(vs, mask)),
                    VColumn::Typed(t) => VColumn::Typed(t),
                },
            ),
    )
}

/// Filtering the rows of a table on one column: `InvalidPath` without the
/// column, `InvalidLength` when it has fewer rows than the table.
pub open spec fn filter_rows(
    cols: Seq<(Seq<char>, VColumn)>,
    column: Seq<char>,
    keep: spec_fn(V) -> bool,
) -> Result<Seq<(Seq<char>, VColumn)>, SxErrorCode> {
    match lookup(cols, column) {
        None => Err(SxErrorCode::InvalidPath),
        Some(c) => if rows_of(cols) > column_len(c) {
            Err(SxErrorCode::InvalidLength)
        } else {
            Ok(masked(cols, Seq::new(rows_of(cols), |i: int| keep(cell(c, i)))))
        },
    }
}

/// The named columns that a table has, inserted in the order given.
pub open spec fn selection(cols: Seq<(Seq<char>, VColumn)>, names: Seq<Seq<char>>) -> Seq<(Seq<char>, VColumn)>
    decreases names.len(),
{
    if names.len() == 0 {
        Seq::empty()
    } else {
        let rest = selection(cols, names.drop_last());
        match lookup(cols, names.last()) {
            Some(c) => insert_entry(rest, names.last(), c),
            None => rest,
        }
    }
}

// ---------------------------------------------------------------------------
// Reading decoded values
// ---------------------------------------------------------------------------

/// A copy of the value at segments `d..` of `path` under `v`, if every
/// segment finds its key or index.
fn copy_at_path(v: &SxValue, path: &SxPath, d: usize) -> (r: Option<SxValue>)
    requires
        d <= path@.len(),
    ensures
        match value_at(dv(*v), path@, d as int) {
            Ok(x) => r matches Some(w) && dv(w) == x,
            Err(_) => r is None,
        },
    decreases path@.len() - d,
{
    if d >= path.segments.len() {
        return Some(copy_value(v));
    }
    proof {
        assert(path@[d as int] == path.segments@[d as int].view_seg());
    }
    match (v, &path.segments[d]) {
        (SxValue::Object(fs), SxPathSegment::Key(k)) => {
            let ghost s = dv_fields(fs@);
            proof {
                lemma_dv_fields(fs@);
            }
            match find_key(fs, k.as_str()) {
                None => {
                    proof {
                        assert forall|m: int| 0 <= m < s.len() implies (#[trigger] s[m]).0 != k@ by {
                            assert(s[m].0 == fs@[m].0@);
                        }
                        lemma_lookup_none(s, k@);
                    }
                    None
                },
                Some(j) => {
                    proof {
                        assert forall|m: int| 0 <= m < j implies (#[trigger] s[m]).0 != k@ by {
                            assert(s[m].0 == fs@[m].0@);
                        }
                        lemma_lookup_first(s, k@, j as int);
                    }
                    copy_at_path(&fs[j].1, path, d + 1)
                },
            }
        },
        (SxValue::Array(xs), SxPathSegment::Index(i)) => {
            proof {
                lemma_dv_vals(xs@);
            }
            if *i < xs.len() {
                copy_at_path(&xs[*i], path, d + 1)
            } else {
                None
            }
        },
        _ => None,
    }
}

/// The entry for `k` in keyed entries, as a copy.
fn field_value(fs: &Vec<(String, SxValue)>, k: &str) -> (r: Option<SxValue>)
    ensures
        match lookup(dv_fields(fs@), k@) {
            Some(x) => r matches Some(w) && dv(w) == x,
            None => r is None,
        },
{
    let ghost s = dv_fields(fs@);
    proof {
        lemma_dv_fields(fs@);
    }
    match find_key(fs, k) {
        None => {
            proof {
                assert forall|m: int| 0 <= m < s.len() implies (#[trigger] s[m]).0 != k@ by {
                    assert(s[m].0 == fs@[m].0@);
                }
                lemma_lookup_none(s, k@);
            }
            None
        },
        Some(j) => {
            proof {
                assert forall|m: int| 0 <= m < j implies (#[trigger] s[m]).0 != k@ by {
                    assert(s[m].0 == fs@[m].0@);
                }
                lemma_lookup_first(s, k@, j as int);
            }
            Some(copy_value(&fs[j].1))
        },
    }
}

/// The top-level field `name` of an object or of a message's fields.
fn hot_of(value: &SxValue, name: &str) -> (r: Option<SxValue>)
    ensures
        match hot_field_of(dv(*value), name@) {
            Some(x) => r matches Some(w) && dv(w) == x,
            None => r is None,
        },
{
    match value {
        SxValue::Object(fs) => field_value(fs, name),
        SxValue::Message(m) => field_value(&m.fields, name),
        _ => None,
    }
}

impl<'a> SxMessageView<'a> {
    /// The encoded bytes the view reads.
    pub closed spec fn encoded(&self) -> Seq<u8> {
        self.bytes@
    }

    /// Creates a view over encoded SX binary bytes; nothing is decoded yet.
    pub fn from_binary(bytes: &'a [u8]) -> (r: Self)
        ensures
            r.encoded() == bytes@,
    {
        SxMessageView { bytes }
    }

    /// Decodes the whole value.
    pub fn materialize(&self, stats: &mut DecodeStats) -> (r: SxResult<SxValue>)
        ensures
            match binary_decode(self.encoded()) {
                Ok(v) => r matches Ok(x) && dv(x) == v,
                Err(c) => r matches Err(e) && e.code == c,
            },
            final(stats).full_decode_calls == old(stats).full_decode_calls.wrapping_add(1),
    {
        decode_binary(self.bytes, stats)
    }

    /// Reads a top-level field by name: of the object, or of a message's
    /// fields; `None` for other values or a missing field.
    #[verifier::spinoff_prover]
    pub fn hot_field(&self, name: &str, stats: &mut DecodeStats) -> (r: SxResult<Option<SxValue>>)
        ensures
            match binary_decode(self.encoded()) {
                Ok(v) => r matches Ok(o) && match hot_field_of(v, name@) {
                    Some(x) => o matches Some(w) && dv(w) == x,
                    None => o is None,
                },
                Err(c) => r matches Err(e) && e.code == c,
            },
            final(stats).full_decode_calls == old(stats).full_decode_calls.wrapping_add(1),
    {
        match self.materialize(stats) {
            Ok(v) => Ok(hot_of(&v, name)),
            Err(e) => Err(e),
        }
    }

    /// Projects the values at the given paths into an object keyed by the
    /// paths' text; paths that find nothing are left out.
    #[verifier::spinoff_prover]
    pub fn project(&self, paths: &[SxPath], stats: &mut DecodeStats) -> (r: SxResult<SxValue>)
        ensures
            match binary_decode(self.encoded()) {
                Ok(v) => r matches Ok(x) && dv(x) == V::Object(
                    projection(v, paths@.map_values(|p: SxPath| p@)),
                ),
                Err(c) => r matches Err(e) && e.code == c,
            },
            final(stats).full_decode_calls == old(stats).full_decode_calls.wrapping_add(1),
    {
        let value = match self.materialize(stats) {
            Ok(v) => v,
            Err(e) => return Err(e),
        };
        let ghost vv = dv(value);
        let ghost ps = paths@.map_values(|p: SxPath| p@);
        let mut out: Vec<(String, SxValue)> = Vec::new();
        let mut i: usize = 0;
        proof {
            assert(dv_fields(out@) =~= Seq::<(Seq<char>, V)>::empty());
        }
        while i < paths.len()
            invariant
                i <= paths@.len(),
                vv == dv(value),
                ps == paths@.map_values(|p: SxPath| p@),
                dv_fields(out@) == projection(vv, ps.take(i as int)),
                sorted_keys(dv_fields(out@)),
            decreases paths.len() - i,
        {
            proof {
                assert(ps.take(i + 1).drop_last() =~= ps.take(i as int));
                assert(ps.take(i + 1).last() == paths@[i as int]@);
            }
            match copy_at_path(&value, &paths[i], 0) {
                Some(x) => {
                    let key = paths[i].to_text();
                    insert_field(&mut out, key, x);
                },
                None => {},
            }
            i += 1;
        }
        proof {
            assert(ps.take(i as int) =~= ps);
        }
        Ok(SxValue::Object(out))
    }
}

impl<'a> SxObjectView<'a> {
    pub closed spec fn entries(&self) -> Seq<(Seq<char>, V)> {
        dv_fields(self.object@)
    }

    /// A view of an object; `None` for other values.
    pub fn new(value: &'a SxValue) -> (r: Option<Self>)
        ensures
            match dv(*value) {
                V::Object(fs) => r matches Some(view) && view.entries() == fs,
                _ => r is None,
            },
    {
        match value {
            SxValue::Object(obj) => Some(SxObjectView { object: obj }),
            _ => None,
        }
    }

    /// The value under `key`.
    pub fn get(&self, key: &str) -> (r: Option<&'a SxValue>)
        ensures
            match lookup(self.entries(), key@) {
                Some(x) => r matches Some(w) && dv(*w) == x,
                None => r is None,
            },
    {
        let ghost s = dv_fields(self.object@);
        proof {
            lemma_dv_fields(self.object@);
        }
        match find_key(self.object, key) {
            None => {
                proof {
                    assert forall|m: int| 0 <= m < s.len() implies (#[trigger] s[m]).0 != key@ by {
                        assert(s[m].0 == self.object@[m].0@);
                    }
                    lemma_lookup_none(s, key@);
                }
                None
            },
            Some(j) => {
                proof {
                    assert forall|m: int| 0 <= m < j implies (#[trigger] s[m]).0 != key@ by {
                        assert(s[m].0 == self.object@[m].0@);
                    }
                    lemma_lookup_first(s, key@, j as int);
                }
                Some(&self.object[j].1)
            },
        }
    }
}

impl<'a> SxArrayView<'a> {
    pub closed spec fn items(&self) -> Seq<V> {
        dv_vals(self.array@)
    }

    /// A view of an array; `None` for other values.
    pub fn new(value: &'a SxValue) -> (r: Option<Self>)
        ensures
            match dv(*value) {
                V::Array(xs) => r matches Some(view) && view.items() == xs,
                _ => r is None,
            },
    {
        match value {
            SxValue::Array(array) => Some(SxArrayView { array }),
            _ => None,
        }
    }

    pub fn len(&self) -> (r: usize)
        ensures
            r == self.items().len(),
    {
        proof {
            lemma_dv_vals(self.array@);
        }
        self.array.len()
    }

    /// The item at `idx`, if there is one.
    pub fn get(&self, idx: usize) -> (r: Option<&'a SxValue>)
        ensures
            idx < self.items().len() ==> (r matches Some(w) && dv(*w) == self.items()[idx as int]),
            idx >= self.items().len() ==> r is None,
    {
        proof {
            lemma_dv_vals(self.array@);
        }
        if idx < self.array.len() {
            Some(&self.array[idx])
        } else {
            None
        }
    }
}

impl<'a> SxStringView<'a> {
    pub closed spec fn text(&self) -> Seq<char> {
        self.value@
    }

    /// A view of a string value; `None` for other values.
    pub fn new(value: &'a SxValue) -> (r: Option<Self>)
        ensures
            match dv(*value) {
                V::String(s) => r matches Some(view) && view.text() == s,
                _ => r is None,
            },
    {
        match value {
            SxValue::String(s) => Some(SxStringView { value: s.as_str() }),
            _ => None,
        }
    }

    /// The viewed text.
    pub fn as_str(&self) -> (r: &'a str)
        ensures
            r@ == self.text(),
    {
        self.value
    }
}

impl<'a> SxTypedArrayView<'a> {
    pub closed spec fn typed(&self) -> VTyped {
        self.value.dv()
    }

    /// A view of a typed array; `None` for other values.
    pub fn new(value: &'a SxValue) -> (r: Option<Self>)
        ensures
            match dv(*value) {
                V::TypedArray(t) => r matches Some(view) && view.typed() == t,
                _ => r is None,
            },
    {
        match value {
            SxValue::TypedArray(v) => Some(SxTypedArrayView { value: v }),
            _ => None,
        }
    }

    /// The viewed typed array.
    pub fn value(&self) -> (r: &'a SxTypedArray)
        ensures
            r.dv() == self.typed(),
    {
        self.value
    }
}

// ---------------------------------------------------------------------------
// Tables
// ---------------------------------------------------------------------------

/// Inserts or replaces the column named `k` in sorted named columns.
fn insert_column(s: &mut Vec<(String, SxColumn)>, k: String, c: SxColumn)
    requires
        sorted_keys(dv_columns(old(s)@)),
    ensures
        dv_columns(final(s)@) == insert_entry(dv_columns(old(s)@), k@, dv_column(c)),
        sorted_keys(dv_columns(final(s)@)),
{
    let ghost ks = dv_columns(old(s)@);
    let ghost kv = k@;
    let ghost cv = dv_column(c);
    proof {
        lemma_dv_columns(old(s)@);
        assert(sorted_str_keys(s@)) by {
            assert forall|i: int, j: int| 0 <= i < j < s@.len() implies key_lt(#[trigger] s@[i].0@, #[trigger] s@[j].0@) by {
                assert(ks[i].0 == s@[i].0@ && ks[j].0 == s@[j].0@);
            }
        }
    }
    let p = key_position(s, k.as_str());
    proof {
        lemma_insert_at(ks, kv, cv, p as int);
        lemma_insert_sorted(ks, kv, cv, p as int);
    }
    if p < s.len() && str_equal(s[p].0.as_str(), k.as_str()) {
        s.set(p, (k, c));
        proof {
            lemma_dv_columns(s@);
            assert(dv_columns(s@) =~= ks.update(p as int, (kv, cv)));
        }
    } else {
        s.insert(p, (k, c));
        proof {
            lemma_dv_columns(s@);
            assert(dv_columns(s@) =~= ks.insert(p as int, (kv, cv)));
        }
    }
}

/// The value in row `i` of a column, which has that row.
fn cell_at(c: &SxColumn, i: usize) -> (r: SxValue)
    requires
        i < column_len(dv_column(*c)),
    ensures
        dv(r) == cell(dv_column(*c), i as int),
{
    match c {
        SxColumn::Values(v) => {
            proof {
                lemma_dv_vals(v@);
            }
            copy_value(&v[i])
        },
        SxColumn::Typed(SxTypedArray::U8(x)) => SxValue::U8(x[i]),
        SxColumn::Typed(SxTypedArray::I32(x)) => SxValue::I32(x[i]),
        SxColumn::Typed(SxTypedArray::F32(x)) => SxValue::F32(x[i]),
        SxColumn::Typed(SxTypedArray::F64(x)) => SxValue::F64(x[i]),
        SxColumn::Typed(SxTypedArray::Bool(x)) => SxValue::Bool(x[i]),
    }
}

/// The rows of `vs` that a mask keeps.
fn keep_masked(vs: &Vec<SxValue>, mask: &Vec<bool>) -> (r: Vec<SxValue>)
    ensures
        dv_vals(r@) == keep_rows(dv_vals(vs@), mask@),
{
    let ghost xs = dv_vals(vs@);
    proof {
        lemma_dv_vals(vs@);
    }
    let mut out: Vec<SxValue> = Vec::new();
    let mut i: usize = 0;
    proof {
        assert(dv_vals(out@) =~= keep_rows(xs.take(0), mask@));
    }
    while i < vs.len()
        invariant
            i <= vs@.len(),
            xs == dv_vals(vs@),
            xs.len() == vs@.len(),
            forall|j: int| 0 <= j < xs.len() ==> #[trigger] xs[j] == dv(vs@[j]),
            dv_vals(out@) == keep_rows(xs.take(i as int), mask@),
        decreases vs.len() - i,
    {
        let ghost before = out@;
        proof {
            let t = xs.take(i + 1);
            assert(t.drop_last() =~= xs.take(i as int));
            assert(t.len() - 1 == i);
            assert(t[i as int] == xs[i as int]);
        }
        if i < mask.len() && mask[i] {
            out.push(copy_value(&vs[i]));
            proof {
                crate::fields::lemma_dv_vals(before);
                crate::fields::lemma_dv_vals(out@);
                assert(dv_vals(out@) =~= dv_vals(before) + seq![xs[i as int]]);
            }
        } else {
            proof {
                assert(dv_vals(out@) =~= dv_vals(before) + Seq::<V>::empty());
            }
        }
        i += 1;
    }
    proof {
        assert(xs.take(i as int) =~= xs);
    }
    out
}

impl<'a> SxTableView<'a> {
    pub closed spec fn columns(&self) -> Seq<(Seq<char>, VColumn)> {
        dv_columns(self.table.columns@)
    }

    /// A view of a table; `None` for other values.
    pub fn new(value: &'a SxValue) -> (r: Option<Self>)
        ensures
            match dv(*value) {
                V::Table(cols) => r matches Some(view) && view.columns() == cols,
                _ => r is None,
            },
    {
        match value {
            SxValue::Table(t) => Some(SxTableView { table: t }),
            _ => None,
        }
    }

    /// Selects the named columns that the table has.
    pub fn select_columns(&self, names: &[&str]) -> (r: SxTable)
        ensures
            dv_columns(r.columns@) == selection(self.columns(), names@.map_values(|n: &str| n@)),
    {
        let ghost cols = dv_columns(self.table.columns@);
        let ghost ns = names@.map_values(|n: &str| n@);
        proof {
            lemma_dv_columns(self.table.columns@);
        }
        let mut out: Vec<(String, SxColumn)> = Vec::new();
        proof {
            assert(dv_columns(out@) =~= Seq::<(Seq<char>, VColumn)>::empty());
        }
        let mut i: usize = 0;
        while i < names.len()
            invariant
                i <= names@.len(),
                cols == dv_columns(self.table.columns@),
                cols.len() == self.table.columns@.len(),
                forall|j: int| 0 <= j < cols.len() ==> #[trigger] cols[j] == (self.table.columns@[j].0@, dv_column(self.table.columns@[j].1)),
                ns == names@.map_values(|n: &str| n@),
                dv_columns(out@) == selection(cols, ns.take(i as int)),
                sorted_keys(dv_columns(out@)),
            decreases names.len() - i,
        {
            proof {
                assert(ns.take(i + 1).drop_last() =~= ns.take(i as int));
                assert(ns.take(i + 1).last() == names@[i as int]@);
            }
            let name: &str = names[i];
            match find_key(&self.table.columns, name) {
                Some(j) => {
                    proof {
                        assert forall|m: int| 0 <= m < j implies (#[trigger] cols[m]).0 != name@ by {
                            assert(cols[m].0 == self.table.columns@[m].0@);
                        }
                        lemma_lookup_first(cols, name@, j as int);
                    }
                    let c = copy_column(&self.table.columns[j].1);
                    insert_column(&mut out, name.to_owned(), c);
                },
                None => {
                    proof {
                        assert forall|m: int| 0 <= m < cols.len() implies (#[trigger] cols[m]).0 != name@ by {
                            assert(cols[m].0 == self.table.columns@[m].0@);
                        }
                        lemma_lookup_none(cols, name@);
                    }
                },
            }
            i += 1;
        }
        proof {
            assert(ns.take(i as int) =~= ns);
        }
        SxTable { columns: out }
    }

    /// The cells of the named column, one per row of the table:
    /// `InvalidPath` without the column, `InvalidLength` when it has fewer
    /// rows than the table.
    pub fn column_cells(&self, column: &str) -> (r: SxResult<Vec<SxValue>>)
        ensures
            match lookup(self.columns(), column@) {
                None => r matches Err(e) && e.code == SxErrorCode::InvalidPath,
                Some(c) => if rows_of(self.columns()) > column_len(c) {
                    r matches Err(e) && e.code == SxErrorCode::InvalidLength
                } else {
                    r matches Ok(v) && dv_vals(v@) == Seq::new(rows_of(self.columns()), |i: int| cell(c, i))
                },
            },
    {
        let ghost cols = dv_columns(self.table.columns@);
        proof {
            lemma_dv_columns(self.table.columns@);
        }
        let j = match find_key(&self.table.columns, column) {
            None => {
                proof {
                    assert forall|m: int| 0 <= m < cols.len() implies (#[trigger] cols[m]).0 != column@ by {
                        assert(cols[m].0 == self.table.columns@[m].0@);
                    }
                    lemma_lookup_none(cols, column@);
                }
                return Err(SxError::msg(SxErrorCode::InvalidPath, "unknown column"));
            },
            Some(j) => j,
        };
        proof {
            assert forall|m: int| 0 <= m < j implies (#[trigger] cols[m]).0 != column@ by {
                assert(cols[m].0 == self.table.columns@[m].0@);
            }
            lemma_lookup_first(cols, column@, j as int);
        }
        let col = &self.table.columns[j].1;
        let rows = self.table.row_count();
        let len = col.len();
        if rows > len {
            return Err(SxError::msg(SxErrorCode::InvalidLength, "column row index out of bounds"));
        }
        let ghost cv = dv_column(*col);
        let mut out: Vec<SxValue> = Vec::new();
        let mut i: usize = 0;
        while i < rows
            invariant
                i <= rows <= len,
                len == column_len(cv),
                cv == dv_column(*col),
                dv_vals(out@) == Seq::new(i as nat, |q: int| cell(cv, q)),
            decreases rows - i,
        {
            let ghost before = out@;
            let x = cell_at(col, i);
            out.push(x);
            proof {
                crate::fields::lemma_dv_vals(before);
                crate::fields::lemma_dv_vals(out@);
                assert forall|q: int| 0 <= q < i + 1 implies #[trigger] dv_vals(out@)[q] == cell(cv, q) by {
                    if q < i {
                        assert(out@[q] == before[q]);
                        assert(dv_vals(before)[q] == Seq::new(i as nat, |q: int| cell(cv, q))[q]);
                    }
                }
                assert(dv_vals(out@) =~= Seq::new((i + 1) as nat, |q: int| cell(cv, q)));
            }
            i += 1;
        }
        Ok(out)
    }

    /// The table with a row mask applied: generic columns keep the rows the
    /// mask keeps, typed columns stay whole.
    pub fn apply_mask(&self, mask: &Vec<bool>) -> (r: SxTable)
        ensures
            dv_columns(r.columns@) == masked(self.columns(), mask@),
    {
        let ghost cols = dv_columns(self.table.columns@);
        proof {
            lemma_dv_columns(self.table.columns@);
        }
        let mut out: Vec<(String, SxColumn)> = Vec::new();
        let mut i: usize = 0;
        while i < self.table.columns.len()
            invariant
                i <= self.table.columns@.len(),
                cols == dv_columns(self.table.columns@),
                cols.len() == self.table.columns@.len(),
                forall|j: int| 0 <= j < cols.len() ==> #[trigger] cols[j] == (self.table.columns@[j].0@, dv_column(self.table.columns@[j].1)),
                out@.len() == i,
                forall|j: int| 0 <= j < i ==> (#[trigger] out@[j]).0@ == masked(cols, mask@)[j].0 && dv_column(out@[j].1) == masked(cols, mask@)[j].1,
            decreases self.table.columns.len() - i,
        {
            let filtered = match &self.table.columns[i].1 {
                SxColumn::Values(v) => SxColumn::Values(keep_masked(v, mask)),
                SxColumn::Typed(t) => SxColumn::Typed(t.copy_typed()),
            };
            out.push((self.table.columns[i].0.clone(), filtered));
            i += 1;
        }
        proof {
            lemma_dv_columns(out@);
            assert(dv_columns(out@) =~= masked(cols, mask@));
        }
        SxTable { columns: out }
    }

    /// Keeps the rows whose cell in `column` equals `value`.
    pub fn filter_eq(&self, column: &str, value: &SxValue) -> (r: SxResult<SxTable>)
        ensures
            match filter_rows(self.columns(), column@, |x: V| veq(x, dv(*value))) {
                Ok(cols) => r matches Ok(t) && dv_columns(t.columns@) == cols,
                Err(c) => r matches Err(e) && e.code == c,
            },
    {
        let cells = match self.column_cells(column) {
            Ok(c) => c,
            Err(e) => return Err(e),
        };
        let ghost cs = dv_vals(cells@);
        proof {
            lemma_dv_vals(cells@);
        }
        let mut mask: Vec<bool> = Vec::new();
        let mut i: usize = 0;
        while i < cells.len()
            invariant
                i <= cells@.len(),
                cs == dv_vals(cells@),
                cs.len() == cells@.len(),
                forall|j: int| 0 <= j < cs.len() ==> #[trigger] cs[j] == dv(cells@[j]),
                mask@ == Seq::new(i as nat, |q: int| veq(cs[q], dv(*value))),
            decreases cells.len() - i,
        {
            let keep = values_equal(&cells[i], value);
            mask.push(keep);
            proof {
                assert(mask@ =~= Seq::new((i + 1) as nat, |q: int| veq(cs[q], dv(*value))));
            }
            i += 1;
        }
        proof {
            match lookup(self.columns(), column@) {
                Some(c) => {
                    assert(mask@ =~= Seq::new(rows_of(self.columns()), |q: int| (|x: V| veq(x, dv(*value)))(cell(c, q))));
                },
                None => {},
            }
        }
        Ok(self.apply_mask(&mask))
    }

    /// Keeps the rows whose cell in `column` is the boolean `wanted`.
    pub fn filter_bool(&self, column: &str, wanted: bool) -> (r: SxResult<SxTable>)
        ensures
            match filter_rows(self.columns(), column@, |x: V| x == V::Bool(wanted)) {
                Ok(cols) => r matches Ok(t) && dv_columns(t.columns@) == cols,
                Err(c) => r matches Err(e) && e.code == c,
            },
    {
        let cells = match self.column_cells(column) {
            Ok(c) => c,
            Err(e) => return Err(e),
        };
        let ghost cs = dv_vals(cells@);
        proof {
            lemma_dv_vals(cells@);
        }
        let mut mask: Vec<bool> = Vec::new();
        let mut i: usize = 0;
        while i < cells.len()
            invariant
                i <= cells@.len(),
                cs == dv_vals(cells@),
                cs.len() == cells@.len(),
                forall|j: int| 0 <= j < cs.len() ==> #[trigger] cs[j] == dv(cells@[j]),
                mask@ == Seq::new(i as nat, |q: int| cs[q] == V::Bool(wanted)),
            decreases cells.len() - i,
        {
            let keep = match &cells[i] {
                SxValue::Bool(b) => *b == wanted,
                _ => false,
            };
            mask.push(keep);
            proof {
                assert(mask@ =~= Seq::new((i + 1) as nat, |q: int| cs[q] == V::Bool(wanted)));
            }
            i += 1;
        }
        proof {
            match lookup(self.columns(), column@) {
                Some(c) => {
                    assert(mask@ =~= Seq::new(rows_of(self.columns()), |q: int| (|x: V| x == V::Bool(wanted))(cell(c, q))));
                },
                None => {},
            }
        }
        Ok(self.apply_mask(&mask))
    }
}

} // verus!
