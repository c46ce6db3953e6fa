//! The metadata segments of a container: the string dictionary, the table
//! of object shapes, the hot-field index and the presence maps.
use crate::binary::{enc_bytes, enc_str, pack_bits, pack_bool_bits, write_bytes, write_str};
use crate::error::SxResult;
use crate::fields::{lemma_dv_fields, lemma_dv_vals};
use crate::sorted_set::{
    fold_unique, insert_shape, insert_string, key_order, lemma_fold_concat, shape_order, shape_view, shapes_view,
    sorted_by, sorted_distinct, strs_view,
};
use crate::value::{dv, dv_column, dv_columns, dv_fields, dv_vals, SxColumn, SxValue, V, VColumn, VTyped};
use crate::value_ops::{lemma_dv_columns, typed_len};
use crate::varint::{encode_varint, varint_bytes};
use vstd::prelude::*;
use vstd::string::StringExecFns;

verus! {

/// A count, then that many length-prefixed strings.
pub open spec fn enc_str_list(l: Seq<Seq<char>>) -> Seq<u8> {
    varint_bytes(l.len()) + enc_strs(l)
}

pub open spec fn enc_strs(l: Seq<Seq<char>>) -> Seq<u8>
    decreases l.len(),
{
    if l.len() == 0 {
        Seq::empty()
    } else {
        enc_strs(l.drop_last()) + enc_str(l.last())
    }
}

/// The strings a value mentions, in traversal order: string-like scalars,
/// object keys (each before its value's strings), table column names.
pub open spec fn collect_strings(v: V) -> Seq<Seq<char>>
    decreases v,
{
    match v {
        V::String(s) => seq![s],
        V::Enum(s) => seq![s],
        V::Timestamp(s) => seq![s],
        V::Date(s) => seq![s],
        V::Duration(s) => seq![s],
        V::Url(s) => seq![s],
        V::Email(s) => seq![s],
        V::Object(fields) => collect_field_strings(fields),
        V::Array(items) => collect_item_strings(items),
        V::Table(cols) => column_names(cols),
        _ => Seq::empty(),
    }
}

pub open spec fn collect_field_strings(fs: Seq<(Seq<char>, V)>) -> Seq<Seq<char>>
    decreases fs,
{
    if fs.len() == 0 {
        Seq::empty()
    } else {
        collect_field_strings(fs.drop_last()) + seq![fs.last().0] + collect_strings(fs.last().1)
    }
}

pub open spec fn collect_item_strings(vs: Seq<V>) -> Seq<Seq<char>>
    decreases vs,
{
    if vs.len() == 0 {
        Seq::empty()
    } else {
        collect_item_strings(vs.drop_last()) + collect_strings(vs.last())
    }
}

pub open spec fn column_names(cols: Seq<(Seq<char>, VColumn)>) -> Seq<Seq<char>> {
    cols.map_values(|c: (Seq<char>, VColumn)| c.0)
}

pub open spec fn field_keys(fs: Seq<(Seq<char>, V)>) -> Seq<Seq<char>> {
    fs.map_values(|f: (Seq<char>, V)| f.0)
}

/// The dictionary segment: the distinct strings of the value, ascending.
pub open spec fn dictionary_bytes(v: V) -> Seq<u8> {
    enc_str_list(sorted_distinct(collect_strings(v), key_order()))
}

/// The key lists a value holds, in traversal order: each object's keys
/// (before those of its values), each table's column names.
pub open spec fn collect_shapes(v: V) -> Seq<Seq<Seq<char>>>
    decreases v,
{
    match v {
        V::Object(fields) => seq![field_keys(fields)] + collect_field_shapes(fields),
        V::Array(items) => collect_item_shapes(items),
        V::Table(cols) => seq![column_names(cols)],
        _ => Seq::empty(),
    }
}

pub open spec fn collect_field_shapes(fs: Seq<(Seq<char>, V)>) -> Seq<Seq<Seq<char>>>
    decreases fs,
{
    if fs.len() == 0 {
        Seq::empty()
    } else {
        collect_field_shapes(fs.drop_last()) + collect_shapes(fs.last().1)
    }
}

pub open spec fn collect_item_shapes(vs: Seq<V>) -> Seq<Seq<Seq<char>>>
    decreases vs,
{
    if vs.len() == 0 {
        Seq::empty()
    } else {
        collect_item_shapes(vs.drop_last()) + collect_shapes(vs.last())
    }
}

/// Keys joined by commas.
pub open spec fn join_keys(s: Seq<Seq<char>>) -> Seq<char>
    decreases s.len(),
{
    if s.len() == 0 {
        Seq::empty()
    } else if s.len() == 1 {
        s[0]
    } else {
        join_keys(s.drop_last()) + seq![','] + s.last()
    }
}

/// The shape-table segment: the distinct key lists, ascending, each written
/// as its keys joined by commas.
pub open spec fn shape_table_bytes(v: V) -> Seq<u8> {
    enc_str_list(sorted_distinct(collect_shapes(v), shape_order()).map_values(|s: Seq<Seq<char>>| join_keys(s)))
}

/// The hot-field index of an object: the key count, then each key with its
/// position and a zero; nothing for other values.
pub open spec fn hot_index_bytes(v: V) -> Seq<u8> {
    match v {
        V::Object(fields) => varint_bytes(fields.len()) + hot_entries(fields.map_values(
            |f: (Seq<char>, V)| f.0,
        )),
        _ => Seq::empty(),
    }
}

pub open spec fn hot_entries(keys: Seq<Seq<char>>) -> Seq<u8>
    decreases keys.len(),
{
    if keys.len() == 0 {
        Seq::empty()
    } else {
        hot_entries(keys.drop_last()) + enc_str(keys.last()) + varint_bytes((keys.len() - 1) as nat)
            + varint_bytes(0)
    }
}

/// Which rows of a column hold a value: every row of a typed column, the
/// non-null rows of a generic one.
pub open spec fn presence_bits(c: VColumn) -> Seq<bool> {
    match c {
        VColumn::Typed(t) => Seq::new(typed_len(t), |i: int| true),
        VColumn::Values(vals) => vals.map_values(|x: V| !(x is Null)),
    }
}

pub open spec fn presence_entries(cols: Seq<(Seq<char>, VColumn)>) -> Seq<u8>
    decreases cols.len(),
{
    if cols.len() == 0 {
        Seq::empty()
    } else {
        presence_entries(cols.drop_last()) + enc_str(cols.last().0) + varint_bytes(
            presence_bits(cols.last().1).len(),
        ) + enc_bytes(pack_bits(presence_bits(cols.last().1)))
    }
}

proof fn lemma_presence_step(cs: Seq<(Seq<char>, VColumn)>, i: int)
    requires
        0 <= i < cs.len(),
    ensures
        presence_entries(cs.take(i + 1)) == presence_entries(cs.take(i)) + (enc_str(cs[i].0)
            + varint_bytes(presence_bits(cs[i].1).len()) + enc_bytes(
            pack_bits(presence_bits(cs[i].1)),
        )),
{
    assert(cs.take(i + 1).drop_last() =~= cs.take(i));
    assert(cs.take(i + 1).last() == cs[i]);
    let a = presence_entries(cs.take(i));
    let b = enc_str(cs[i].0);
    let c = varint_bytes(presence_bits(cs[i].1).len());
    let d = enc_bytes(pack_bits(presence_bits(cs[i].1)));
    assert(a + b + c + d =~= a + (b + c + d));
}

/// The presence maps of a table: the column count, then per column its
/// name, row count and packed presence bits; nothing for other values.
pub open spec fn presence_bytes(v: V) -> Seq<u8> {
    match v {
        V::Table(cols) => varint_bytes(cols.len()) + presence_entries(cols),
        _ => Seq::empty(),
    }
}

/// Writes a count and the strings of a list.
pub fn write_str_list(out: &mut Vec<u8>, l: &Vec<String>)
    ensures
        final(out)@ == old(out)@ + enc_str_list(strs_view(l@)),
{
    let ghost start = out@;
    let ghost lv = strs_view(l@);
    encode_varint(l.len() as u64, out);
    let mut i: usize = 0;
    while i < l.len()
        invariant
            i <= l@.len(),
            lv == strs_view(l@),
            out@ == start + varint_bytes(l@.len() as nat) + enc_strs(lv.take(i as int)),
        decreases l.len() - i,
    {
        write_str(out, l[i].as_str());
        proof {
            assert(lv.take(i + 1).drop_last() =~= lv.take(i as int));
            assert(lv.take(i + 1).last() == l@[i as int]@);
        }
        i += 1;
    }
    assert(lv.take(i as int) =~= lv);
}

/// Adds the strings a value mentions to an ascending set.
pub fn collect_strings_into(v: &SxValue, set: &mut Vec<String>)
    requires
        sorted_by(strs_view(old(set)@), key_order()),
    ensures
        strs_view(final(set)@) == fold_unique(strs_view(old(set)@), collect_strings(dv(*v)), key_order()),
        sorted_by(strs_view(final(set)@), key_order()),
    decreases v, 0nat,
{
    let ghost s0 = strs_view(set@);
    match v {
        SxValue::String(s) | SxValue::Enum(s) | SxValue::Timestamp(s) | SxValue::Date(s) | SxValue::Duration(s)
        | SxValue::Url(s) | SxValue::Email(s) => {
            insert_string(set, s);
            proof {
                let l = collect_strings(dv(*v));
                assert(l =~= seq![s@]);
                assert(l.drop_first() =~= Seq::<Seq<char>>::empty());
                assert(fold_unique(s0, l, key_order()) == fold_unique(
                    crate::sorted_set::insert_unique(s0, s@, key_order()),
                    Seq::<Seq<char>>::empty(),
                    key_order(),
                ));
            }
        },
        SxValue::Object(fields) => {
            proof {
                lemma_dv_fields(fields@);
            }
            collect_field_strings_into(fields, set);
        },
        SxValue::Array(items) => {
            proof {
                lemma_dv_vals(items@);
            }
            collect_item_strings_into(items, set);
        },
        SxValue::Table(t) => {
            let ghost cs = dv_columns(t.columns@);
            proof {
                lemma_dv_columns(t.columns@);
            }
            let mut i: usize = 0;
            while i < t.columns.len()
                invariant
                    i <= t.columns@.len(),
                    cs == dv_columns(t.columns@),
                    cs.len() == t.columns@.len(),
                    forall|j: int| 0 <= j < cs.len() ==> #[trigger] cs[j] == (t.columns@[j].0@, dv_column(t.columns@[j].1)),
                    strs_view(set@) == fold_unique(s0, column_names(cs).take(i as int), key_order()),
                    sorted_by(strs_view(set@), key_order()),
                decreases t.columns.len() - i,
            {
                let ghost before = strs_view(set@);
                insert_string(set, &t.columns[i].0);
                proof {
                    crate::sorted_set::lemma_fold_push(
                        s0,
                        column_names(cs).take(i as int),
                        t.columns@[i as int].0@,
                        key_order(),
                    );
                    assert(column_names(cs).take(i + 1) =~= column_names(cs).take(i as int).push(
                        t.columns@[i as int].0@,
                    ));
                }
                i += 1;
            }
            proof {
                assert(column_names(cs).take(i as int) =~= column_names(cs));
            }
        },
        _ => {
            proof {
                assert(collect_strings(dv(*v)) =~= Seq::<Seq<char>>::empty());
            }
        },
    }
}

fn collect_field_strings_into(fields: &Vec<(String, SxValue)>, set: &mut Vec<String>)
    requires
        sorted_by(strs_view(old(set)@), key_order()),
    ensures
        strs_view(final(set)@) == fold_unique(strs_view(old(set)@), collect_field_strings(dv_fields(fields@)), key_order()),
        sorted_by(strs_view(final(set)@), key_order()),
    decreases fields, 1nat,
{
    let ghost s0 = strs_view(set@);
    let ghost fs = dv_fields(fields@);
    proof {
        lemma_dv_fields(fields@);
    }
    let mut i: usize = 0;
    while i < fields.len()
        invariant
            i <= fields@.len(),
            fs == dv_fields(fields@),
            fs.len() == fields@.len(),
            forall|j: int| 0 <= j < fields@.len() ==> #[trigger] fs[j] == (fields@[j].0@, dv(fields@[j].1)),
            strs_view(set@) == fold_unique(s0, collect_field_strings(fs.take(i as int)), key_order()),
            sorted_by(strs_view(set@), key_order()),
        decreases fields.len() - i,
    {
        assert(decreases_to!(fields => fields@[i as int].1));
        let ghost mid = strs_view(set@);
        insert_string(set, &fields[i].0);
        collect_strings_into(&fields[i].1, set);
        proof {
            let pre = collect_field_strings(fs.take(i as int));
            assert(fs.take(i + 1).drop_last() =~= fs.take(i as int));
            assert(fs.take(i + 1).last() == fs[i as int]);
            let l = collect_field_strings(fs.take(i + 1));
            assert(l == pre + seq![fs[i as int].0] + collect_strings(fs[i as int].1));
            lemma_fold_concat(s0, pre + seq![fs[i as int].0], collect_strings(fs[i as int].1), key_order());
            crate::sorted_set::lemma_fold_push(s0, pre, fs[i as int].0, key_order());
            assert(pre + seq![fs[i as int].0] =~= pre.push(fs[i as int].0));
        }
        i += 1;
    }
    assert(fs.take(i as int) =~= fs);
}

fn collect_item_strings_into(items: &Vec<SxValue>, set: &mut Vec<String>)
    requires
        sorted_by(strs_view(old(set)@), key_order()),
    ensures
        strs_view(final(set)@) == fold_unique(strs_view(old(set)@), collect_item_strings(dv_vals(items@)), key_order()),
        sorted_by(strs_view(final(set)@), key_order()),
    decreases items, 1nat,
{
    let ghost s0 = strs_view(set@);
    let ghost vs = dv_vals(items@);
    proof {
        lemma_dv_vals(items@);
    }
    let mut i: usize = 0;
    while i < items.len()
        invariant
            i <= items@.len(),
            vs == dv_vals(items@),
            vs.len() == items@.len(),
            forall|j: int| 0 <= j < items@.len() ==> #[trigger] vs[j] == dv(items@[j]),
            strs_view(set@) == fold_unique(s0, collect_item_strings(vs.take(i as int)), key_order()),
            sorted_by(strs_view(set@), key_order()),
        decreases items.len() - i,
    {
        assert(decreases_to!(items => items@[i as int]));
        collect_strings_into(&items[i], set);
        proof {
            assert(vs.take(i + 1).drop_last() =~= vs.take(i as int));
            assert(vs.take(i + 1).last() == vs[i as int]);
            lemma_fold_concat(s0, collect_item_strings(vs.take(i as int)), collect_strings(vs[i as int]), key_order());
        }
        i += 1;
    }
    assert(vs.take(i as int) =~= vs);
}

/// The dictionary segment of a value.
pub fn encode_dictionary(v: &SxValue) -> (r: Vec<u8>)
    ensures
        r@ == dictionary_bytes(dv(*v)),
{
    let mut set: Vec<String> = Vec::new();
    proof {
        assert(strs_view(set@) =~= Seq::<Seq<char>>::empty());
    }
    collect_strings_into(v, &mut set);
    let mut out: Vec<u8> = Vec::new();
    write_str_list(&mut out, &set);
    assert(out@ =~= dictionary_bytes(dv(*v)));
    out
}

} // verus!

verus! {

/// The keys of entries, copied.
pub fn keys_of(fields: &Vec<(String, SxValue)>) -> (r: Vec<String>)
    ensures
        shape_view(r) == field_keys(dv_fields(fields@)),
{
    proof {
        lemma_dv_fields(fields@);
    }
    let mut out: Vec<String> = Vec::new();
    let mut i: usize = 0;
    while i < fields.len()
        invariant
            i <= fields@.len(),
            out@.len() == i,
            forall|j: int| 0 <= j < i ==> (#[trigger] out@[j])@ == fields@[j].0@,
        decreases fields.len() - i,
    {
        out.push(fields[i].0.clone());
        i += 1;
    }
    assert(shape_view(out) =~= field_keys(dv_fields(fields@)));
    out
}

/// The names of columns, copied.
pub fn names_of(cols: &Vec<(String, SxColumn)>) -> (r: Vec<String>)
    ensures
        shape_view(r) == column_names(dv_columns(cols@)),
{
    proof {
        lemma_dv_columns(cols@);
    }
    let mut out: Vec<String> = Vec::new();
    let mut i: usize = 0;
    while i < cols.len()
        invariant
            i <= cols@.len(),
            out@.len() == i,
            forall|j: int| 0 <= j < i ==> (#[trigger] out@[j])@ == cols@[j].0@,
        decreases cols.len() - i,
    {
        out.push(cols[i].0.clone());
        i += 1;
    }
    assert(shape_view(out) =~= column_names(dv_columns(cols@)));
    out
}

/// Adds the key lists a value holds to an ascending set.
pub fn collect_shapes_into(v: &SxValue, set: &mut Vec<Vec<String>>)
    requires
        sorted_by(shapes_view(old(set)@), shape_order()),
    ensures
        shapes_view(final(set)@) == fold_unique(shapes_view(old(set)@), collect_shapes(dv(*v)), shape_order()),
        sorted_by(shapes_view(final(set)@), shape_order()),
    decreases v, 0nat,
{
    let ghost s0 = shapes_view(set@);
    match v {
        SxValue::Object(fields) => {
            let keys = keys_of(fields);
            let ghost kv = shape_view(keys);
            insert_shape(set, keys);
            proof {
                lemma_dv_fields(fields@);
                crate::sorted_set::lemma_fold_push(s0, Seq::empty(), kv, shape_order());
                assert(Seq::<Seq<Seq<char>>>::empty().push(kv) =~= seq![kv]);
                assert(fold_unique(s0, Seq::<Seq<Seq<char>>>::empty(), shape_order()) == s0);
            }
            collect_field_shapes_into(fields, set);
            proof {
                lemma_fold_concat(s0, seq![kv], collect_field_shapes(dv_fields(fields@)), shape_order());
            }
        },
        SxValue::Array(items) => {
            proof {
                lemma_dv_vals(items@);
            }
            collect_item_shapes_into(items, set);
        },
        SxValue::Table(t) => {
            let names = names_of(&t.columns);
            let ghost nv = shape_view(names);
            insert_shape(set, names);
            proof {
                crate::sorted_set::lemma_fold_push(s0, Seq::empty(), nv, shape_order());
                assert(Seq::<Seq<Seq<char>>>::empty().push(nv) =~= seq![nv]);
                assert(fold_unique(s0, Seq::<Seq<Seq<char>>>::empty(), shape_order()) == s0);
            }
        },
        _ => {
            proof {
                assert(collect_shapes(dv(*v)) =~= Seq::<Seq<Seq<char>>>::empty());
            }
        },
    }
}

fn collect_field_shapes_into(fields: &Vec<(String, SxValue)>, set: &mut Vec<Vec<String>>)
    requires
        sorted_by(shapes_view(old(set)@), shape_order()),
    ensures
        shapes_view(final(set)@) == fold_unique(
            shapes_view(old(set)@),
            collect_field_shapes(dv_fields(fields@)),
            shape_order(),
        ),
        sorted_by(shapes_view(final(set)@), shape_order()),
    decreases fields, 1nat,
{
    let ghost s0 = shapes_view(set@);
    let ghost fs = dv_fields(fields@);
    proof {
        lemma_dv_fields(fields@);
    }
    let mut i: usize = 0;
    while i < fields.len()
        invariant
            i <= fields@.len(),
            fs == dv_fields(fields@),
            fs.len() == fields@.len(),
            forall|j: int| 0 <= j < fields@.len() ==> #[trigger] fs[j] == (fields@[j].0@, dv(fields@[j].1)),
            shapes_view(set@) == fold_unique(s0, collect_field_shapes(fs.take(i as int)), shape_order()),
            sorted_by(shapes_view(set@), shape_order()),
        decreases fields.len() - i,
    {
        assert(decreases_to!(fields => fields@[i as int].1));
        collect_shapes_into(&fields[i].1, set);
        proof {
            assert(fs.take(i + 1).drop_last() =~= fs.take(i as int));
            assert(fs.take(i + 1).last() == fs[i as int]);
            lemma_fold_concat(s0, collect_field_shapes(fs.take(i as int)), collect_shapes(fs[i as int].1), shape_order());
        }
        i += 1;
    }
    assert(fs.take(i as int) =~= fs);
}

fn collect_item_shapes_into(items: &Vec<SxValue>, set: &mut Vec<Vec<String>>)
    requires
        sorted_by(shapes_view(old(set)@), shape_order()),
    ensures
        shapes_view(final(set)@) == fold_unique(shapes_view(old(set)@), collect_item_shapes(dv_vals(items@)), shape_order()),
        sorted_by(shapes_view(final(set)@), shape_order()),
    decreases items, 1nat,
{
    let ghost s0 = shapes_view(set@);
    let ghost vs = dv_vals(items@);
    proof {
        lemma_dv_vals(items@);
    }
    let mut i: usize = 0;
    while i < items.len()
        invariant
            i <= items@.len(),
            vs == dv_vals(items@),
            vs.len() == items@.len(),
            forall|j: int| 0 <= j < items@.len() ==> #[trigger] vs[j] == dv(items@[j]),
            shapes_view(set@) == fold_unique(s0, collect_item_shapes(vs.take(i as int)), shape_order()),
            sorted_by(shapes_view(set@), shape_order()),
        decreases items.len() - i,
    {
        assert(decreases_to!(items => items@[i as int]));
        collect_shapes_into(&items[i], set);
        proof {
            assert(vs.take(i + 1).drop_last() =~= vs.take(i as int));
            assert(vs.take(i + 1).last() == vs[i as int]);
            lemma_fold_concat(s0, collect_item_shapes(vs.take(i as int)), collect_shapes(vs[i as int]), shape_order());
        }
        i += 1;
    }
    assert(vs.take(i as int) =~= vs);
}

/// Keys joined by commas.
pub fn join_with_commas(keys: &Vec<String>) -> (r: String)
    ensures
        r@ == join_keys(shape_view(*keys)),
{
    let ghost kv = shape_view(*keys);
    let mut t = String::new();
    let mut i: usize = 0;
    while i < keys.len()
        invariant
            i <= keys@.len(),
            kv == shape_view(*keys),
            t@ == join_keys(kv.take(i as int)),
        decreases keys.len() - i,
    {
        if i > 0 {
            crate::chars::string_push(&mut t, ',');
        }
        t.append(keys[i].as_str());
        proof {
            assert(kv.take(i + 1).drop_last() =~= kv.take(i as int));
            assert(kv.take(i + 1).last() == keys@[i as int]@);
            if i == 0 {
                assert(kv.take(1).len() == 1);
                assert(t@ =~= kv.take(1)[0]);
            } else {
                assert(t@ =~= join_keys(kv.take(i as int)) + seq![','] + keys@[i as int]@);
            }
        }
        i += 1;
    }
    assert(kv.take(i as int) =~= kv);
    t
}

/// The shape-table segment of a value.
pub fn encode_shape_table(v: &SxValue) -> (r: Vec<u8>)
    ensures
        r@ == shape_table_bytes(dv(*v)),
{
    let mut set: Vec<Vec<String>> = Vec::new();
    proof {
        assert(shapes_view(set@) =~= Seq::<Seq<Seq<char>>>::empty());
    }
    collect_shapes_into(v, &mut set);
    let ghost sorted = shapes_view(set@);
    let mut texts: Vec<String> = Vec::new();
    let mut i: usize = 0;
    while i < set.len()
        invariant
            i <= set@.len(),
            sorted == shapes_view(set@),
            texts@.len() == i,
            forall|j: int| 0 <= j < i ==> (#[trigger] texts@[j])@ == join_keys(sorted[j]),
        decreases set.len() - i,
    {
        let t = join_with_commas(&set[i]);
        texts.push(t);
        i += 1;
    }
    let mut out: Vec<u8> = Vec::new();
    write_str_list(&mut out, &texts);
    assert(strs_view(texts@) =~= sorted.map_values(|s: Seq<Seq<char>>| join_keys(s)));
    out
}

/// The hot-field index of a value.
pub fn encode_hot_index(v: &SxValue) -> (r: Vec<u8>)
    ensures
        r@ == hot_index_bytes(dv(*v)),
{
    let mut out: Vec<u8> = Vec::new();
    match v {
        SxValue::Object(fields) => {
            let ghost keys = dv_fields(fields@).map_values(|f: (Seq<char>, V)| f.0);
            proof {
                lemma_dv_fields(fields@);
            }
            encode_varint(fields.len() as u64, &mut out);
            let mut i: usize = 0;
            while i < fields.len()
                invariant
                    i <= fields@.len(),
                    keys == dv_fields(fields@).map_values(|f: (Seq<char>, V)| f.0),
                    keys.len() == fields@.len(),
                    forall|j: int| 0 <= j < fields@.len() ==> #[trigger] keys[j] == fields@[j].0@,
                    out@ == varint_bytes(fields@.len() as nat) + hot_entries(keys.take(i as int)),
                decreases fields.len() - i,
            {
                write_str(&mut out, fields[i].0.as_str());
                encode_varint(i as u64, &mut out);
                encode_varint(0, &mut out);
                proof {
                    assert(keys.take(i + 1).drop_last() =~= keys.take(i as int));
                    assert(keys.take(i + 1).last() == keys[i as int]);
                }
                i += 1;
            }
            assert(keys.take(i as int) =~= keys);
        },
        _ => {},
    }
    out
}

/// The presence bits of a column.
fn column_presence(c: &SxColumn) -> (r: Vec<bool>)
    ensures
        r@ == presence_bits(dv_column(*c)),
{
    let mut out: Vec<bool> = Vec::new();
    match c {
        SxColumn::Typed(t) => {
            let n = t.len();
            let mut i: usize = 0;
            while i < n
                invariant
                    i <= n,
                    out@.len() == i,
                    forall|j: int| 0 <= j < i ==> #[trigger] out@[j] == true,
                decreases n - i,
            {
                out.push(true);
                i += 1;
            }
            assert(out@ =~= presence_bits(dv_column(*c)));
        },
        SxColumn::Values(vals) => {
            proof {
                lemma_dv_vals(vals@);
            }
            let mut i: usize = 0;
            while i < vals.len()
                invariant
                    i <= vals@.len(),
                    out@.len() == i,
                    forall|j: int| 0 <= j < i ==> #[trigger] out@[j] == !(dv(vals@[j]) is Null),
                decreases vals.len() - i,
            {
                let present = match &vals[i] {
                    SxValue::Null => false,
                    _ => true,
                };
                out.push(present);
                i += 1;
            }
            assert(out@ =~= presence_bits(dv_column(*c)));
        },
    }
    out
}

/// The presence maps of a value.
#[verifier::spinoff_prover]
pub fn encode_presence_maps(v: &SxValue) -> (r: Vec<u8>)
    ensures
        r@ == presence_bytes(dv(*v)),
{
    let mut out: Vec<u8> = Vec::new();
    match v {
        SxValue::Table(t) => {
            let ghost cs = dv_columns(t.columns@);
            proof {
                lemma_dv_columns(t.columns@);
            }
            encode_varint(t.columns.len() as u64, &mut out);
            let mut i: usize = 0;
            while i < t.columns.len()
                invariant
                    i <= t.columns@.len(),
                    cs == dv_columns(t.columns@),
                    cs.len() == t.columns@.len(),
                    forall|j: int| 0 <= j < cs.len() ==> #[trigger] cs[j] == (t.columns@[j].0@, dv_column(t.columns@[j].1)),
                    out@ == varint_bytes(cs.len()) + presence_entries(cs.take(i as int)),
                decreases t.columns.len() - i,
            {
                let ghost before = out@;
                write_str(&mut out, t.columns[i].0.as_str());
                let bits = column_presence(&t.columns[i].1);
                encode_varint(bits.len() as u64, &mut out);
                let packed = pack_bool_bits(&bits);
                write_bytes(&mut out, packed.as_slice());
                proof {
                    lemma_presence_step(cs, i as int);
                    assert(out@ =~= before + (enc_str(cs[i as int].0) + varint_bytes(
                        presence_bits(cs[i as int].1).len(),
                    ) + enc_bytes(pack_bits(presence_bits(cs[i as int].1)))));
                }
                i += 1;
            }
            assert(cs.take(i as int) =~= cs);
        },
        _ => {},
    }
    out
}

} // verus!
