//! Writing columnar payloads: arrays of like-shaped objects (event batches)
//! and tables of at least 64 rows are stored column by column.
use crate::binary::{
    enc_bytes, enc_fixed, enc_str, pack_bits, pack_bool_bits, u64_words, widen_f32, widen_f32_bits, write_bytes,
    write_str,
};
use crate::bytes::push_le;
use crate::fields::{find_key, lemma_dv_fields, lemma_dv_vals, lookup};
use crate::keys::str_equal;
use crate::metadata::{enc_strs, field_keys, column_names};
use crate::sorted_set::{shape_compare, shape_view, strs_view};
use crate::value::{dv, dv_column, dv_columns, dv_fields, dv_vals, SxColumn, SxTable, SxTypedArray, SxValue, V, VColumn, VTyped};
use crate::value_ops::{column_len, lemma_dv_columns, lemma_lookup_first};
use crate::varint::{encode_varint, varint_bytes};
use vstd::prelude::*;

verus! {

/// Index of the first occurrence of `s` in `d` (`d.len()` when absent).
pub open spec fn first_index(d: Seq<Seq<char>>, s: Seq<char>) -> nat
    decreases d.len(),
{
    if d.len() == 0 {
        0
    } else if d[0] == s {
        0
    } else {
        1 + first_index(d.drop_first(), s)
    }
}

/// The distinct strings of a list, in order of first occurrence.
pub open spec fn dict_of(strs: Seq<Seq<char>>) -> Seq<Seq<char>>
    decreases strs.len(),
{
    if strs.len() == 0 {
        Seq::empty()
    } else if dict_of(strs.drop_last()).contains(strs.last()) {
        dict_of(strs.drop_last())
    } else {
        dict_of(strs.drop_last()).push(strs.last())
    }
}

/// Varints one after another.
pub open spec fn enc_varints(s: Seq<nat>) -> Seq<u8>
    decreases s.len(),
{
    if s.len() == 0 {
        Seq::empty()
    } else {
        enc_varints(s.drop_last()) + varint_bytes(s.last())
    }
}

/// A dictionary-encoded string column after its field id and name: kind 1,
/// the dictionary, then one id per row.
pub open spec fn dict_column_bytes(strs: Seq<Seq<char>>) -> Seq<u8> {
    let d = dict_of(strs);
    seq![1u8] + varint_bytes(d.len()) + enc_strs(d) + varint_bytes(strs.len()) + enc_varints(dict_ids(d, strs))
}

/// The dictionary id of each string.
pub open spec fn dict_ids(d: Seq<Seq<char>>, strs: Seq<Seq<char>>) -> Seq<nat> {
    strs.map_values(|s: Seq<char>| first_index(d, s))
}

/// The eight-byte words of `i64`s.
pub open spec fn i64_words(vals: Seq<i64>) -> Seq<nat> {
    vals.map_values(|x: i64| (x as u64) as nat)
}

/// An `i64` column: kind 2, the row count, eight bytes per row.
pub open spec fn i64_column_bytes(vals: Seq<i64>) -> Seq<u8> {
    seq![2u8] + varint_bytes(vals.len()) + enc_fixed(i64_words(vals), 8)
}

/// An `f64` column: kind 4, the row count, the eight bytes of each row.
pub open spec fn f64_column_bytes(bits: Seq<u64>) -> Seq<u8> {
    seq![4u8] + varint_bytes(bits.len()) + enc_fixed(u64_words(bits), 8)
}

/// A boolean column: kind 3, the row count, the packed bits.
pub open spec fn bool_column_bytes(bs: Seq<bool>) -> Seq<u8> {
    seq![3u8] + varint_bytes(bs.len()) + enc_bytes(pack_bits(bs))
}

pub proof fn lemma_first_index_push(d: Seq<Seq<char>>, x: Seq<char>, s: Seq<char>)
    requires
        d.contains(s),
    ensures
        first_index(d.push(x), s) == first_index(d, s),
        first_index(d, s) < d.len(),
        d[first_index(d, s) as int] == s,
    decreases d.len(),
{
    if d[0] != s {
        let j = choose|j: int| 0 <= j < d.len() && d[j] == s;
        assert(d.drop_first()[j - 1] == s);
        assert(d.push(x).drop_first() =~= d.drop_first().push(x));
        lemma_first_index_push(d.drop_first(), x, s);
    }
}

proof fn lemma_first_index_at(d: Seq<Seq<char>>, s: Seq<char>, j: int)
    requires
        0 <= j < d.len(),
        d[j] == s,
        forall|k: int| 0 <= k < j ==> d[k] != s,
    ensures
        first_index(d, s) == j,
    decreases j,
{
    if j > 0 {
        assert forall|k: int| 0 <= k < j - 1 implies d.drop_first()[k] != s by {
            assert(d.drop_first()[k] == d[k + 1]);
        }
        lemma_first_index_at(d.drop_first(), s, j - 1);
    }
}

pub proof fn lemma_dict_contains(strs: Seq<Seq<char>>, i: int)
    requires
        0 <= i < strs.len(),
    ensures
        dict_of(strs).contains(strs[i]),
    decreases strs.len(),
{
    let d = dict_of(strs.drop_last());
    if i < strs.len() - 1 {
        lemma_dict_contains(strs.drop_last(), i);
        assert(strs.drop_last()[i] == strs[i]);
        if !d.contains(strs.last()) {
            let j = choose|j: int| 0 <= j < d.len() && d[j] == strs[i];
            assert(d.push(strs.last())[j] == strs[i]);
        }
    } else {
        if !d.contains(strs.last()) {
            assert(d.push(strs.last())[d.len() as int] == strs.last());
        }
    }
}

/// Writes a dictionary-encoded string column.
pub fn write_dict_column(out: &mut Vec<u8>, strs: &Vec<String>)
    requires
        strs@.len() < 0x1_0000_0000,
    ensures
        final(out)@ == old(out)@ + dict_column_bytes(strs_view(strs@)),
{
    let ghost sv = strs_view(strs@);
    let mut dict: Vec<String> = Vec::new();
    let mut ids: Vec<u32> = Vec::new();
    let mut i: usize = 0;
    proof {
        assert(sv.take(0) =~= Seq::<Seq<char>>::empty());
        assert(strs_view(dict@) =~= Seq::<Seq<char>>::empty());
    }
    while i < strs.len()
        invariant
            i <= strs@.len(),
            strs@.len() < 0x1_0000_0000,
            sv == strs_view(strs@),
            strs_view(dict@) == dict_of(sv.take(i as int)),
            dict@.len() <= i,
            ids@.len() == i,
            forall|j: int| 0 <= j < i ==> #[trigger] ids@[j] as nat == first_index(strs_view(dict@), sv[j]),
            forall|j: int| 0 <= j < i ==> strs_view(dict@).contains(#[trigger] sv[j]),
        decreases strs.len() - i,
    {
        let ghost d0 = strs_view(dict@);
        proof {
            assert(sv.take(i + 1).drop_last() =~= sv.take(i as int));
            assert(sv.take(i + 1).last() == sv[i as int]);
        }
        let mut j: usize = 0;
        while j < dict.len() && !str_equal(dict[j].as_str(), strs[i].as_str())
            invariant
                j <= dict@.len(),
                d0 == strs_view(dict@),
                i < strs@.len(),
                sv == strs_view(strs@),
                forall|k: int| 0 <= k < j ==> d0[k] != sv[i as int],
            decreases dict.len() - j,
        {
            j += 1;
        }
        if j < dict.len() {
            proof {
                assert(d0[j as int] == sv[i as int]);
                lemma_first_index_at(d0, sv[i as int], j as int);
                assert(d0.contains(sv[i as int]));
            }
            ids.push(j as u32);
        } else {
            proof {
                assert(!d0.contains(sv[i as int]));
                assert forall|k: int| 0 <= k < i implies first_index(d0.push(sv[i as int]), #[trigger] sv[k])
                    == first_index(d0, sv[k]) by {
                    lemma_first_index_push(d0, sv[i as int], sv[k]);
                }
                lemma_first_index_at(d0.push(sv[i as int]), sv[i as int], d0.len() as int);
            }
            let n = dict.len();
            dict.push(strs[i].clone());
            ids.push(n as u32);
            proof {
                assert(strs_view(dict@) =~= d0.push(sv[i as int]));
                assert forall|k: int| 0 <= k <= i implies strs_view(dict@).contains(#[trigger] sv[k]) by {
                    if k < i {
                        let w = choose|w: int| 0 <= w < d0.len() && d0[w] == sv[k];
                        assert(strs_view(dict@)[w] == sv[k]);
                    } else {
                        assert(strs_view(dict@)[d0.len() as int] == sv[k]);
                    }
                }
            }
        }
        i += 1;
    }
    let ghost d = strs_view(dict@);
    proof {
        assert(sv.take(i as int) =~= sv);
    }
    let ghost start = out@;
    out.push(1);
    crate::metadata::write_str_list(out, &dict);
    encode_varint(ids.len() as u64, out);
    let ghost ws = dict_ids(d, sv);
    let ghost mid = out@;
    let mut k: usize = 0;
    while k < ids.len()
        invariant
            k <= ids@.len(),
            ids@.len() == sv.len(),
            ws == dict_ids(d, sv),
            forall|j: int| 0 <= j < ids@.len() ==> #[trigger] ids@[j] as nat == ws[j],
            out@ == mid + enc_varints(ws.take(k as int)),
        decreases ids.len() - k,
    {
        encode_varint(ids[k] as u64, out);
        proof {
            assert(ws.take(k + 1).drop_last() =~= ws.take(k as int));
        }
        k += 1;
    }
    proof {
        assert(ws.take(k as int) =~= ws);
        assert(out@ =~= start + dict_column_bytes(sv));
    }
}

/// Writes eight-byte words.
fn write_words8(out: &mut Vec<u8>, v: &Vec<u64>)
    ensures
        final(out)@ == old(out)@ + enc_fixed(u64_words(v@), 8),
{
    let ghost start = out@;
    let ghost ws = u64_words(v@);
    let mut i: usize = 0;
    while i < v.len()
        invariant
            i <= v@.len(),
            ws == u64_words(v@),
            out@ == start + enc_fixed(ws.take(i as int), 8),
        decreases v.len() - i,
    {
        push_le(out, v[i], 8);
        proof {
            assert(ws.take(i + 1).drop_last() =~= ws.take(i as int));
        }
        i += 1;
    }
    assert(ws.take(i as int) =~= ws);
}

/// Writes an `i64` column.
fn write_i64_column(out: &mut Vec<u8>, vals: &Vec<i64>)
    ensures
        final(out)@ == old(out)@ + i64_column_bytes(vals@),
{
    let mut bits: Vec<u64> = Vec::new();
    let mut i: usize = 0;
    while i < vals.len()
        invariant
            i <= vals@.len(),
            bits@.len() == i,
            forall|j: int| 0 <= j < i ==> #[trigger] bits@[j] == vals@[j] as u64,
        decreases vals.len() - i,
    {
        bits.push(vals[i] as u64);
        i += 1;
    }
    out.push(2);
    encode_varint(vals.len() as u64, out);
    write_words8(out, &bits);
    assert(u64_words(bits@) =~= i64_words(vals@));
    assert(final(out)@ =~= old(out)@ + i64_column_bytes(vals@));
}

/// Writes an `f64` column.
fn write_f64_column(out: &mut Vec<u8>, bits: &Vec<u64>)
    ensures
        final(out)@ == old(out)@ + f64_column_bytes(bits@),
{
    out.push(4);
    encode_varint(bits.len() as u64, out);
    write_words8(out, bits);
    assert(final(out)@ =~= old(out)@ + f64_column_bytes(bits@));
}

/// Writes a boolean column.
fn write_bool_column(out: &mut Vec<u8>, bs: &Vec<bool>)
    ensures
        final(out)@ == old(out)@ + bool_column_bytes(bs@),
{
    out.push(3);
    encode_varint(bs.len() as u64, out);
    let packed = pack_bool_bits(bs);
    write_bytes(out, packed.as_slice());
    assert(final(out)@ =~= old(out)@ + bool_column_bytes(bs@));
}

} // verus!

verus! {

/// The entries of an object, or none.
pub open spec fn fields_of(v: V) -> Seq<(Seq<char>, V)> {
    match v {
        V::Object(f) => f,
        _ => Seq::empty(),
    }
}

/// The value each row holds under key `k`.
pub open spec fn cells(rows: Seq<V>, k: Seq<char>) -> Seq<Option<V>> {
    rows.map_values(|r: V| lookup(fields_of(r), k))
}

pub open spec fn all_strings(cs: Seq<Option<V>>) -> bool {
    forall|i: int| 0 <= i < cs.len() ==> #[trigger] cs[i] matches Some(V::String(_))
}

pub open spec fn all_i64(cs: Seq<Option<V>>) -> bool {
    forall|i: int| 0 <= i < cs.len() ==> #[trigger] cs[i] matches Some(V::I64(_))
}

pub open spec fn all_bool(cs: Seq<Option<V>>) -> bool {
    forall|i: int| 0 <= i < cs.len() ==> #[trigger] cs[i] matches Some(V::Bool(_))
}

pub open spec fn string_cells(cs: Seq<Option<V>>) -> Seq<Seq<char>> {
    cs.map_values(|c: Option<V>| match c {
        Some(V::String(s)) => s,
        _ => Seq::empty(),
    })
}

pub open spec fn i64_cells(cs: Seq<Option<V>>) -> Seq<i64> {
    cs.map_values(|c: Option<V>| match c {
        Some(V::I64(x)) => x,
        _ => 0,
    })
}

pub open spec fn bool_cells(cs: Seq<Option<V>>) -> Seq<bool> {
    cs.map_values(|c: Option<V>| match c {
        Some(V::Bool(b)) => b,
        _ => false,
    })
}

/// The column of key `k` across rows: strings, `i64`s or booleans in every
/// row, else no columnar form.
pub open spec fn batch_column(rows: Seq<V>, k: Seq<char>) -> Option<Seq<u8>> {
    let cs = cells(rows, k);
    if all_strings(cs) {
        Some(dict_column_bytes(string_cells(cs)))
    } else if all_i64(cs) {
        Some(i64_column_bytes(i64_cells(cs)))
    } else if all_bool(cs) {
        Some(bool_column_bytes(bool_cells(cs)))
    } else {
        None
    }
}

/// The columns of the keys, each after its field id (position plus one) and
/// name.
pub open spec fn batch_columns(rows: Seq<V>, keys: Seq<Seq<char>>) -> Option<Seq<u8>>
    decreases keys.len(),
{
    if keys.len() == 0 {
        Some(Seq::empty())
    } else {
        match batch_columns(rows, keys.drop_last()) {
            None => None,
            Some(pre) => match batch_column(rows, keys.last()) {
                None => None,
                Some(c) => Some(pre + varint_bytes(keys.len()) + enc_str(keys.last()) + c),
            },
        }
    }
}

/// Every row is an object with the keys of the first.
pub open spec fn same_keys(rows: Seq<V>) -> bool {
    forall|i: int|
        0 <= i < rows.len() ==> (#[trigger] rows[i] is Object) && field_keys(fields_of(rows[i])) == field_keys(
            fields_of(rows[0]),
        )
}

/// The event-batch payload of a value: an array of at least 64 (and fewer
/// than 2^32) objects sharing a non-empty key list, whose every column is
/// strings, `i64`s or booleans.
pub open spec fn event_batch_bytes(v: V) -> Option<Seq<u8>> {
    match v {
        V::Array(rows) => if rows.len() < 64 || rows.len() >= 0x1_0000_0000 || !same_keys(rows) {
            None
        } else {
            let keys = field_keys(fields_of(rows[0]));
            if keys.len() == 0 {
                None
            } else {
                match batch_columns(rows, keys) {
                    None => None,
                    Some(b) => Some(seq![1u8] + varint_bytes(rows.len()) + varint_bytes(keys.len()) + b),
                }
            }
        },
        _ => None,
    }
}

/// The value a row holds under key `k`.
fn cell_value<'a>(row: &'a SxValue, k: &str) -> (r: Option<&'a SxValue>)
    ensures
        match lookup(fields_of(dv(*row)), k@) {
            Some(v) => r matches Some(x) && dv(*x) == v,
            None => r is None,
        },
{
    match row {
        SxValue::Object(f) => {
            proof {
                lemma_dv_fields(f@);
            }
            match find_key(f, k) {
                Some(i) => {
                    proof {
                        lemma_lookup_first(dv_fields(f@), k@, i as int);
                    }
                    Some(&f[i].1)
                },
                None => {
                    proof {
                        crate::value_ops::lemma_lookup_none(dv_fields(f@), k@);
                    }
                    None
                },
            }
        },
        _ => None,
    }
}

/// Writes the column of key `k` across rows, or gives `None`.
fn write_batch_column(out: &mut Vec<u8>, rows: &Vec<SxValue>, k: &String) -> (ok: bool)
    requires
        rows@.len() < 0x1_0000_0000,
        rows@.len() > 0,
    ensures
        match batch_column(dv_vals(rows@), k@) {
            Some(b) => ok && final(out)@ == old(out)@ + b,
            None => !ok,
        },
{
    let ghost vs = dv_vals(rows@);
    let ghost cs = cells(vs, k@);
    proof {
        lemma_dv_vals(rows@);
    }
    let first = cell_value(&rows[0], k.as_str());
    assert(cs[0] == lookup(fields_of(vs[0]), k@));
    match first {
        Some(SxValue::String(_)) => {
            let mut strs: Vec<String> = Vec::new();
            let mut i: usize = 0;
            while i < rows.len()
                invariant
                    i <= rows@.len(),
                    vs == dv_vals(rows@),
                    vs.len() == rows@.len(),
                    forall|j: int| 0 <= j < rows@.len() ==> #[trigger] vs[j] == dv(rows@[j]),
                    cs == cells(vs, k@),
                    cs[0] matches Some(V::String(_)),
                    strs@.len() == i,
                    forall|j: int| 0 <= j < i ==> ((#[trigger] cs[j]) matches Some(V::String(s)) && s == strs@[j]@),
                decreases rows.len() - i,
            {
                match cell_value(&rows[i], k.as_str()) {
                    Some(SxValue::String(s)) => strs.push(s.clone()),
                    _ => {
                        proof {
                            assert(!(cs[i as int] matches Some(V::String(_))));
                            assert(!all_strings(cs));
                            assert(!(cs[0] matches Some(V::I64(_))));
                            assert(!all_i64(cs));
                            assert(!(cs[0] matches Some(V::Bool(_))));
                            assert(!all_bool(cs));
                        }
                        return false;
                    },
                }
                i += 1;
            }
            proof {
                assert(all_strings(cs));
                assert(strs_view(strs@) =~= string_cells(cs));
            }
            write_dict_column(out, &strs);
            true
        },
        Some(SxValue::I64(_)) => {
            let mut vals: Vec<i64> = Vec::new();
            let mut i: usize = 0;
            while i < rows.len()
                invariant
                    i <= rows@.len(),
                    vs == dv_vals(rows@),
                    vs.len() == rows@.len(),
                    forall|j: int| 0 <= j < rows@.len() ==> #[trigger] vs[j] == dv(rows@[j]),
                    cs == cells(vs, k@),
                    cs[0] matches Some(V::I64(_)),
                    vals@.len() == i,
                    forall|j: int| 0 <= j < i ==> ((#[trigger] cs[j]) matches Some(V::I64(x)) && x == vals@[j]),
                decreases rows.len() - i,
            {
                match cell_value(&rows[i], k.as_str()) {
                    Some(SxValue::I64(x)) => vals.push(*x),
                    _ => {
                        proof {
                            assert(!(cs[i as int] matches Some(V::I64(_))));
                            assert(!all_i64(cs));
                            assert(!all_strings(cs));
                            assert(!all_bool(cs));
                        }
                        return false;
                    },
                }
                i += 1;
            }
            proof {
                assert(all_i64(cs));
                assert(!all_strings(cs));
                assert(vals@ =~= i64_cells(cs));
            }
            write_i64_column(out, &vals);
            true
        },
        Some(SxValue::Bool(_)) => {
            let mut bs: Vec<bool> = Vec::new();
            let mut i: usize = 0;
            while i < rows.len()
                invariant
                    i <= rows@.len(),
                    vs == dv_vals(rows@),
                    vs.len() == rows@.len(),
                    forall|j: int| 0 <= j < rows@.len() ==> #[trigger] vs[j] == dv(rows@[j]),
                    cs == cells(vs, k@),
                    cs[0] matches Some(V::Bool(_)),
                    bs@.len() == i,
                    forall|j: int| 0 <= j < i ==> ((#[trigger] cs[j]) matches Some(V::Bool(x)) && x == bs@[j]),
                decreases rows.len() - i,
            {
                match cell_value(&rows[i], k.as_str()) {
                    Some(SxValue::Bool(x)) => bs.push(*x),
                    _ => {
                        proof {
                            assert(!(cs[i as int] matches Some(V::Bool(_))));
                            assert(!all_bool(cs));
                            assert(!all_strings(cs));
                            assert(!all_i64(cs));
                        }
                        return false;
                    },
                }
                i += 1;
            }
            proof {
                assert(all_bool(cs));
                assert(!all_strings(cs));
                assert(!all_i64(cs));
                assert(bs@ =~= bool_cells(cs));
            }
            write_bool_column(out, &bs);
            true
        },
        _ => {
            proof {
                assert(!all_strings(cs));
                assert(!all_i64(cs));
                assert(!all_bool(cs));
            }
            false
        },
    }
}

} // verus!

verus! {

/// The event-batch payload of a value, when it has one.
pub fn encode_columnar_event_batch(value: &SxValue) -> (r: Option<Vec<u8>>)
    ensures
        match event_batch_bytes(dv(*value)) {
            Some(b) => r matches Some(x) && x@ == b,
            None => r is None,
        },
{
    let rows = match value {
        SxValue::Array(rows) => rows,
        _ => return None,
    };
    let ghost vs = dv_vals(rows@);
    proof {
        lemma_dv_vals(rows@);
    }
    if rows.len() < 64 || rows.len() as u64 >= 0x1_0000_0000u64 {
        return None;
    }
    let keys = match &rows[0] {
        SxValue::Object(f) => crate::metadata::keys_of(f),
        _ => {
            proof {
                assert(!(vs[0] is Object));
                assert(!same_keys(vs));
            }
            return None;
        },
    };
    let ghost kv = shape_view(keys);
    assert(kv == field_keys(fields_of(vs[0])));
    let mut i: usize = 0;
    while i < rows.len()
        invariant
            i <= rows@.len(),
            rows@.len() >= 64,
            rows@.len() < 0x1_0000_0000,
            dv(*value) == V::Array(vs),
            vs == dv_vals(rows@),
            vs.len() == rows@.len(),
            forall|j: int| 0 <= j < rows@.len() ==> #[trigger] vs[j] == dv(rows@[j]),
            kv == shape_view(keys),
            kv == field_keys(fields_of(vs[0])),
            forall|j: int|
                0 <= j < i ==> (#[trigger] vs[j] is Object) && field_keys(fields_of(vs[j])) == kv,
        decreases rows.len() - i,
    {
        match &rows[i] {
            SxValue::Object(f) => {
                let rk = crate::metadata::keys_of(f);
                if shape_compare(&rk, &keys) != 0 {
                    proof {
                        assert(!same_keys(vs)) by {
                            assert(field_keys(fields_of(vs[i as int])) != kv);
                        }
                    }
                    return None;
                }
            },
            _ => {
                proof {
                    assert(!same_keys(vs)) by {
                        assert(!(vs[i as int] is Object));
                    }
                }
                return None;
            },
        }
        i += 1;
    }
    assert(same_keys(vs));
    if keys.len() == 0 {
        return None;
    }
    let mut out: Vec<u8> = Vec::new();
    out.push(1);
    encode_varint(rows.len() as u64, &mut out);
    encode_varint(keys.len() as u64, &mut out);
    let ghost head = out@;
    assert(head =~= seq![1u8] + varint_bytes(vs.len()) + varint_bytes(kv.len()));
    let mut fid: usize = 0;
    proof {
        assert(kv.take(0) =~= Seq::<Seq<char>>::empty());
    }
    while fid < keys.len()
        invariant
            fid <= keys@.len(),
            rows@.len() >= 64,
            rows@.len() < 0x1_0000_0000,
            dv(*value) == V::Array(vs),
            same_keys(vs),
            kv == field_keys(fields_of(vs[0])),
            head == seq![1u8] + varint_bytes(vs.len()) + varint_bytes(kv.len()),
            vs == dv_vals(rows@),
            kv == shape_view(keys),
            kv.len() == keys@.len(),
            batch_columns(vs, kv.take(fid as int)) matches Some(b) && out@ == head + b,
        decreases keys.len() - fid,
    {
        encode_varint((fid + 1) as u64, &mut out);
        write_str(&mut out, keys[fid].as_str());
        let ok = write_batch_column(&mut out, rows, &keys[fid]);
        proof {
            assert(kv.take(fid + 1).drop_last() =~= kv.take(fid as int));
            assert(kv.take(fid + 1).last() == keys@[fid as int]@);
        }
        if !ok {
            proof {
                crate::columnar_enc::lemma_batch_columns_none(vs, kv, fid as int);
            }
            return None;
        }
        fid += 1;
    }
    proof {
        assert(kv.take(fid as int) =~= kv);
    }
    Some(out)
}

/// A missing column leaves the whole batch without a columnar form.
pub proof fn lemma_batch_columns_none(rows: Seq<V>, keys: Seq<Seq<char>>, k: int)
    requires
        0 <= k < keys.len(),
        batch_column(rows, keys[k]) is None,
    ensures
        batch_columns(rows, keys) is None,
    decreases keys.len(),
{
    if k < keys.len() - 1 {
        assert(keys.drop_last()[k] == keys[k]);
        lemma_batch_columns_none(rows, keys.drop_last(), k);
    }
}

} // verus!

verus! {

pub open spec fn all_f64(cs: Seq<Option<V>>) -> bool {
    forall|i: int| 0 <= i < cs.len() ==> #[trigger] cs[i] matches Some(V::F64(_))
}

pub open spec fn f64_cells(cs: Seq<Option<V>>) -> Seq<u64> {
    cs.map_values(|c: Option<V>| match c {
        Some(V::F64(x)) => x,
        _ => 0,
    })
}

pub open spec fn as_cells(vals: Seq<V>) -> Seq<Option<V>> {
    vals.map_values(|v: V| Some(v))
}

/// A table column in columnar form for `rows` rows: generic values that are
/// all `i64`, all `f64`, all booleans or all strings; any typed array (`i32`
/// and `u8` widen to `i64`, `f32` to `f64`).  A column of another length has
/// none.
pub open spec fn table_column_bytes(c: VColumn, rows: nat) -> Option<Seq<u8>> {
    match c {
        VColumn::Values(vals) => {
            let cs = as_cells(vals);
            if vals.len() != rows {
                None
            } else if all_i64(cs) {
                Some(i64_column_bytes(i64_cells(cs)))
            } else if all_f64(cs) {
                Some(f64_column_bytes(f64_cells(cs)))
            } else if all_bool(cs) {
                Some(bool_column_bytes(bool_cells(cs)))
            } else if all_strings(cs) {
                Some(dict_column_bytes(string_cells(cs)))
            } else {
                None
            }
        },
        VColumn::Typed(t) => match t {
            VTyped::U8(v) => if v.len() != rows {
                None
            } else {
                Some(i64_column_bytes(v.map_values(|x: u8| x as i64)))
            },
            VTyped::I32(v) => if v.len() != rows {
                None
            } else {
                Some(i64_column_bytes(v.map_values(|x: i32| x as i64)))
            },
            VTyped::F32(v) => if v.len() != rows {
                None
            } else {
                Some(f64_column_bytes(v.map_values(|x: u32| widen_f32_bits(x))))
            },
            VTyped::F64(v) => if v.len() != rows {
                None
            } else {
                Some(f64_column_bytes(v))
            },
            VTyped::Bool(v) => if v.len() != rows {
                None
            } else {
                Some(bool_column_bytes(v))
            },
        },
    }
}

/// The columns of a table, each after its field id and name.
pub open spec fn table_columns_bytes(cols: Seq<(Seq<char>, VColumn)>, rows: nat) -> Option<Seq<u8>>
    decreases cols.len(),
{
    if cols.len() == 0 {
        Some(Seq::empty())
    } else {
        match table_columns_bytes(cols.drop_last(), rows) {
            None => None,
            Some(pre) => match table_column_bytes(cols.last().1, rows) {
                None => None,
                Some(c) => Some(pre + varint_bytes(cols.len()) + enc_str(cols.last().0) + c),
            },
        }
    }
}

/// The columnar payload of a table: at least one column, at least 64 (and
/// fewer than 2^32) rows by its first column, every column in columnar form.
pub open spec fn columnar_table_bytes(v: V) -> Option<Seq<u8>> {
    match v {
        V::Table(cols) => if cols.len() == 0 {
            None
        } else {
            let rows = column_len(cols[0].1);
            if rows < 64 || rows >= 0x1_0000_0000 {
                None
            } else {
                match table_columns_bytes(cols, rows) {
                    None => None,
                    Some(b) => Some(seq![1u8] + varint_bytes(rows) + varint_bytes(cols.len()) + b),
                }
            }
        },
        _ => None,
    }
}

proof fn lemma_dv_kinds(v: SxValue)
    ensures
        (dv(v) is I64) <==> (v is I64),
        (dv(v) is F64) <==> (v is F64),
        (dv(v) is Bool) <==> (v is Bool),
        (dv(v) is String) <==> (v is String),
{
}

/// Which kind all values share: 1 for `i64`, 2 for `f64`, 3 for booleans, 4
/// for strings, checked in that order; 0 for none.
fn values_kind(vals: &Vec<SxValue>) -> (k: u8)
    ensures
        k == 1 <==> all_i64(as_cells(dv_vals(vals@))),
        k == 2 <==> !all_i64(as_cells(dv_vals(vals@))) && all_f64(as_cells(dv_vals(vals@))),
        k == 3 <==> !all_i64(as_cells(dv_vals(vals@))) && !all_f64(as_cells(dv_vals(vals@))) && all_bool(
            as_cells(dv_vals(vals@)),
        ),
        k == 4 <==> !all_i64(as_cells(dv_vals(vals@))) && !all_f64(as_cells(dv_vals(vals@))) && !all_bool(
            as_cells(dv_vals(vals@)),
        ) && all_strings(as_cells(dv_vals(vals@))),
        k <= 4,
{
    let ghost cs = as_cells(dv_vals(vals@));
    proof {
        lemma_dv_vals(vals@);
    }
    let mut is_i64 = true;
    let mut is_f64 = true;
    let mut is_bool = true;
    let mut is_str = true;
    let mut i: usize = 0;
    while i < vals.len()
        invariant
            i <= vals@.len(),
            cs == as_cells(dv_vals(vals@)),
            cs.len() == vals@.len(),
            forall|j: int| 0 <= j < vals@.len() ==> #[trigger] cs[j] == Some(dv(vals@[j])),
            is_i64 <==> forall|j: int| 0 <= j < i ==> #[trigger] cs[j] matches Some(V::I64(_)),
            is_f64 <==> forall|j: int| 0 <= j < i ==> #[trigger] cs[j] matches Some(V::F64(_)),
            is_bool <==> forall|j: int| 0 <= j < i ==> #[trigger] cs[j] matches Some(V::Bool(_)),
            is_str <==> forall|j: int| 0 <= j < i ==> #[trigger] cs[j] matches Some(V::String(_)),
        decreases vals.len() - i,
    {
        proof {
            lemma_dv_kinds(vals@[i as int]);
            assert(cs[i as int] == Some(dv(vals@[i as int])));
            assert forall|j: int| 0 <= j < i + 1 implies (#[trigger] cs[j] matches Some(V::I64(_))) <==> (j < i
                ==> cs[j] matches Some(V::I64(_))) && (j == i ==> vals@[i as int] is I64) by {}
        }
        match &vals[i] {
            SxValue::I64(_) => {
                is_f64 = false;
                is_bool = false;
                is_str = false;
            },
            SxValue::F64(_) => {
                is_i64 = false;
                is_bool = false;
                is_str = false;
            },
            SxValue::Bool(_) => {
                is_i64 = false;
                is_f64 = false;
                is_str = false;
            },
            SxValue::String(_) => {
                is_i64 = false;
                is_f64 = false;
                is_bool = false;
            },
            _ => {
                is_i64 = false;
                is_f64 = false;
                is_bool = false;
                is_str = false;
            },
        }
        i += 1;
    }
    if is_i64 {
        1
    } else if is_f64 {
        2
    } else if is_bool {
        3
    } else if is_str {
        4
    } else {
        0
    }
}

/// Writes a table column in columnar form, or gives `false`.
fn write_table_column(out: &mut Vec<u8>, c: &SxColumn, rows: usize) -> (ok: bool)
    requires
        rows < 0x1_0000_0000,
    ensures
        match table_column_bytes(dv_column(*c), rows as nat) {
            Some(b) => ok && final(out)@ == old(out)@ + b,
            None => !ok,
        },
{
    match c {
        SxColumn::Values(vals) => {
            let ghost cs = as_cells(dv_vals(vals@));
            proof {
                lemma_dv_vals(vals@);
            }
            if vals.len() != rows {
                return false;
            }
            let kind = values_kind(vals);
            if kind == 1 {
                let mut xs: Vec<i64> = Vec::new();
                let mut i: usize = 0;
                while i < vals.len()
                    invariant
                        i <= vals@.len(),
                        cs == as_cells(dv_vals(vals@)),
                        cs.len() == vals@.len(),
                        all_i64(cs),
                        forall|j: int| 0 <= j < vals@.len() ==> #[trigger] cs[j] == Some(dv(vals@[j])),
                        xs@.len() == i,
                        forall|j: int| 0 <= j < i ==> (#[trigger] cs[j] matches Some(V::I64(x)) && x == xs@[j]),
                    decreases vals.len() - i,
                {
                    assert(cs[i as int] matches Some(V::I64(_)));
                    match &vals[i] {
                        SxValue::I64(x) => xs.push(*x),
                        _ => {},
                    }
                    i += 1;
                }
                assert(xs@ =~= i64_cells(cs));
                write_i64_column(out, &xs);
                true
            } else if kind == 2 {
                let mut xs: Vec<u64> = Vec::new();
                let mut i: usize = 0;
                while i < vals.len()
                    invariant
                        i <= vals@.len(),
                        cs == as_cells(dv_vals(vals@)),
                        cs.len() == vals@.len(),
                        all_f64(cs),
                        forall|j: int| 0 <= j < vals@.len() ==> #[trigger] cs[j] == Some(dv(vals@[j])),
                        xs@.len() == i,
                        forall|j: int| 0 <= j < i ==> (#[trigger] cs[j] matches Some(V::F64(x)) && x == xs@[j]),
                    decreases vals.len() - i,
                {
                    assert(cs[i as int] matches Some(V::F64(_)));
                    match &vals[i] {
                        SxValue::F64(x) => xs.push(*x),
                        _ => {},
                    }
                    i += 1;
                }
                assert(xs@ =~= f64_cells(cs));
                write_f64_column(out, &xs);
                true
            } else if kind == 3 {
                let mut xs: Vec<bool> = Vec::new();
                let mut i: usize = 0;
                while i < vals.len()
                    invariant
                        i <= vals@.len(),
                        cs == as_cells(dv_vals(vals@)),
                        cs.len() == vals@.len(),
                        all_bool(cs),
                        forall|j: int| 0 <= j < vals@.len() ==> #[trigger] cs[j] == Some(dv(vals@[j])),
                        xs@.len() == i,
                        forall|j: int| 0 <= j < i ==> (#[trigger] cs[j] matches Some(V::Bool(x)) && x == xs@[j]),
                    decreases vals.len() - i,
                {
                    assert(cs[i as int] matches Some(V::Bool(_)));
                    match &vals[i] {
                        SxValue::Bool(x) => xs.push(*x),
                        _ => {},
                    }
                    i += 1;
                }
                assert(xs@ =~= bool_cells(cs));
                write_bool_column(out, &xs);
                true
            } else if kind == 4 {
                let mut xs: Vec<String> = Vec::new();
                let mut i: usize = 0;
                while i < vals.len()
                    invariant
                        i <= vals@.len(),
                        cs == as_cells(dv_vals(vals@)),
                        cs.len() == vals@.len(),
                        all_strings(cs),
                        forall|j: int| 0 <= j < vals@.len() ==> #[trigger] cs[j] == Some(dv(vals@[j])),
                        xs@.len() == i,
                        forall|j: int| 0 <= j < i ==> (#[trigger] cs[j] matches Some(V::String(x)) && x == xs@[j]@),
                    decreases vals.len() - i,
                {
                    assert(cs[i as int] matches Some(V::String(_)));
                    match &vals[i] {
                        SxValue::String(x) => xs.push(x.clone()),
                        _ => {},
                    }
                    i += 1;
                }
                assert(strs_view(xs@) =~= string_cells(cs));
                write_dict_column(out, &xs);
                true
            } else {
                false
            }
        },
        SxColumn::Typed(t) => match t {
            SxTypedArray::U8(v) => {
                if v.len() != rows {
                    return false;
                }
                let mut xs: Vec<i64> = Vec::new();
                let mut i: usize = 0;
                while i < v.len()
                    invariant
                        i <= v@.len(),
                        xs@.len() == i,
                        forall|j: int| 0 <= j < i ==> #[trigger] xs@[j] == v@[j] as i64,
                    decreases v.len() - i,
                {
                    xs.push(v[i] as i64);
                    i += 1;
                }
                assert(xs@ =~= v@.map_values(|x: u8| x as i64));
                write_i64_column(out, &xs);
                true
            },
            SxTypedArray::I32(v) => {
                if v.len() != rows {
                    return false;
                }
                let mut xs: Vec<i64> = Vec::new();
                let mut i: usize = 0;
                while i < v.len()
                    invariant
                        i <= v@.len(),
                        xs@.len() == i,
                        forall|j: int| 0 <= j < i ==> #[trigger] xs@[j] == v@[j] as i64,
                    decreases v.len() - i,
                {
                    xs.push(v[i] as i64);
                    i += 1;
                }
                assert(xs@ =~= v@.map_values(|x: i32| x as i64));
                write_i64_column(out, &xs);
                true
            },
            SxTypedArray::F32(v) => {
                if v.len() != rows {
                    return false;
                }
                let mut xs: Vec<u64> = Vec::new();
                let mut i: usize = 0;
                while i < v.len()
                    invariant
                        i <= v@.len(),
                        xs@.len() == i,
                        forall|j: int| 0 <= j < i ==> #[trigger] xs@[j] == widen_f32_bits(v@[j]),
                    decreases v.len() - i,
                {
                    xs.push(widen_f32(v[i]));
                    i += 1;
                }
                assert(xs@ =~= v@.map_values(|x: u32| widen_f32_bits(x)));
                write_f64_column(out, &xs);
                true
            },
            SxTypedArray::F64(v) => {
                if v.len() != rows {
                    return false;
                }
                write_f64_column(out, v);
                true
            },
            SxTypedArray::Bool(v) => {
                if v.len() != rows {
                    return false;
                }
                write_bool_column(out, v);
                true
            },
        },
    }
}

/// A missing column leaves the table without a columnar form.
pub proof fn lemma_table_columns_none(cols: Seq<(Seq<char>, VColumn)>, rows: nat, k: int)
    requires
        0 <= k < cols.len(),
        table_column_bytes(cols[k].1, rows) is None,
    ensures
        table_columns_bytes(cols, rows) is None,
    decreases cols.len(),
{
    if k < cols.len() - 1 {
        assert(cols.drop_last()[k] == cols[k]);
        lemma_table_columns_none(cols.drop_last(), rows, k);
    }
}

/// The columnar payload of a table, when it has one.
pub fn encode_columnar_table(value: &SxValue) -> (r: Option<Vec<u8>>)
    ensures
        match columnar_table_bytes(dv(*value)) {
            Some(b) => r matches Some(x) && x@ == b,
            None => r is None,
        },
{
    let table = match value {
        SxValue::Table(t) => t,
        _ => return None,
    };
    let ghost cs = dv_columns(table.columns@);
    proof {
        lemma_dv_columns(table.columns@);
    }
    if table.columns.len() == 0 {
        return None;
    }
    let rows = table.row_count();
    if rows < 64 || rows as u64 >= 0x1_0000_0000u64 {
        return None;
    }
    let mut out: Vec<u8> = Vec::new();
    out.push(1);
    encode_varint(rows as u64, &mut out);
    encode_varint(table.columns.len() as u64, &mut out);
    let ghost head = out@;
    assert(head =~= seq![1u8] + varint_bytes(rows as nat) + varint_bytes(cs.len()));
    let mut fid: usize = 0;
    proof {
        assert(cs.take(0) =~= Seq::<(Seq<char>, VColumn)>::empty());
    }
    while fid < table.columns.len()
        invariant
            fid <= table.columns@.len(),
            cs == dv_columns(table.columns@),
            cs.len() == table.columns@.len(),
            cs.len() > 0,
            forall|j: int| 0 <= j < cs.len() ==> #[trigger] cs[j] == (table.columns@[j].0@, dv_column(table.columns@[j].1)),
            dv(*value) == V::Table(cs),
            rows as nat == column_len(cs[0].1),
            64 <= rows < 0x1_0000_0000,
            head == seq![1u8] + varint_bytes(rows as nat) + varint_bytes(cs.len()),
            table_columns_bytes(cs.take(fid as int), rows as nat) matches Some(b) && out@ == head + b,
        decreases table.columns.len() - fid,
    {
        encode_varint((fid + 1) as u64, &mut out);
        write_str(&mut out, table.columns[fid].0.as_str());
        let ok = write_table_column(&mut out, &table.columns[fid].1, rows);
        proof {
            assert(cs.take(fid + 1).drop_last() =~= cs.take(fid as int));
            assert(cs.take(fid + 1).last() == cs[fid as int]);
        }
        if !ok {
            proof {
                lemma_table_columns_none(cs, rows as nat, fid as int);
            }
            return None;
        }
        fid += 1;
    }
    proof {
        assert(cs.take(fid as int) =~= cs);
    }
    Some(out)
}

} // verus!
