//! Reading one field of a written event batch straight from its columns
//! gives the rows' values under that field.
use crate::binary::{enc_bytes, enc_fixed, pack_bits, u64_words, unpack_bits};
use crate::bytes::lemma_pow256_values;
use crate::columnar::{as_i64s, as_u64s};
use crate::columnar_enc::{
    all_i64, all_strings, batch_column, batch_columns, bool_cells, bool_column_bytes, cells, event_batch_bytes,
    fields_of, i64_cells, string_cells,
    dict_column_bytes, dict_ids, dict_of, enc_varints, first_index, i64_column_bytes, i64_words,
    lemma_dict_contains, lemma_first_index_push,
};
use crate::columnar_law::{
    batch_keys, batch_rows_ok, lemma_batch_len, lemma_batch_prefix, lemma_byte, lemma_cell_read, lemma_col_head,
    lemma_dict_len, lemma_enc_varints_first, lemma_strs_at,
};
use crate::delta::lemma_lookup_own_key;
use crate::fields::lookup;
use crate::keys::sorted_keys;
use crate::metadata::field_keys;
use crate::roundtrip::{all_roundtrip, lemma_roundtrip_at};
use crate::value_ops::lemma_lookup_none;
use crate::decode::{byte_at, str_at};
use crate::binary::enc_str;
use crate::error::SxErrorCode;
use crate::fastpath::{
    batch_field_at, dict_ids_at, extract_column_at, field_of, pick_field, picks, scan_columns_at, skip_column_at,
    skip_varints_at,
};
use crate::metadata::enc_strs;
use crate::roundtrip::{holds, lemma_bytes_window, lemma_holds_split, lemma_unpack_pack, lemma_words_window, lemma_enc_fixed_len};
use crate::value::V;
use crate::varint::{lemma_varint_window, spec_read_varint, varint_bytes};
use vstd::prelude::*;

verus! {

proof fn lemma_dict_ids_read(b: Seq<u8>, pos: int, ids: Seq<nat>, d: Seq<Seq<char>>, acc: Seq<V>)
    requires
        holds(b, pos, enc_varints(ids)),
        forall|i: int| 0 <= i < ids.len() ==> #[trigger] ids[i] < d.len(),
        d.len() < 0x1_0000_0000,
    ensures
        dict_ids_at(b, pos, ids.len(), d, acc) == Ok::<Seq<V>, SxErrorCode>(
            acc + Seq::new(ids.len(), |i: int| V::String(d[ids[i] as int])),
        ),
    decreases ids.len(),
{
    if ids.len() == 0 {
        assert(acc + Seq::new(ids.len(), |i: int| V::String(d[ids[i] as int])) =~= acc);
    } else {
        lemma_enc_varints_first(ids);
        lemma_holds_split(b, pos, varint_bytes(ids[0]), enc_varints(ids.drop_first()));
        assert(ids[0] < d.len());
        lemma_varint_window(b, pos, ids[0] as u64);
        let t = ids.drop_first();
        assert forall|i: int| 0 <= i < t.len() implies #[trigger] t[i] < d.len() by {
            assert(t[i] == ids[i + 1]);
        }
        lemma_dict_ids_read(b, pos + varint_bytes(ids[0]).len(), t, d, acc.push(V::String(d[ids[0] as int])));
        assert(acc.push(V::String(d[ids[0] as int])) + Seq::new(t.len(), |i: int| V::String(d[t[i] as int]))
            =~= acc + Seq::new(ids.len(), |i: int| V::String(d[ids[i] as int])));
    }
}

proof fn lemma_skip_varints(b: Seq<u8>, pos: int, ids: Seq<nat>)
    requires
        holds(b, pos, enc_varints(ids)),
        forall|i: int| 0 <= i < ids.len() ==> #[trigger] ids[i] <= 0xffff_ffff_ffff_ffff,
    ensures
        skip_varints_at(b, pos, ids.len()) == Ok::<int, SxErrorCode>(pos + enc_varints(ids).len()),
    decreases ids.len(),
{
    if ids.len() > 0 {
        lemma_enc_varints_first(ids);
        lemma_holds_split(b, pos, varint_bytes(ids[0]), enc_varints(ids.drop_first()));
        assert(ids[0] <= 0xffff_ffff_ffff_ffff);
        lemma_varint_window(b, pos, ids[0] as u64);
        let t = ids.drop_first();
        assert forall|i: int| 0 <= i < t.len() implies #[trigger] t[i] <= 0xffff_ffff_ffff_ffff by {
            assert(t[i] == ids[i + 1]);
        }
        lemma_skip_varints(b, pos + varint_bytes(ids[0]).len(), t);
    }
}

/// A dictionary column, after its kind byte, is skipped to its end and
/// extracted as its strings.
#[verifier::spinoff_prover]
#[verifier::rlimit(40)]
pub proof fn lemma_dict_body(ss: Seq<Seq<char>>, b: Seq<u8>, p: int)
    requires
        ss.len() < 0x1_0000_0000,
        b.len() <= usize::MAX,
        holds(b, p - 1, dict_column_bytes(ss)),
    ensures
        skip_column_at(b, p, 1) == Ok::<int, SxErrorCode>(p - 1 + dict_column_bytes(ss).len()),
        extract_column_at(b, p, 1, ss.len()) == Ok::<Seq<V>, SxErrorCode>(
            Seq::new(ss.len(), |r: int| V::String(ss[r])),
        ),
{
    let c = dict_column_bytes(ss);
    let p2 = p - 1;
    let d = dict_of(ss);
    let ids = dict_ids(d, ss);
    lemma_dict_len(ss);
    let a1 = varint_bytes(d.len());
    let a2 = enc_strs(d);
    let a3 = varint_bytes(ss.len());
    let a4 = enc_varints(ids);
    assert(c == seq![1u8] + a1 + a2 + a3 + a4);
    lemma_holds_split(b, p2, seq![1u8] + a1 + a2 + a3, a4);
    lemma_holds_split(b, p2, seq![1u8] + a1 + a2, a3);
    lemma_holds_split(b, p2, seq![1u8] + a1, a2);
    lemma_byte(b, p2, 1u8, a1);
    lemma_varint_window(b, p, d.len() as u64);
    let q1 = p + a1.len();
    lemma_strs_at(b, q1, d, Seq::empty());
    assert(Seq::<Seq<char>>::empty() + d =~= d);
    let q2 = q1 + a2.len();
    lemma_varint_window(b, q2, ss.len() as u64);
    let q3 = q2 + a3.len();
    assert forall|i: int| 0 <= i < ids.len() implies #[trigger] ids[i] < d.len() && d[ids[i] as int] == ss[i] by {
        lemma_dict_contains(ss, i);
        lemma_first_index_push(d, ss[i], ss[i]);
    }
    lemma_skip_varints(b, q3, ids);
    lemma_dict_ids_read(b, q3, ids, d, Seq::empty());
    assert(Seq::<V>::empty() + Seq::new(ids.len(), |i: int| V::String(d[ids[i] as int])) =~= Seq::new(
        ss.len(),
        |r: int| V::String(ss[r]),
    ));
}

/// An `i64` column, after its kind byte, is skipped to its end and
/// extracted as its integers.
#[verifier::spinoff_prover]
#[verifier::rlimit(40)]
pub proof fn lemma_i64_body(vals: Seq<i64>, b: Seq<u8>, p: int)
    requires
        vals.len() < 0x1_0000_0000,
        b.len() <= usize::MAX,
        holds(b, p - 1, i64_column_bytes(vals)),
    ensures
        skip_column_at(b, p, 2) == Ok::<int, SxErrorCode>(p - 1 + i64_column_bytes(vals).len()),
        extract_column_at(b, p, 2, vals.len()) == Ok::<Seq<V>, SxErrorCode>(
            Seq::new(vals.len(), |r: int| V::I64(vals[r])),
        ),
{
    let ws = i64_words(vals);
    let n = vals.len();
    assert(i64_column_bytes(vals) == seq![2u8] + varint_bytes(n) + enc_fixed(ws, 8));
    lemma_holds_split(b, p - 1, seq![2u8] + varint_bytes(n), enc_fixed(ws, 8));
    lemma_byte(b, p - 1, 2u8, varint_bytes(n));
    lemma_varint_window(b, p, n as u64);
    let q1 = p + varint_bytes(n).len();
    lemma_pow256_values();
    assert(ws.take(0) =~= Seq::<nat>::empty());
    lemma_words_window(b, q1, ws, 8, Seq::empty(), 0);
    assert(enc_fixed(ws.take(0), 8) =~= Seq::<u8>::empty());
    lemma_enc_fixed_len(ws, 8);
    assert forall|j: int| 0 <= j < n implies #[trigger] as_i64s(ws)[j] == vals[j] by {
        let x = vals[j];
        assert(((x as u64) as i64) == x) by (bit_vector);
    }
    assert(as_i64s(ws).map_values(|x: i64| V::I64(x)) =~= Seq::new(n, |r: int| V::I64(vals[r])));
}

/// A boolean column, after its kind byte, is skipped to its end and
/// extracted as its booleans.
#[verifier::spinoff_prover]
#[verifier::rlimit(40)]
pub proof fn lemma_bool_body(bs: Seq<bool>, b: Seq<u8>, p: int)
    requires
        bs.len() < 0x1_0000_0000,
        b.len() <= usize::MAX,
        holds(b, p - 1, seq![3u8] + varint_bytes(bs.len()) + enc_bytes(pack_bits(bs))),
    ensures
        skip_column_at(b, p, 3) == Ok::<int, SxErrorCode>(
            p - 1 + (seq![3u8] + varint_bytes(bs.len()) + enc_bytes(pack_bits(bs))).len(),
        ),
        extract_column_at(b, p, 3, bs.len()) == Ok::<Seq<V>, SxErrorCode>(
            Seq::new(bs.len(), |r: int| V::Bool(bs[r])),
        ),
{
    let n = bs.len();
    let pk = pack_bits(bs);
    lemma_holds_split(b, p - 1, seq![3u8] + varint_bytes(n), enc_bytes(pk));
    lemma_byte(b, p - 1, 3u8, varint_bytes(n));
    lemma_varint_window(b, p, n as u64);
    let q1 = p + varint_bytes(n).len();
    lemma_bytes_window(b, q1, pk);
    lemma_unpack_pack(bs);
    assert forall|i: int| 0 <= i < n implies ((pk[i / 8] & crate::binary::bit_weight(i % 8)) != 0) == bs[i] by {
        assert(unpack_bits(pk, n)[i] == bs[i]);
    }
    assert(Seq::new(n, |i: int| V::Bool((pk[i / 8] & crate::binary::bit_weight(i % 8)) != 0)) =~= Seq::new(
        n,
        |r: int| V::Bool(bs[r]),
    ));
}


/// The value each row holds under `k`.
pub open spec fn col_vals(rows: Seq<V>, k: Seq<char>) -> Seq<V> {
    Seq::new(rows.len(), |r: int| cells(rows, k)[r]->Some_0)
}

/// A written column entry: its name and kind read back, it is skipped to
/// its end, and extracted as the rows' values under its key.
#[verifier::spinoff_prover]
#[verifier::rlimit(40)]
proof fn lemma_scan_col(rows: Seq<V>, k: Seq<char>, id: nat, b: Seq<u8>, pos: int)
    requires
        batch_column(rows, k) is Some,
        rows.len() < 0x1_0000_0000,
        id <= 0xffff_ffff_ffff_ffff,
        b.len() <= usize::MAX,
        holds(b, pos, varint_bytes(id) + enc_str(k) + batch_column(rows, k)->Some_0),
    ensures
        ({
            let p2 = pos + varint_bytes(id).len() + enc_str(k).len();
            let end = pos + (varint_bytes(id) + enc_str(k) + batch_column(rows, k)->Some_0).len();
            &&& spec_read_varint(b, pos) == Ok::<(u64, int), SxErrorCode>((id as u64, pos + varint_bytes(id).len()))
            &&& str_at(b, pos + varint_bytes(id).len()) == Ok::<(Seq<char>, int), SxErrorCode>((k, p2))
            &&& byte_at(b, p2) is Ok
            &&& byte_at(b, p2)->Ok_0.1 == p2 + 1
            &&& skip_column_at(b, p2 + 1, byte_at(b, p2)->Ok_0.0) == Ok::<int, SxErrorCode>(end)
            &&& extract_column_at(b, p2 + 1, byte_at(b, p2)->Ok_0.0, rows.len()) == Ok::<Seq<V>, SxErrorCode>(
                col_vals(rows, k),
            )
        }),
{
    let c = batch_column(rows, k)->Some_0;
    lemma_col_head(k, id, c, b, pos);
    let p2 = pos + varint_bytes(id).len() + enc_str(k).len();
    let cs = cells(rows, k);
    let n = rows.len();
    if all_strings(cs) {
        let ss = string_cells(cs);
        assert(seq![1u8] + c.subrange(1, c.len() as int) =~= c);
        lemma_byte(b, p2, 1u8, c.subrange(1, c.len() as int));
        lemma_dict_body(ss, b, p2 + 1);
        assert forall|r: int| 0 <= r < n implies #[trigger] cs[r]->Some_0 == V::String(ss[r]) by {
            assert(cs[r] matches Some(V::String(_)));
        }
        assert(Seq::new(ss.len(), |r: int| V::String(ss[r])) =~= col_vals(rows, k));
    } else if all_i64(cs) {
        let vals = i64_cells(cs);
        assert(seq![2u8] + c.subrange(1, c.len() as int) =~= c);
        lemma_byte(b, p2, 2u8, c.subrange(1, c.len() as int));
        lemma_i64_body(vals, b, p2 + 1);
        assert forall|r: int| 0 <= r < n implies #[trigger] cs[r]->Some_0 == V::I64(vals[r]) by {
            assert(cs[r] matches Some(V::I64(_)));
        }
        assert(Seq::new(vals.len(), |r: int| V::I64(vals[r])) =~= col_vals(rows, k));
    } else {
        let bs = bool_cells(cs);
        assert(c == bool_column_bytes(bs));
        assert(seq![3u8] + c.subrange(1, c.len() as int) =~= c);
        lemma_byte(b, p2, 3u8, c.subrange(1, c.len() as int));
        lemma_bool_body(bs, b, p2 + 1);
        assert forall|r: int| 0 <= r < n implies #[trigger] cs[r]->Some_0 == V::Bool(bs[r]) by {
            assert(cs[r] matches Some(V::Bool(_)));
        }
        assert(Seq::new(bs.len(), |r: int| V::Bool(bs[r])) =~= col_vals(rows, k));
    }
}

/// Some key from position `i` on is `f`.
pub open spec fn key_from(keys: Seq<Seq<char>>, f: Seq<char>, i: int) -> bool {
    exists|j: int| i <= j < keys.len() && keys[j] == f
}

/// Scanning the written columns from column `i` for `f`.
#[verifier::spinoff_prover]
#[verifier::rlimit(60)]
proof fn lemma_scan_cols(rows: Seq<V>, keys: Seq<Seq<char>>, f: Seq<char>, b: Seq<u8>, pos: int, i: nat)
    requires
        batch_columns(rows, keys) is Some,
        holds(b, pos, batch_columns(rows, keys)->Some_0),
        rows.len() < 0x1_0000_0000,
        keys.len() <= 0xffff_ffff_ffff_ffff,
        b.len() <= usize::MAX,
        i <= keys.len(),
    ensures
        scan_columns_at(
            b,
            pos + batch_columns(rows, keys.take(i as int))->Some_0.len(),
            (keys.len() - i) as nat,
            rows.len(),
            f,
        ) == Ok::<Seq<V>, SxErrorCode>(
            if key_from(keys, f, i as int) {
                col_vals(rows, f)
            } else {
                Seq::empty()
            },
        ),
    decreases keys.len() - i,
{
    let all = batch_columns(rows, keys)->Some_0;
    lemma_batch_prefix(rows, keys, i);
    if i == keys.len() {
        assert(!key_from(keys, f, i as int));
    } else {
        lemma_batch_prefix(rows, keys, i + 1);
        let t = keys.take(i as int + 1);
        assert(t.drop_last() =~= keys.take(i as int));
        assert(t.last() == keys[i as int]);
        let a = batch_columns(rows, keys.take(i as int))->Some_0;
        let c = batch_columns(rows, t)->Some_0;
        let e = varint_bytes(t.len()) + enc_str(keys[i as int]) + batch_column(rows, keys[i as int])->Some_0;
        assert(c =~= a + e);
        lemma_holds_split(b, pos, c, all.subrange(c.len() as int, all.len() as int));
        lemma_holds_split(b, pos, a, e);
        lemma_scan_col(rows, keys[i as int], t.len(), b, pos + a.len());
        if keys[i as int] == f {
            assert(key_from(keys, f, i as int));
        } else {
            lemma_scan_cols(rows, keys, f, b, pos, i + 1);
            if key_from(keys, f, i as int) {
                let j = choose|j: int| i <= j < keys.len() && keys[j] == f;
                assert(j != i);
                assert(key_from(keys, f, (i + 1) as int));
            }
            if key_from(keys, f, (i + 1) as int) {
                let j = choose|j: int| i + 1 <= j < keys.len() && keys[j] == f;
                assert(key_from(keys, f, i as int));
            }
        }
    }
}

/// The head of a written event-batch payload: version, row count, column
/// count, then the columns to the end.
#[verifier::spinoff_prover]
#[verifier::rlimit(40)]
proof fn lemma_batch_head(rows: Seq<V>)
    requires
        event_batch_bytes(V::Array(rows)) is Some,
        event_batch_bytes(V::Array(rows))->Some_0.len() <= usize::MAX,
    ensures
        ({
            let b = event_batch_bytes(V::Array(rows))->Some_0;
            let keys = batch_keys(rows);
            let p1: int = 1int + varint_bytes(rows.len()).len();
            let p2: int = p1 + varint_bytes(keys.len()).len();
            &&& byte_at(b, 0) == Ok::<(u8, int), SxErrorCode>((1u8, 1int))
            &&& spec_read_varint(b, 1) == Ok::<(u64, int), SxErrorCode>((rows.len() as u64, p1))
            &&& spec_read_varint(b, p1) == Ok::<(u64, int), SxErrorCode>((keys.len() as u64, p2))
            &&& batch_columns(rows, keys) is Some
            &&& holds(b, p2, batch_columns(rows, keys)->Some_0)
            &&& rows.len() < 0x1_0000_0000
            &&& keys.len() <= b.len()
        }),
{
    let b = event_batch_bytes(V::Array(rows))->Some_0;
    let keys = batch_keys(rows);
    let n = rows.len();
    let m = keys.len();
    let cb = batch_columns(rows, keys)->Some_0;
    assert(b == seq![1u8] + varint_bytes(n) + varint_bytes(m) + cb);
    assert(b.subrange(0, b.len() as int) =~= b);
    lemma_batch_len(rows, keys);
    lemma_holds_split(b, 0, seq![1u8] + varint_bytes(n) + varint_bytes(m), cb);
    lemma_holds_split(b, 0, seq![1u8] + varint_bytes(n), varint_bytes(m));
    lemma_byte(b, 0, 1u8, varint_bytes(n));
    lemma_varint_window(b, 1, n as u64);
    let p1: int = 1int + varint_bytes(n).len();
    lemma_varint_window(b, p1, m as u64);
}

/// Reading field `f` from a written event-batch payload.
#[verifier::spinoff_prover]
#[verifier::rlimit(40)]
pub proof fn lemma_batch_field(rows: Seq<V>, f: Seq<char>)
    requires
        event_batch_bytes(V::Array(rows)) is Some,
        event_batch_bytes(V::Array(rows))->Some_0.len() <= usize::MAX,
    ensures
        batch_field_at(event_batch_bytes(V::Array(rows))->Some_0, f) == Ok::<Seq<V>, SxErrorCode>(
            if key_from(batch_keys(rows), f, 0) {
                col_vals(rows, f)
            } else {
                Seq::empty()
            },
        ),
{
    let b = event_batch_bytes(V::Array(rows))->Some_0;
    let keys = batch_keys(rows);
    lemma_batch_head(rows);
    let p1: int = 1int + varint_bytes(rows.len()).len();
    let p2: int = p1 + varint_bytes(keys.len()).len();
    lemma_scan_cols(rows, keys, f, b, p2, 0);
    assert(keys.take(0) =~= Seq::<Seq<char>>::empty());
    assert(batch_columns(rows, keys.take(0))->Some_0.len() == 0);
}

proof fn lemma_picks_all(items: Seq<V>, f: Seq<char>)
    requires
        forall|r: int| 0 <= r < items.len() ==> (#[trigger] items[r]) is Object && lookup(fields_of(items[r]), f) is Some,
    ensures
        picks(items, f) == Seq::new(items.len(), |r: int| lookup(fields_of(items[r]), f)->Some_0),
    decreases items.len(),
{
    if items.len() > 0 {
        let t = items.drop_last();
        assert forall|r: int| 0 <= r < t.len() implies (#[trigger] t[r]) is Object && lookup(fields_of(t[r]), f) is Some by {
            assert(t[r] == items[r]);
        }
        lemma_picks_all(t, f);
        let l = items.last();
        assert(items[items.len() - 1] is Object);
        assert(Seq::new(t.len(), |r: int| lookup(fields_of(t[r]), f)->Some_0) + field_of(l, f) =~= Seq::new(
            items.len(),
            |r: int| lookup(fields_of(items[r]), f)->Some_0,
        ));
    }
}

proof fn lemma_picks_none(items: Seq<V>, f: Seq<char>)
    requires
        forall|r: int| 0 <= r < items.len() ==> (#[trigger] items[r]) is Object && lookup(fields_of(items[r]), f) is None,
    ensures
        picks(items, f) == Seq::<V>::empty(),
    decreases items.len(),
{
    if items.len() > 0 {
        let t = items.drop_last();
        assert forall|r: int| 0 <= r < t.len() implies (#[trigger] t[r]) is Object && lookup(fields_of(t[r]), f) is None by {
            assert(t[r] == items[r]);
        }
        lemma_picks_none(t, f);
        assert(items[items.len() - 1] is Object);
        assert(Seq::<V>::empty() + Seq::<V>::empty() =~= Seq::<V>::empty());
    }
}

/// Law: reading field `f` from a written event-batch payload gives each
/// row's value under `f`, in row order: `pick_field` of the rows.
pub proof fn law_batch_field(rows: Seq<V>, f: Seq<char>)
    requires
        event_batch_bytes(V::Array(rows)) is Some,
        all_roundtrip(rows),
        event_batch_bytes(V::Array(rows))->Some_0.len() <= usize::MAX,
    ensures
        batch_field_at(event_batch_bytes(V::Array(rows))->Some_0, f) == Ok::<Seq<V>, SxErrorCode>(
            pick_field(V::Array(rows), f),
        ),
{
    lemma_batch_field(rows, f);
    let keys = batch_keys(rows);
    assert forall|r: int| 0 <= r < rows.len() implies sorted_keys(fields_of(#[trigger] rows[r])) by {
        lemma_roundtrip_at(rows, r);
        assert(rows[r] is Object);
    }
    assert(batch_rows_ok(rows));
    if key_from(keys, f, 0) {
        let j = choose|j: int| 0 <= j < keys.len() && keys[j] == f;
        assert forall|r: int| 0 <= r < rows.len() implies (#[trigger] rows[r]) is Object && lookup(
            fields_of(rows[r]),
            f,
        ) is Some && lookup(fields_of(rows[r]), f)->Some_0 == col_vals(rows, f)[r] by {
            lemma_cell_read(rows, r, j);
            lemma_lookup_own_key(fields_of(rows[r]), j);
            assert(rows[r] is Object);
        }
        lemma_picks_all(rows, f);
        assert(Seq::new(rows.len(), |r: int| lookup(fields_of(rows[r]), f)->Some_0) =~= col_vals(rows, f));
    } else {
        assert forall|r: int| 0 <= r < rows.len() implies (#[trigger] rows[r]) is Object && lookup(
            fields_of(rows[r]),
            f,
        ) is None by {
            let fs = fields_of(rows[r]);
            assert(rows[r] is Object && field_keys(fs) == keys);
            assert forall|j: int| 0 <= j < fs.len() implies (#[trigger] fs[j]).0 != f by {
                assert(field_keys(fs)[j] == fs[j].0);
                assert(keys[j] == fs[j].0);
            }
            lemma_lookup_none(fs, f);
        }
        lemma_picks_none(rows, f);
    }
}

} // verus!
