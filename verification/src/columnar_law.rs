//! Reading back an event-batch payload: the columns the writer lays out
//! parse back to the rows' cells, and the rows rebuilt from them are the
//! rows written.
use crate::binary::{enc_bytes, enc_fixed, enc_str, pack_bits, u64_words, unpack_bits, widen_f32_bits};
use crate::bytes::{lemma_pow256_values, pow256};
use crate::columnar::{
    as_i64s, as_u64s, batch_rows, cell_of, columnar_table_of, dict_values, table_column_of, table_columns, col_list_at, column_at, column_body_at, columnar_at, event_batch_of, ids_at,
    row_at, strs_at, ColV,
};
use crate::columnar_enc::{
    all_bool, all_i64, all_strings, batch_column, batch_columns, bool_cells, bool_column_bytes, cells,
    dict_column_bytes, dict_ids, dict_of, enc_varints, event_batch_bytes, f64_column_bytes, fields_of, first_index,
    i64_cells,
    i64_column_bytes, i64_words, lemma_dict_contains, lemma_first_index_push, same_keys, string_cells,
};
use crate::container_law::lemma_enc_strs_first;
use crate::columnar_enc::{
    all_f64, as_cells, columnar_table_bytes, f64_cells, lemma_batch_columns_none, lemma_table_columns_none,
    table_column_bytes,
    table_columns_bytes,
};
use crate::delta::lemma_lookup_own_key;
use crate::fields::lookup;
use crate::keys::{key_lt, sorted_keys};
use crate::roundtrip::{all_roundtrip, decoded_entries, decoded_form, decoded_vals, lemma_insert_last, lemma_roundtrip_at, roundtrips};
use crate::decode::{byte_at, str_at};
use crate::error::SxErrorCode;
use crate::metadata::{enc_strs, field_keys};
use crate::roundtrip::{holds, lemma_bytes_window, lemma_holds_split, lemma_str_window, lemma_unpack_pack, lemma_words_window};
use crate::value::{V, VColumn, VTyped};
use crate::value_ops::column_len;
use crate::varint::{lemma_varint_window, spec_read_varint, varint_bytes};
use vstd::prelude::*;

verus! {

/// Dictionary ids as the reader keeps them.
pub open spec fn ids32(l: Seq<nat>) -> Seq<u32> {
    l.map_values(|x: nat| x as u32)
}

/// The column the reader gets back for key `k` of the rows.
pub open spec fn batch_col(rows: Seq<V>, k: Seq<char>) -> ColV {
    let cs = cells(rows, k);
    if all_strings(cs) {
        let ss = string_cells(cs);
        let d = dict_of(ss);
        ColV::Dict(k, d, ids32(dict_ids(d, ss)))
    } else if all_i64(cs) {
        ColV::I64(k, i64_cells(cs))
    } else {
        ColV::Bool(k, pack_bits(bool_cells(cs)), rows.len())
    }
}

pub proof fn lemma_byte(b: Seq<u8>, pos: int, t: u8, rest: Seq<u8>)
    requires
        holds(b, pos, seq![t] + rest),
    ensures
        byte_at(b, pos) == Ok::<(u8, int), SxErrorCode>((t, pos + 1)),
        holds(b, pos + 1, rest),
{
    lemma_holds_split(b, pos, seq![t], rest);
    assert(b.subrange(pos, pos + 1)[0] == b[pos]);
}

pub proof fn lemma_dict_len(strs: Seq<Seq<char>>)
    ensures
        dict_of(strs).len() <= strs.len(),
    decreases strs.len(),
{
    if strs.len() > 0 {
        lemma_dict_len(strs.drop_last());
    }
}

pub proof fn lemma_strs_at(b: Seq<u8>, pos: int, l: Seq<Seq<char>>, acc: Seq<Seq<char>>)
    requires
        holds(b, pos, enc_strs(l)),
        b.len() <= usize::MAX,
    ensures
        strs_at(b, pos, l.len(), acc) == Ok::<(Seq<Seq<char>>, int), SxErrorCode>(
            (acc + l, pos + enc_strs(l).len()),
        ),
    decreases l.len(),
{
    if l.len() == 0 {
        assert(acc + l =~= acc);
    } else {
        lemma_enc_strs_first(l);
        lemma_holds_split(b, pos, enc_str(l[0]), enc_strs(l.drop_first()));
        lemma_str_window(b, pos, l[0]);
        lemma_strs_at(b, pos + enc_str(l[0]).len(), l.drop_first(), acc.push(l[0]));
        assert(acc.push(l[0]) + l.drop_first() =~= acc + l);
    }
}

pub proof fn lemma_enc_varints_first(l: Seq<nat>)
    requires
        l.len() > 0,
    ensures
        enc_varints(l) == varint_bytes(l[0]) + enc_varints(l.drop_first()),
    decreases l.len(),
{
    if l.len() == 1 {
        assert(l.drop_first() =~= Seq::<nat>::empty());
        assert(l.drop_last() =~= Seq::<nat>::empty());
        assert(enc_varints(l) =~= varint_bytes(l[0]) + enc_varints(l.drop_first()));
    } else {
        let d = l.drop_last();
        lemma_enc_varints_first(d);
        assert(d.drop_first() =~= l.drop_first().drop_last());
        assert(l.drop_first().last() == l.last());
        assert(enc_varints(l) =~= varint_bytes(l[0]) + enc_varints(l.drop_first()));
    }
}

proof fn lemma_ids_at(b: Seq<u8>, pos: int, l: Seq<nat>, acc: Seq<u32>)
    requires
        holds(b, pos, enc_varints(l)),
        forall|i: int| 0 <= i < l.len() ==> #[trigger] l[i] < 0x1_0000_0000,
    ensures
        ids_at(b, pos, l.len(), acc) == Ok::<(Seq<u32>, int), SxErrorCode>(
            (acc + ids32(l), pos + enc_varints(l).len()),
        ),
    decreases l.len(),
{
    if l.len() == 0 {
        assert(acc + ids32(l) =~= acc);
    } else {
        lemma_enc_varints_first(l);
        lemma_holds_split(b, pos, varint_bytes(l[0]), enc_varints(l.drop_first()));
        assert(l[0] < 0x1_0000_0000);
        lemma_varint_window(b, pos, l[0] as u64);
        assert forall|i: int| 0 <= i < l.drop_first().len() implies #[trigger] l.drop_first()[i] < 0x1_0000_0000 by {
            assert(l.drop_first()[i] == l[i + 1]);
        }
        let x: u64 = l[0] as u64;
        assert(x as u32 == l[0] as u32);
        lemma_ids_at(b, pos + varint_bytes(l[0]).len(), l.drop_first(), acc.push(x as u32));
        assert(acc.push(l[0] as u32) + ids32(l.drop_first()) =~= acc + ids32(l));
    }
}

/// The id and name before a column: they read back, and the column's own
/// bytes follow.
pub proof fn lemma_col_head(k: Seq<char>, id: nat, c: Seq<u8>, b: Seq<u8>, pos: int)
    requires
        id <= 0xffff_ffff_ffff_ffff,
        b.len() <= usize::MAX,
        holds(b, pos, varint_bytes(id) + enc_str(k) + c),
    ensures
        spec_read_varint(b, pos) == Ok::<(u64, int), SxErrorCode>((id as u64, pos + varint_bytes(id).len())),
        str_at(b, pos + varint_bytes(id).len()) == Ok::<(Seq<char>, int), SxErrorCode>(
            (k, pos + varint_bytes(id).len() + enc_str(k).len()),
        ),
        holds(b, pos + varint_bytes(id).len() + enc_str(k).len(), c),
{
    lemma_holds_split(b, pos, varint_bytes(id) + enc_str(k), c);
    lemma_holds_split(b, pos, varint_bytes(id), enc_str(k));
    lemma_varint_window(b, pos, id as u64);
    lemma_str_window(b, pos + varint_bytes(id).len(), k);
}

/// A dictionary column of `ss` reads back.
#[verifier::spinoff_prover]
#[verifier::rlimit(40)]
proof fn lemma_dict_col_read(ss: Seq<Seq<char>>, k: Seq<char>, id: nat, b: Seq<u8>, pos: int)
    requires
        ss.len() < 0x1_0000_0000,
        id <= 0xffff_ffff_ffff_ffff,
        b.len() <= usize::MAX,
        holds(b, pos, varint_bytes(id) + enc_str(k) + dict_column_bytes(ss)),
    ensures
        column_at(b, pos, ss.len()) == Ok::<(ColV, int), SxErrorCode>(
            (
                ColV::Dict(k, dict_of(ss), ids32(dict_ids(dict_of(ss), ss))),
                pos + (varint_bytes(id) + enc_str(k) + dict_column_bytes(ss)).len(),
            ),
        ),
{
    reveal(column_at);
    reveal(column_body_at);
    let c = dict_column_bytes(ss);
    lemma_col_head(k, id, c, b, pos);
    let p2 = pos + varint_bytes(id).len() + enc_str(k).len();
    let d = dict_of(ss);
    let ids = dict_ids(d, ss);
    lemma_dict_len(ss);
    let a1 = varint_bytes(d.len());
    let a2 = enc_strs(d);
    let a3 = varint_bytes(ss.len());
    let a4 = enc_varints(ids);
    assert(c == seq![1u8] + a1 + a2 + a3 + a4);
    lemma_holds_split(b, p2, seq![1u8] + a1 + a2 + a3, a4);
    lemma_holds_split(b, p2, seq![1u8] + a1 + a2, a3);
    lemma_holds_split(b, p2, seq![1u8] + a1, a2);
    lemma_byte(b, p2, 1u8, a1);
    lemma_varint_window(b, p2 + 1, d.len() as u64);
    let q1 = p2 + 1 + a1.len();
    lemma_strs_at(b, q1, d, Seq::empty());
    assert(Seq::<Seq<char>>::empty() + d =~= d);
    let q2 = q1 + a2.len();
    lemma_varint_window(b, q2, ss.len() as u64);
    let q3 = q2 + a3.len();
    assert forall|i: int| 0 <= i < ids.len() implies #[trigger] ids[i] < 0x1_0000_0000 by {
        lemma_dict_contains(ss, i);
        lemma_first_index_push(d, ss[i], ss[i]);
    }
    lemma_ids_at(b, q3, ids, Seq::empty());
    assert(Seq::<u32>::empty() + ids32(ids) =~= ids32(ids));
}

/// Eight-byte words after a kind byte and a count read back.
#[verifier::spinoff_prover]
#[verifier::rlimit(40)]
proof fn lemma_words_col_read(kind: u8, ws: Seq<nat>, k: Seq<char>, id: nat, b: Seq<u8>, pos: int)
    requires
        kind == 2 || kind == 4,
        ws.len() < 0x1_0000_0000,
        forall|j: int| 0 <= j < ws.len() ==> #[trigger] ws[j] < 0x1_0000_0000_0000_0000,
        id <= 0xffff_ffff_ffff_ffff,
        b.len() <= usize::MAX,
        holds(b, pos, varint_bytes(id) + enc_str(k) + (seq![kind] + varint_bytes(ws.len()) + enc_fixed(ws, 8))),
    ensures
        column_at(b, pos, ws.len()) == Ok::<(ColV, int), SxErrorCode>(
            (
                if kind == 2 {
                    ColV::I64(k, as_i64s(ws))
                } else {
                    ColV::F64(k, as_u64s(ws))
                },
                pos + (varint_bytes(id) + enc_str(k) + (seq![kind] + varint_bytes(ws.len()) + enc_fixed(ws, 8))).len(),
            ),
        ),
{
    reveal(column_at);
    reveal(column_body_at);
    let c = seq![kind] + varint_bytes(ws.len()) + enc_fixed(ws, 8);
    lemma_col_head(k, id, c, b, pos);
    let p2 = pos + varint_bytes(id).len() + enc_str(k).len();
    lemma_holds_split(b, p2, seq![kind] + varint_bytes(ws.len()), enc_fixed(ws, 8));
    lemma_byte(b, p2, kind, varint_bytes(ws.len()));
    lemma_varint_window(b, p2 + 1, ws.len() as u64);
    let q1 = p2 + 1 + varint_bytes(ws.len()).len();
    lemma_pow256_values();
    assert(ws.take(0) =~= Seq::<nat>::empty());
    lemma_words_window(b, q1, ws, 8, Seq::empty(), 0);
    assert(enc_fixed(ws.take(0), 8) =~= Seq::<u8>::empty());
}

/// A boolean column of `bs` reads back.
#[verifier::spinoff_prover]
#[verifier::rlimit(40)]
proof fn lemma_bool_col_read(bs: Seq<bool>, k: Seq<char>, id: nat, b: Seq<u8>, pos: int)
    requires
        bs.len() < 0x1_0000_0000,
        id <= 0xffff_ffff_ffff_ffff,
        b.len() <= usize::MAX,
        holds(b, pos, varint_bytes(id) + enc_str(k) + bool_column_bytes(bs)),
    ensures
        column_at(b, pos, bs.len()) == Ok::<(ColV, int), SxErrorCode>(
            (
                ColV::Bool(k, pack_bits(bs), bs.len()),
                pos + (varint_bytes(id) + enc_str(k) + bool_column_bytes(bs)).len(),
            ),
        ),
{
    reveal(column_at);
    reveal(column_body_at);
    let c = bool_column_bytes(bs);
    lemma_col_head(k, id, c, b, pos);
    let p2 = pos + varint_bytes(id).len() + enc_str(k).len();
    assert(c == seq![3u8] + varint_bytes(bs.len()) + enc_bytes(pack_bits(bs)));
    lemma_holds_split(b, p2, seq![3u8] + varint_bytes(bs.len()), enc_bytes(pack_bits(bs)));
    lemma_byte(b, p2, 3u8, varint_bytes(bs.len()));
    lemma_varint_window(b, p2 + 1, bs.len() as u64);
    let q1 = p2 + 1 + varint_bytes(bs.len()).len();
    lemma_bytes_window(b, q1, pack_bits(bs));
}

/// An `i64` column of `vals` reads back.
proof fn lemma_i64_col_read(vals: Seq<i64>, k: Seq<char>, id: nat, b: Seq<u8>, pos: int)
    requires
        vals.len() < 0x1_0000_0000,
        id <= 0xffff_ffff_ffff_ffff,
        b.len() <= usize::MAX,
        holds(b, pos, varint_bytes(id) + enc_str(k) + i64_column_bytes(vals)),
    ensures
        column_at(b, pos, vals.len()) == Ok::<(ColV, int), SxErrorCode>(
            (ColV::I64(k, vals), pos + (varint_bytes(id) + enc_str(k) + i64_column_bytes(vals)).len()),
        ),
{
    let ws = i64_words(vals);
    assert(i64_column_bytes(vals) == seq![2u8] + varint_bytes(ws.len()) + enc_fixed(ws, 8));
    lemma_words_col_read(2u8, ws, k, id, b, pos);
    assert forall|j: int| 0 <= j < vals.len() implies #[trigger] as_i64s(ws)[j] == vals[j] by {
        let x = vals[j];
        assert(((x as u64) as i64) == x) by (bit_vector);
    }
    assert(as_i64s(ws) =~= vals);
}

/// An `f64` column of `bits` reads back.
proof fn lemma_f64_col_read(bits: Seq<u64>, k: Seq<char>, id: nat, b: Seq<u8>, pos: int)
    requires
        bits.len() < 0x1_0000_0000,
        id <= 0xffff_ffff_ffff_ffff,
        b.len() <= usize::MAX,
        holds(b, pos, varint_bytes(id) + enc_str(k) + f64_column_bytes(bits)),
    ensures
        column_at(b, pos, bits.len()) == Ok::<(ColV, int), SxErrorCode>(
            (ColV::F64(k, bits), pos + (varint_bytes(id) + enc_str(k) + f64_column_bytes(bits)).len()),
        ),
{
    let ws = u64_words(bits);
    assert(f64_column_bytes(bits) == seq![4u8] + varint_bytes(ws.len()) + enc_fixed(ws, 8));
    lemma_words_col_read(4u8, ws, k, id, b, pos);
    assert(as_u64s(ws) =~= bits);
}

/// One written column reads back as `batch_col`.
pub proof fn lemma_col_read(rows: Seq<V>, k: Seq<char>, id: nat, b: Seq<u8>, pos: int)
    requires
        batch_column(rows, k) is Some,
        rows.len() < 0x1_0000_0000,
        id <= 0xffff_ffff_ffff_ffff,
        b.len() <= usize::MAX,
        holds(b, pos, varint_bytes(id) + enc_str(k) + batch_column(rows, k)->Some_0),
    ensures
        column_at(b, pos, rows.len()) == Ok::<(ColV, int), SxErrorCode>(
            (batch_col(rows, k), pos + (varint_bytes(id) + enc_str(k) + batch_column(rows, k)->Some_0).len()),
        ),
{
    let cs = cells(rows, k);
    if all_strings(cs) {
        lemma_dict_col_read(string_cells(cs), k, id, b, pos);
    } else if all_i64(cs) {
        lemma_i64_col_read(i64_cells(cs), k, id, b, pos);
    } else {
        lemma_bool_col_read(bool_cells(cs), k, id, b, pos);
    }
}

/// The columns the reader gets back for the keys.
pub open spec fn batch_cols(rows: Seq<V>, keys: Seq<Seq<char>>) -> Seq<ColV> {
    Seq::new(keys.len(), |j: int| batch_col(rows, keys[j]))
}

/// The columns of a prefix of the keys are written at the front.
pub proof fn lemma_batch_prefix(rows: Seq<V>, keys: Seq<Seq<char>>, i: nat)
    requires
        batch_columns(rows, keys) is Some,
        i <= keys.len(),
    ensures
        batch_columns(rows, keys.take(i as int)) is Some,
        batch_columns(rows, keys.take(i as int))->Some_0.len() <= batch_columns(rows, keys)->Some_0.len(),
        batch_columns(rows, keys)->Some_0 == batch_columns(rows, keys.take(i as int))->Some_0
            + batch_columns(rows, keys)->Some_0.subrange(
            batch_columns(rows, keys.take(i as int))->Some_0.len() as int,
            batch_columns(rows, keys)->Some_0.len() as int,
        ),
    decreases keys.len() - i,
{
    let all = batch_columns(rows, keys)->Some_0;
    if i == keys.len() {
        assert(keys.take(i as int) =~= keys);
        assert(all.subrange(all.len() as int, all.len() as int) =~= Seq::<u8>::empty());
        assert(all + Seq::<u8>::empty() =~= all);
    } else {
        lemma_batch_prefix(rows, keys, i + 1);
        let t = keys.take(i as int + 1);
        assert(t.drop_last() =~= keys.take(i as int));
        let c = batch_columns(rows, t)->Some_0;
        let a = batch_columns(rows, keys.take(i as int))->Some_0;
        assert(c.len() >= a.len());
        assert(c.subrange(0, a.len() as int) =~= a);
        assert(all =~= a + all.subrange(a.len() as int, all.len() as int));
    }
}

/// The written columns read back one after another.
#[verifier::spinoff_prover]
#[verifier::rlimit(60)]
proof fn lemma_cols_read(rows: Seq<V>, keys: Seq<Seq<char>>, b: Seq<u8>, pos: int, i: nat)
    requires
        batch_columns(rows, keys) is Some,
        holds(b, pos, batch_columns(rows, keys)->Some_0),
        rows.len() < 0x1_0000_0000,
        keys.len() <= 0xffff_ffff_ffff_ffff,
        b.len() <= usize::MAX,
        i <= keys.len(),
    ensures
        col_list_at(
            b,
            pos + batch_columns(rows, keys.take(i as int))->Some_0.len(),
            (keys.len() - i) as nat,
            rows.len(),
            batch_cols(rows, keys).take(i as int),
        ) == Ok::<(Seq<ColV>, int), SxErrorCode>(
            (batch_cols(rows, keys), pos + batch_columns(rows, keys)->Some_0.len()),
        ),
    decreases keys.len() - i,
{
    let all = batch_columns(rows, keys)->Some_0;
    lemma_batch_prefix(rows, keys, i);
    if i == keys.len() {
        assert(keys.take(i as int) =~= keys);
        assert(batch_cols(rows, keys).take(i as int) =~= batch_cols(rows, keys));
    } else {
        lemma_batch_prefix(rows, keys, i + 1);
        let t = keys.take(i as int + 1);
        assert(t.drop_last() =~= keys.take(i as int));
        assert(t.last() == keys[i as int]);
        let a = batch_columns(rows, keys.take(i as int))->Some_0;
        let c = batch_columns(rows, t)->Some_0;
        let e = varint_bytes(t.len()) + enc_str(keys[i as int]) + batch_column(rows, keys[i as int])->Some_0;
        assert(c =~= a + e);
        lemma_holds_split(b, pos, c, all.subrange(c.len() as int, all.len() as int));
        lemma_holds_split(b, pos, a, e);
        lemma_col_read(rows, keys[i as int], t.len(), b, pos + a.len());
        assert(batch_cols(rows, keys).take(i as int).push(batch_col(rows, keys[i as int]))
            =~= batch_cols(rows, keys).take(i as int + 1));
        lemma_cols_read(rows, keys, b, pos, i + 1);
    }
}

pub proof fn lemma_batch_len(rows: Seq<V>, keys: Seq<Seq<char>>)
    requires
        batch_columns(rows, keys) is Some,
    ensures
        batch_columns(rows, keys)->Some_0.len() >= keys.len(),
    decreases keys.len(),
{
    if keys.len() > 0 {
        lemma_batch_len(rows, keys.drop_last());
    }
}

/// The keys of an event batch and the payload's columns.
pub open spec fn batch_keys(rows: Seq<V>) -> Seq<Seq<char>> {
    field_keys(fields_of(rows[0]))
}

/// An event-batch payload parses to its row count and `batch_cols`.
#[verifier::spinoff_prover]
#[verifier::rlimit(40)]
pub proof fn lemma_columnar_read(rows: Seq<V>)
    requires
        event_batch_bytes(V::Array(rows)) is Some,
        event_batch_bytes(V::Array(rows))->Some_0.len() <= usize::MAX,
    ensures
        columnar_at(event_batch_bytes(V::Array(rows))->Some_0) == Ok::<(nat, Seq<ColV>), SxErrorCode>(
            (rows.len(), batch_cols(rows, batch_keys(rows))),
        ),
{
    let b = event_batch_bytes(V::Array(rows))->Some_0;
    let keys = batch_keys(rows);
    let n = rows.len();
    let m = keys.len();
    let cb = batch_columns(rows, keys)->Some_0;
    assert(b == seq![1u8] + varint_bytes(n) + varint_bytes(m) + cb);
    assert(b.subrange(0, b.len() as int) =~= b);
    assert(holds(b, 0, b));
    lemma_batch_len(rows, keys);
    lemma_holds_split(b, 0, seq![1u8] + varint_bytes(n) + varint_bytes(m), cb);
    lemma_holds_split(b, 0, seq![1u8] + varint_bytes(n), varint_bytes(m));
    lemma_byte(b, 0, 1u8, varint_bytes(n));
    lemma_varint_window(b, 1, n as u64);
    let p1: int = 1int + varint_bytes(n).len();
    lemma_varint_window(b, p1, m as u64);
    let p2: int = p1 + varint_bytes(m).len();
    lemma_cols_read(rows, keys, b, p2, 0);
    assert(keys.take(0) =~= Seq::<Seq<char>>::empty());
    assert(batch_cols(rows, keys).take(0) =~= Seq::<ColV>::empty());
}


/// A cell the event-batch encoding keeps as it is.
pub open spec fn batch_scalar(x: V) -> bool {
    x is String || x is I64 || x is Bool
}

/// The rows an event batch is made of: objects with the keys of the first,
/// each with its keys ascending.
pub open spec fn batch_rows_ok(rows: Seq<V>) -> bool {
    &&& 0 < rows.len() < 0x1_0000_0000
    &&& same_keys(rows)
    &&& forall|r: int| 0 <= r < rows.len() ==> sorted_keys(fields_of(#[trigger] rows[r]))
    &&& batch_columns(rows, batch_keys(rows)) is Some
}

#[verifier::spinoff_prover]
proof fn lemma_cell_dict(ss: Seq<Seq<char>>, k: Seq<char>, r: int)
    requires
        0 <= r < ss.len(),
        ss.len() < 0x1_0000_0000,
    ensures
        cell_of(ColV::Dict(k, dict_of(ss), ids32(dict_ids(dict_of(ss), ss))), r as nat) == Ok::<
            (Seq<char>, V),
            SxErrorCode,
        >((k, V::String(ss[r]))),
{
    let d = dict_of(ss);
    let ids = dict_ids(d, ss);
    lemma_dict_contains(ss, r);
    lemma_dict_len(ss);
    lemma_first_index_push(d, ss[r], ss[r]);
    assert(ids[r] == first_index(d, ss[r]));
    assert(ids[r] < 0x1_0000_0000);
    assert(ids32(ids)[r] == ids[r] as u32);
    assert(ids32(ids)[r] as nat == ids[r]);
}

#[verifier::spinoff_prover]
proof fn lemma_cell_packed(p: Seq<u8>, bs: Seq<bool>, k: Seq<char>, r: int)
    requires
        0 <= r < bs.len(),
        p.len() == (bs.len() + 7) / 8,
        unpack_bits(p, bs.len()) == bs,
    ensures
        cell_of(ColV::Bool(k, p, bs.len()), r as nat) == Ok::<(Seq<char>, V), SxErrorCode>((k, V::Bool(bs[r]))),
{
    let n = bs.len();
    let q: int = r / 8;
    let m: int = r % 8;
    assert(q < (n + 7) / 8 && 0 <= q) by (nonlinear_arith)
        requires
            0 <= r < n,
            q == r / 8,
    ;
    assert(((r as nat) / 8) as int == q);
    assert(((r as nat) % 8) as int == m);
    assert(unpack_bits(p, n)[r] == ((p[q] & crate::binary::bit_weight(m)) != 0));
}

#[verifier::spinoff_prover]
proof fn lemma_cell_bool(bs: Seq<bool>, k: Seq<char>, r: int)
    requires
        0 <= r < bs.len(),
    ensures
        cell_of(ColV::Bool(k, pack_bits(bs), bs.len()), r as nat) == Ok::<(Seq<char>, V), SxErrorCode>(
            (k, V::Bool(bs[r])),
        ),
{
    lemma_unpack_pack(bs);
    lemma_cell_packed(pack_bits(bs), bs, k, r);
}

#[verifier::spinoff_prover]
proof fn lemma_cell_kind(rows: Seq<V>, k: Seq<char>, r: int, x: V)
    requires
        batch_column(rows, k) is Some,
        rows.len() < 0x1_0000_0000,
        0 <= r < rows.len(),
        cells(rows, k)[r] == Some(x),
    ensures
        cell_of(batch_col(rows, k), r as nat) == Ok::<(Seq<char>, V), SxErrorCode>((k, x)),
        batch_scalar(x),
{
    let cs = cells(rows, k);
    if all_strings(cs) {
        assert(cs[r] matches Some(V::String(_)));
        lemma_cell_dict(string_cells(cs), k, r);
        assert(string_cells(cs)[r] == cs[r]->Some_0->String_0);
    } else if all_i64(cs) {
        assert(cs[r] matches Some(V::I64(_)));
    } else {
        assert(all_bool(cs));
        assert(cs[r] matches Some(V::Bool(_)));
        lemma_cell_bool(bool_cells(cs), k, r);
    }
}

/// Row `r`'s cell of column `j` reads back as its field `j`.
#[verifier::spinoff_prover]
pub proof fn lemma_cell_read(rows: Seq<V>, r: int, j: int)
    requires
        batch_rows_ok(rows),
        0 <= r < rows.len(),
        0 <= j < batch_keys(rows).len(),
    ensures
        fields_of(rows[r]).len() == batch_keys(rows).len(),
        fields_of(rows[r])[j].0 == batch_keys(rows)[j],
        cell_of(batch_col(rows, batch_keys(rows)[j]), r as nat) == Ok::<(Seq<char>, V), SxErrorCode>(
            (batch_keys(rows)[j], fields_of(rows[r])[j].1),
        ),
        batch_scalar(fields_of(rows[r])[j].1),
{
    let keys = batch_keys(rows);
    let k = keys[j];
    let fs = fields_of(rows[r]);
    assert(rows[r] is Object && field_keys(fields_of(rows[r])) == field_keys(fields_of(rows[0])));
    assert(field_keys(fs).len() == fs.len());
    assert(field_keys(fs)[j] == fs[j].0);
    assert(sorted_keys(fs));
    lemma_lookup_own_key(fs, j);
    if batch_column(rows, k) is None {
        lemma_batch_columns_none(rows, keys, j);
    }
    assert(cells(rows, k)[r] == lookup(fields_of(rows[r]), k));
    lemma_cell_kind(rows, k, r, fs[j].1);
}

/// Row `r` read back from columns `k ..` completes its first `k` fields.
proof fn lemma_row_read(rows: Seq<V>, r: int, k: nat)
    requires
        batch_rows_ok(rows),
        0 <= r < rows.len(),
        k <= batch_keys(rows).len(),
    ensures
        row_at(batch_cols(rows, batch_keys(rows)), r as nat, k, fields_of(rows[r]).take(k as int))
            == Ok::<Seq<(Seq<char>, V)>, SxErrorCode>(fields_of(rows[r])),
    decreases batch_keys(rows).len() - k,
{
    let keys = batch_keys(rows);
    let cs = batch_cols(rows, keys);
    let fs = fields_of(rows[r]);
    assert(rows[r] is Object);
    assert(field_keys(fs) == keys);
    assert(field_keys(fs).len() == fs.len());
    if k == keys.len() {
        assert(fs.take(k as int) =~= fs);
    } else {
        lemma_cell_read(rows, r, k as int);
        assert(cs[k as int] == batch_col(rows, keys[k as int]));
        assert(sorted_keys(fs));
        assert forall|i: int| 0 <= i < fs.take(k as int).len() implies key_lt(
            #[trigger] fs.take(k as int)[i].0,
            keys[k as int],
        ) by {
            assert(fs.take(k as int)[i] == fs[i]);
        }
        lemma_insert_last(fs.take(k as int), keys[k as int], fs[k as int].1);
        assert(fs.take(k as int).push((keys[k as int], fs[k as int].1)) =~= fs.take(k as int + 1));
        lemma_row_read(rows, r, k + 1);
    }
}

/// The rows read back from the columns are the rows written.
proof fn lemma_rows_read(rows: Seq<V>, r: nat)
    requires
        batch_rows_ok(rows),
        r <= rows.len(),
    ensures
        batch_rows(batch_cols(rows, batch_keys(rows)), rows.len(), r, rows.take(r as int))
            == Ok::<Seq<V>, SxErrorCode>(rows),
    decreases rows.len() - r,
{
    if r == rows.len() {
        assert(rows.take(r as int) =~= rows);
    } else {
        lemma_row_read(rows, r as int, 0);
        assert(fields_of(rows[r as int]).take(0) =~= Seq::<(Seq<char>, V)>::empty());
        assert(rows[r as int] is Object);
        assert(rows[r as int] == V::Object(fields_of(rows[r as int])));
        assert(rows.take(r as int).push(rows[r as int]) =~= rows.take(r as int + 1));
        lemma_rows_read(rows, r + 1);
    }
}

proof fn lemma_decoded_scalar_entries(fs: Seq<(Seq<char>, V)>)
    requires
        forall|j: int| 0 <= j < fs.len() ==> batch_scalar(#[trigger] fs[j].1),
    ensures
        decoded_entries(fs) == fs,
    decreases fs.len(),
{
    if fs.len() > 0 {
        assert forall|j: int| 0 <= j < fs.drop_last().len() implies batch_scalar(#[trigger] fs.drop_last()[j].1) by {
            assert(fs.drop_last()[j] == fs[j]);
        }
        lemma_decoded_scalar_entries(fs.drop_last());
        assert(batch_scalar(fs[fs.len() - 1].1));
        assert(fs.drop_last().push((fs.last().0, decoded_form(fs.last().1))) =~= fs);
    }
}

/// Event-batch rows are their own decoded form.
proof fn lemma_decoded_rows(rows: Seq<V>, n: nat)
    requires
        batch_rows_ok(rows),
        n <= rows.len(),
    ensures
        decoded_vals(rows.take(n as int)) == rows.take(n as int),
    decreases n,
{
    if n > 0 {
        lemma_decoded_rows(rows, (n - 1) as nat);
        let t = rows.take(n as int);
        assert(t.drop_last() =~= rows.take(n as int - 1));
        let r = n - 1;
        let fs = fields_of(rows[r]);
        assert(rows[r] is Object);
        assert(field_keys(fs) == batch_keys(rows));
        assert(field_keys(fs).len() == fs.len());
        assert forall|j: int| 0 <= j < fs.len() implies batch_scalar(#[trigger] fs[j].1) by {
            lemma_cell_read(rows, r, j);
        }
        lemma_decoded_scalar_entries(fs);
        assert(rows[r] == V::Object(fs));
        assert(decoded_form(t.last()) == t.last());
        assert(decoded_vals(t.drop_last()).push(decoded_form(t.last())) =~= t);
    }
}

/// Law: an event-batch payload reads back as the rows written, and those
/// rows are their own decoded form.
pub proof fn law_event_batch_roundtrip(rows: Seq<V>)
    requires
        event_batch_bytes(V::Array(rows)) is Some,
        all_roundtrip(rows),
        event_batch_bytes(V::Array(rows))->Some_0.len() <= usize::MAX,
    ensures
        event_batch_of(event_batch_bytes(V::Array(rows))->Some_0) == Ok::<V, SxErrorCode>(
            decoded_form(V::Array(rows)),
        ),
{
    assert forall|r: int| 0 <= r < rows.len() implies sorted_keys(fields_of(#[trigger] rows[r])) by {
        lemma_roundtrip_at(rows, r);
        assert(rows[r] is Object);
    }
    assert(batch_rows_ok(rows));
    lemma_columnar_read(rows);
    lemma_rows_read(rows, 0);
    assert(rows.take(0) =~= Seq::<V>::empty());
    lemma_decoded_rows(rows, rows.len());
    assert(rows.take(rows.len() as int) =~= rows);
}


// ---------------------------------------------------------------------------
// Columnar tables
// ---------------------------------------------------------------------------

/// The column the reader gets back for a table column of `n` rows.
pub open spec fn table_col(k: Seq<char>, c: VColumn, n: nat) -> ColV {
    match c {
        VColumn::Values(vals) => {
            let cs = as_cells(vals);
            if all_i64(cs) {
                ColV::I64(k, i64_cells(cs))
            } else if all_f64(cs) {
                ColV::F64(k, f64_cells(cs))
            } else if all_bool(cs) {
                ColV::Bool(k, pack_bits(bool_cells(cs)), n)
            } else {
                let ss = string_cells(cs);
                ColV::Dict(k, dict_of(ss), ids32(dict_ids(dict_of(ss), ss)))
            }
        },
        VColumn::Typed(t) => match t {
            VTyped::U8(v) => ColV::I64(k, Seq::new(v.len(), |i: int| v[i] as i64)),
            VTyped::I32(v) => ColV::I64(k, Seq::new(v.len(), |i: int| v[i] as i64)),
            VTyped::F32(v) => ColV::F64(k, Seq::new(v.len(), |i: int| widen_f32_bits(v[i]))),
            VTyped::F64(v) => ColV::F64(k, v),
            VTyped::Bool(v) => ColV::Bool(k, pack_bits(v), n),
        },
    }
}

/// What a table column reads back as from the columnar form: generic
/// values, a typed column's elements widened (`u8` and `i32` to `i64`, `f32`
/// to `f64`).
pub open spec fn col_read_form(c: VColumn) -> VColumn {
    match c {
        VColumn::Values(vals) => VColumn::Values(vals),
        VColumn::Typed(t) => VColumn::Values(
            match t {
                VTyped::U8(v) => Seq::new(v.len(), |i: int| V::I64(v[i] as i64)),
                VTyped::I32(v) => Seq::new(v.len(), |i: int| V::I64(v[i] as i64)),
                VTyped::F32(v) => Seq::new(v.len(), |i: int| V::F64(widen_f32_bits(v[i]))),
                VTyped::F64(v) => Seq::new(v.len(), |i: int| V::F64(v[i])),
                VTyped::Bool(v) => Seq::new(v.len(), |i: int| V::Bool(v[i])),
            },
        ),
    }
}

/// The columns of a table as read back from the columnar form.
pub open spec fn table_read_form(cols: Seq<(Seq<char>, VColumn)>) -> Seq<(Seq<char>, VColumn)> {
    Seq::new(cols.len(), |j: int| (cols[j].0, col_read_form(cols[j].1)))
}

pub open spec fn table_cols(cols: Seq<(Seq<char>, VColumn)>, n: nat) -> Seq<ColV> {
    Seq::new(cols.len(), |j: int| table_col(cols[j].0, cols[j].1, n))
}

/// A table column reads back as `table_col`.
#[verifier::spinoff_prover]
#[verifier::rlimit(40)]
proof fn lemma_table_col_read(k: Seq<char>, c: VColumn, n: nat, id: nat, b: Seq<u8>, pos: int)
    requires
        table_column_bytes(c, n) is Some,
        n < 0x1_0000_0000,
        id <= 0xffff_ffff_ffff_ffff,
        b.len() <= usize::MAX,
        holds(b, pos, varint_bytes(id) + enc_str(k) + table_column_bytes(c, n)->Some_0),
    ensures
        column_at(b, pos, n) == Ok::<(ColV, int), SxErrorCode>(
            (table_col(k, c, n), pos + (varint_bytes(id) + enc_str(k) + table_column_bytes(c, n)->Some_0).len()),
        ),
{
    match c {
        VColumn::Values(vals) => {
            let cs = as_cells(vals);
            if all_i64(cs) {
                lemma_i64_col_read(i64_cells(cs), k, id, b, pos);
            } else if all_f64(cs) {
                lemma_f64_col_read(f64_cells(cs), k, id, b, pos);
            } else if all_bool(cs) {
                lemma_bool_col_read(bool_cells(cs), k, id, b, pos);
            } else {
                lemma_dict_col_read(string_cells(cs), k, id, b, pos);
            }
        },
        VColumn::Typed(t) => match t {
            VTyped::U8(v) => {
                let w = Seq::new(v.len(), |i: int| v[i] as i64);
                assert(w =~= v.map_values(|x: u8| x as i64));
                lemma_i64_col_read(w, k, id, b, pos);
            },
            VTyped::I32(v) => {
                let w = Seq::new(v.len(), |i: int| v[i] as i64);
                assert(w =~= v.map_values(|x: i32| x as i64));
                lemma_i64_col_read(w, k, id, b, pos);
            },
            VTyped::F32(v) => {
                let w = Seq::new(v.len(), |i: int| widen_f32_bits(v[i]));
                assert(w =~= v.map_values(|x: u32| widen_f32_bits(x)));
                lemma_f64_col_read(w, k, id, b, pos);
            },
            VTyped::F64(v) => {
                lemma_f64_col_read(v, k, id, b, pos);
            },
            VTyped::Bool(v) => {
                lemma_bool_col_read(v, k, id, b, pos);
            },
        },
    }
}

proof fn lemma_dict_values(ss: Seq<Seq<char>>, i: nat)
    requires
        i <= ss.len(),
        ss.len() < 0x1_0000_0000,
    ensures
        dict_values(
            dict_of(ss),
            ids32(dict_ids(dict_of(ss), ss)),
            i,
            Seq::new(i, |j: int| V::String(ss[j])),
        ) == Ok::<Seq<V>, SxErrorCode>(Seq::new(ss.len(), |j: int| V::String(ss[j]))),
    decreases ss.len() - i,
{
    if i < ss.len() {
        lemma_cell_dict(ss, Seq::empty(), i as int);
        assert(Seq::new(i, |j: int| V::String(ss[j])).push(V::String(ss[i as int])) =~= Seq::new(
            i + 1,
            |j: int| V::String(ss[j]),
        ));
        lemma_dict_values(ss, i + 1);
    } else {
        assert(Seq::new(i, |j: int| V::String(ss[j])) =~= Seq::new(ss.len(), |j: int| V::String(ss[j])));
    }
}

proof fn lemma_packed_values(bs: Seq<bool>, k: Seq<char>)
    ensures
        table_column_of(ColV::Bool(k, pack_bits(bs), bs.len())) == Ok::<(Seq<char>, VColumn), SxErrorCode>(
            (k, VColumn::Values(Seq::new(bs.len(), |i: int| V::Bool(bs[i])))),
        ),
{
    lemma_unpack_pack(bs);
    let p = pack_bits(bs);
    let n = bs.len();
    assert forall|i: int| 0 <= i < n implies ((p[i / 8] & crate::binary::bit_weight(i % 8)) != 0) == bs[i] by {
        assert(unpack_bits(p, n)[i] == bs[i]);
    }
    assert(Seq::new(n, |i: int| V::Bool((p[i / 8] & crate::binary::bit_weight(i % 8)) != 0)) =~= Seq::new(
        n,
        |i: int| V::Bool(bs[i]),
    ));
}

/// A table column's columnar form turns back into `col_read_form`.
#[verifier::spinoff_prover]
#[verifier::rlimit(40)]
proof fn lemma_table_col_of(k: Seq<char>, c: VColumn, n: nat)
    requires
        table_column_bytes(c, n) is Some,
        n < 0x1_0000_0000,
    ensures
        table_column_of(table_col(k, c, n)) == Ok::<(Seq<char>, VColumn), SxErrorCode>((k, col_read_form(c))),
{
    match c {
        VColumn::Values(vals) => {
            let cs = as_cells(vals);
            assert(vals.len() == n);
            if all_i64(cs) {
                assert forall|i: int| 0 <= i < vals.len() implies vals[i] == V::I64(#[trigger] i64_cells(cs)[i]) by {
                    assert(cs[i] matches Some(V::I64(_)));
                }
                assert(i64_cells(cs).map_values(|x: i64| V::I64(x)) =~= vals);
            } else if all_f64(cs) {
                assert forall|i: int| 0 <= i < vals.len() implies vals[i] == V::F64(#[trigger] f64_cells(cs)[i]) by {
                    assert(cs[i] matches Some(V::F64(_)));
                }
                assert(f64_cells(cs).map_values(|x: u64| V::F64(x)) =~= vals);
            } else if all_bool(cs) {
                let bs = bool_cells(cs);
                lemma_packed_values(bs, k);
                assert forall|i: int| 0 <= i < vals.len() implies vals[i] == V::Bool(#[trigger] bs[i]) by {
                    assert(cs[i] matches Some(V::Bool(_)));
                }
                assert(Seq::new(bs.len(), |i: int| V::Bool(bs[i])) =~= vals);
            } else {
                assert(all_strings(cs));
                let ss = string_cells(cs);
                lemma_dict_values(ss, 0);
                assert(Seq::new(0, |j: int| V::String(ss[j])) =~= Seq::<V>::empty());
                assert forall|i: int| 0 <= i < vals.len() implies vals[i] == V::String(#[trigger] ss[i]) by {
                    assert(cs[i] matches Some(V::String(_)));
                }
                assert(Seq::new(ss.len(), |j: int| V::String(ss[j])) =~= vals);
            }
        },
        VColumn::Typed(t) => match t {
            VTyped::U8(v) => {
                let w = Seq::new(v.len(), |i: int| v[i] as i64);
                assert(w.map_values(|x: i64| V::I64(x)) =~= Seq::new(v.len(), |i: int| V::I64(v[i] as i64)));
            },
            VTyped::I32(v) => {
                let w = Seq::new(v.len(), |i: int| v[i] as i64);
                assert(w.map_values(|x: i64| V::I64(x)) =~= Seq::new(v.len(), |i: int| V::I64(v[i] as i64)));
            },
            VTyped::F32(v) => {
                let w = Seq::new(v.len(), |i: int| widen_f32_bits(v[i]));
                assert(w.map_values(|x: u64| V::F64(x)) =~= Seq::new(v.len(), |i: int| V::F64(widen_f32_bits(v[i]))));
            },
            VTyped::F64(v) => {
                assert(v.map_values(|x: u64| V::F64(x)) =~= Seq::new(v.len(), |i: int| V::F64(v[i])));
            },
            VTyped::Bool(v) => {
                lemma_packed_values(v, k);
            },
        },
    }
}


proof fn lemma_table_prefix(cols: Seq<(Seq<char>, VColumn)>, n: nat, i: nat)
    requires
        table_columns_bytes(cols, n) is Some,
        i <= cols.len(),
    ensures
        table_columns_bytes(cols.take(i as int), n) is Some,
        table_columns_bytes(cols.take(i as int), n)->Some_0.len() <= table_columns_bytes(cols, n)->Some_0.len(),
        table_columns_bytes(cols, n)->Some_0 == table_columns_bytes(cols.take(i as int), n)->Some_0
            + table_columns_bytes(cols, n)->Some_0.subrange(
            table_columns_bytes(cols.take(i as int), n)->Some_0.len() as int,
            table_columns_bytes(cols, n)->Some_0.len() as int,
        ),
    decreases cols.len() - i,
{
    let all = table_columns_bytes(cols, n)->Some_0;
    if i == cols.len() {
        assert(cols.take(i as int) =~= cols);
        assert(all.subrange(all.len() as int, all.len() as int) =~= Seq::<u8>::empty());
        assert(all + Seq::<u8>::empty() =~= all);
    } else {
        lemma_table_prefix(cols, n, i + 1);
        let t = cols.take(i as int + 1);
        assert(t.drop_last() =~= cols.take(i as int));
        let c = table_columns_bytes(t, n)->Some_0;
        let a = table_columns_bytes(cols.take(i as int), n)->Some_0;
        assert(c.subrange(0, a.len() as int) =~= a);
        assert(all =~= a + all.subrange(a.len() as int, all.len() as int));
    }
}

proof fn lemma_table_bytes_len(cols: Seq<(Seq<char>, VColumn)>, n: nat)
    requires
        table_columns_bytes(cols, n) is Some,
    ensures
        table_columns_bytes(cols, n)->Some_0.len() >= cols.len(),
    decreases cols.len(),
{
    if cols.len() > 0 {
        lemma_table_bytes_len(cols.drop_last(), n);
    }
}

#[verifier::spinoff_prover]
#[verifier::rlimit(60)]
proof fn lemma_tcols_read(cols: Seq<(Seq<char>, VColumn)>, n: nat, b: Seq<u8>, pos: int, i: nat)
    requires
        table_columns_bytes(cols, n) is Some,
        holds(b, pos, table_columns_bytes(cols, n)->Some_0),
        n < 0x1_0000_0000,
        cols.len() <= 0xffff_ffff_ffff_ffff,
        b.len() <= usize::MAX,
        i <= cols.len(),
    ensures
        col_list_at(
            b,
            pos + table_columns_bytes(cols.take(i as int), n)->Some_0.len(),
            (cols.len() - i) as nat,
            n,
            table_cols(cols, n).take(i as int),
        ) == Ok::<(Seq<ColV>, int), SxErrorCode>(
            (table_cols(cols, n), pos + table_columns_bytes(cols, n)->Some_0.len()),
        ),
    decreases cols.len() - i,
{
    let all = table_columns_bytes(cols, n)->Some_0;
    lemma_table_prefix(cols, n, i);
    if i == cols.len() {
        assert(cols.take(i as int) =~= cols);
        assert(table_cols(cols, n).take(i as int) =~= table_cols(cols, n));
    } else {
        lemma_table_prefix(cols, n, i + 1);
        let t = cols.take(i as int + 1);
        assert(t.drop_last() =~= cols.take(i as int));
        assert(t.last() == cols[i as int]);
        let a = table_columns_bytes(cols.take(i as int), n)->Some_0;
        let c = table_columns_bytes(t, n)->Some_0;
        let e = varint_bytes(t.len()) + enc_str(cols[i as int].0) + table_column_bytes(cols[i as int].1, n)->Some_0;
        assert(c =~= a + e);
        lemma_holds_split(b, pos, c, all.subrange(c.len() as int, all.len() as int));
        lemma_holds_split(b, pos, a, e);
        lemma_table_col_read(cols[i as int].0, cols[i as int].1, n, t.len(), b, pos + a.len());
        assert(table_cols(cols, n).take(i as int).push(table_col(cols[i as int].0, cols[i as int].1, n))
            =~= table_cols(cols, n).take(i as int + 1));
        lemma_tcols_read(cols, n, b, pos, i + 1);
    }
}

/// A columnar table payload parses to its row count and `table_cols`.
#[verifier::spinoff_prover]
#[verifier::rlimit(40)]
proof fn lemma_table_columnar_read(cols: Seq<(Seq<char>, VColumn)>)
    requires
        columnar_table_bytes(V::Table(cols)) is Some,
        columnar_table_bytes(V::Table(cols))->Some_0.len() <= usize::MAX,
    ensures
        columnar_at(columnar_table_bytes(V::Table(cols))->Some_0) == Ok::<(nat, Seq<ColV>), SxErrorCode>(
            (column_len(cols[0].1), table_cols(cols, column_len(cols[0].1))),
        ),
{
    let b = columnar_table_bytes(V::Table(cols))->Some_0;
    let n = column_len(cols[0].1);
    let m = cols.len();
    let cb = table_columns_bytes(cols, n)->Some_0;
    assert(b == seq![1u8] + varint_bytes(n) + varint_bytes(m) + cb);
    assert(b.subrange(0, b.len() as int) =~= b);
    lemma_table_bytes_len(cols, n);
    lemma_holds_split(b, 0, seq![1u8] + varint_bytes(n) + varint_bytes(m), cb);
    lemma_holds_split(b, 0, seq![1u8] + varint_bytes(n), varint_bytes(m));
    lemma_byte(b, 0, 1u8, varint_bytes(n));
    lemma_varint_window(b, 1, n as u64);
    let p1: int = 1int + varint_bytes(n).len();
    lemma_varint_window(b, p1, m as u64);
    let p2: int = p1 + varint_bytes(m).len();
    lemma_tcols_read(cols, n, b, p2, 0);
    assert(cols.take(0) =~= Seq::<(Seq<char>, VColumn)>::empty());
    assert(table_cols(cols, n).take(0) =~= Seq::<ColV>::empty());
}

proof fn lemma_table_columns_read(cols: Seq<(Seq<char>, VColumn)>, n: nat, k: nat)
    requires
        table_columns_bytes(cols, n) is Some,
        sorted_keys(cols),
        n < 0x1_0000_0000,
        k <= cols.len(),
    ensures
        table_columns(table_cols(cols, n), k, table_read_form(cols).take(k as int)) == Ok::<
            Seq<(Seq<char>, VColumn)>,
            SxErrorCode,
        >(table_read_form(cols)),
    decreases cols.len() - k,
{
    let tf = table_read_form(cols);
    if k == cols.len() {
        assert(tf.take(k as int) =~= tf);
    } else {
        if table_column_bytes(cols[k as int].1, n) is None {
            lemma_table_columns_none(cols, n, k as int);
        }
        lemma_table_col_of(cols[k as int].0, cols[k as int].1, n);
        assert forall|i: int| 0 <= i < tf.take(k as int).len() implies key_lt(
            #[trigger] tf.take(k as int)[i].0,
            cols[k as int].0,
        ) by {
            assert(tf.take(k as int)[i].0 == cols[i].0);
        }
        lemma_insert_last(tf.take(k as int), cols[k as int].0, col_read_form(cols[k as int].1));
        assert(tf.take(k as int).push((cols[k as int].0, col_read_form(cols[k as int].1))) =~= tf.take(k as int + 1));
        lemma_table_columns_read(cols, n, k + 1);
    }
}

/// Law: a columnar table payload reads back as the table with every column
/// in generic values (`col_read_form`).
pub proof fn law_columnar_table_roundtrip(cols: Seq<(Seq<char>, VColumn)>)
    requires
        columnar_table_bytes(V::Table(cols)) is Some,
        sorted_keys(cols),
        columnar_table_bytes(V::Table(cols))->Some_0.len() <= usize::MAX,
    ensures
        columnar_table_of(columnar_table_bytes(V::Table(cols))->Some_0) == Ok::<V, SxErrorCode>(
            V::Table(table_read_form(cols)),
        ),
{
    let n = column_len(cols[0].1);
    lemma_table_columnar_read(cols);
    lemma_table_columns_read(cols, n, 0);
    assert(table_read_form(cols).take(0) =~= Seq::<(Seq<char>, VColumn)>::empty());
}


/// The rows of a written event batch are their own decoded form.
pub proof fn lemma_batch_decoded(rows: Seq<V>)
    requires
        event_batch_bytes(V::Array(rows)) is Some,
        all_roundtrip(rows),
    ensures
        decoded_form(V::Array(rows)) == V::Array(rows),
{
    assert forall|r: int| 0 <= r < rows.len() implies sorted_keys(fields_of(#[trigger] rows[r])) by {
        lemma_roundtrip_at(rows, r);
        assert(rows[r] is Object);
    }
    assert(batch_rows_ok(rows));
    lemma_decoded_rows(rows, rows.len());
    assert(rows.take(rows.len() as int) =~= rows);
}

} // verus!
