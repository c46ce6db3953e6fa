//! Reading back the binary value encoding.
//!
//! The value encoding is lossless up to the widening the format makes:
//! narrow integers come back as `U64`/`I64`, `F32` as the `F64` of the same
//! number, enum, URL and e-mail strings as strings, and a message as the
//! object of its fields.
use crate::binary::{
    enc_bytes, enc_columns, enc_dims, enc_fields, enc_fixed, enc_opt, enc_opt_str, enc_str, enc_typed, enc_value,
    enc_values, i32_words, pack_bits, packed_byte, bit_at, bit_weight, u32_words, u64_words, unpack_bits,
    widen_f32_bits,
};
use crate::bytes::{fixed_at, le_bytes, pow256, span};
use crate::binary::{
    TAG_ARRAY, TAG_BLOB_REF, TAG_BYTES, TAG_DATE, TAG_DECIMAL, TAG_DURATION, TAG_F64, TAG_FALSE, TAG_I64, TAG_NULL,
    TAG_OBJECT, TAG_REFERENCE, TAG_STRING, TAG_TABLE, TAG_TENSOR, TAG_TIMESTAMP, TAG_TRUE, TAG_TYPED_ARRAY, TAG_U64,
    TAG_UUID,
};
use crate::decode::{
    array_at, as_i32s, as_u32s, as_u64s, blob_at, byte_at, bytes_at, column_of, columns_at, decimal_at, dims_at,
    entries_at, flag_at, items_at, object_at, str_at, table_at, tensor_at, typed_at, value_at, value_segment,
    words_at,
};
use crate::varint::{law_zigzag_roundtrip, spec_zigzag};
use crate::error::SxErrorCode;
use crate::keys::{key_lt, lemma_key_lt_asym, lemma_key_lt_irreflexive, sorted_keys};
use crate::fields::{has_key, insert_entry};
use crate::varint::{lemma_varint_window, spec_read_varint, varint_bytes};
use crate::value::{V, VColumn, VTyped};
use crate::value_ops::typed_len;
use vstd::prelude::*;
use vstd::utf8::{encode_utf8, encode_utf8_decode_utf8, encode_utf8_valid_utf8};

verus! {

/// `e` lies in `b` from `pos` on.
pub open spec fn holds(b: Seq<u8>, pos: int, e: Seq<u8>) -> bool {
    0 <= pos && pos + e.len() <= b.len() && b.subrange(pos, pos + e.len()) == e
}

pub proof fn lemma_holds_split(b: Seq<u8>, pos: int, x: Seq<u8>, y: Seq<u8>)
    requires
        holds(b, pos, x + y),
    ensures
        holds(b, pos, x),
        holds(b, pos + x.len(), y),
{
    let z = b.subrange(pos, pos + (x + y).len());
    assert(z == x + y);
    assert(b.subrange(pos, pos + x.len()) =~= z.subrange(0, x.len() as int));
    assert(z.subrange(0, x.len() as int) =~= x);
    assert(b.subrange(pos + x.len(), pos + x.len() + y.len()) =~= z.subrange(x.len() as int, z.len() as int));
    assert(z.subrange(x.len() as int, z.len() as int) =~= y);
}

/// A length-prefixed byte string reads back where it lies.
pub proof fn lemma_bytes_window(b: Seq<u8>, pos: int, x: Seq<u8>)
    requires
        holds(b, pos, enc_bytes(x)),
        b.len() <= usize::MAX,
    ensures
        bytes_at(b, pos) == Ok::<(Seq<u8>, int), SxErrorCode>((x, pos + enc_bytes(x).len())),
{
    let n = x.len();
    lemma_holds_split(b, pos, varint_bytes(n), x);
    assert(n <= u64::MAX);
    lemma_varint_window(b, pos, n as u64);
    let p = pos + varint_bytes(n).len();
    assert(((n as u64) as usize) as int == n);
    assert(span(b.len() as int, p, n as int) == Ok::<int, SxErrorCode>(p + n));
}

/// A length-prefixed UTF-8 string reads back where it lies.
pub proof fn lemma_str_window(b: Seq<u8>, pos: int, s: Seq<char>)
    requires
        holds(b, pos, enc_str(s)),
        b.len() <= usize::MAX,
    ensures
        str_at(b, pos) == Ok::<(Seq<char>, int), SxErrorCode>((s, pos + enc_str(s).len())),
{
    lemma_bytes_window(b, pos, encode_utf8(s));
    encode_utf8_valid_utf8(s);
    encode_utf8_decode_utf8(s);
}

/// Fixed-width words read back where they lie.
#[verifier::spinoff_prover]
#[verifier::rlimit(100)]
pub proof fn lemma_words_window(b: Seq<u8>, pos: int, ws: Seq<nat>, w: nat, acc: Seq<nat>, i: nat)
    requires
        i <= ws.len(),
        holds(b, pos, enc_fixed(ws, w)),
        b.len() <= usize::MAX,
        forall|j: int| 0 <= j < ws.len() ==> #[trigger] ws[j] < pow256(w),
        acc == ws.take(i as int),
    ensures
        words_at(b, pos + enc_fixed(ws.take(i as int), w).len(), (ws.len() - i) as nat, w, acc) == Ok::<
            (Seq<nat>, int),
            SxErrorCode,
        >((ws, pos + enc_fixed(ws, w).len())),
    decreases ws.len() - i,
{
    lemma_enc_fixed_len(ws, w);
    lemma_enc_fixed_len(ws.take(i as int), w);
    if i == ws.len() {
        assert(ws.take(i as int) =~= ws);
    } else {
        let q = pos + enc_fixed(ws.take(i as int), w).len();
        lemma_enc_fixed_prefix(ws, w, (i + 1) as nat);
        let t = ws.take(i as int + 1);
        assert(t.drop_last() =~= ws.take(i as int));
        assert(t.last() == ws[i as int]);
        lemma_holds_split(b, pos, enc_fixed(t, w), enc_fixed(ws, w).subrange(enc_fixed(t, w).len() as int, enc_fixed(ws, w).len() as int));
        lemma_holds_split(b, pos, enc_fixed(ws.take(i as int), w), le_bytes(ws[i as int], w));
        lemma_enc_fixed_len(t, w);
        assert((i + 1) * w == i * w + w) by (nonlinear_arith);
        assert(q + w == pos + enc_fixed(ws.take(i as int + 1), w).len());
        crate::bytes::lemma_fixed_at(b, q, ws[i as int], w);
        assert(acc.push(ws[i as int]) =~= ws.take(i as int + 1));
        lemma_words_window(b, pos, ws, w, ws.take(i as int + 1), i + 1);
    }
}

pub proof fn lemma_enc_fixed_len(ws: Seq<nat>, w: nat)
    ensures
        enc_fixed(ws, w).len() == ws.len() * w,
    decreases ws.len(),
{
    if ws.len() > 0 {
        lemma_enc_fixed_len(ws.drop_last(), w);
        crate::bytes::lemma_le_bytes_len(ws.last(), w);
        assert((ws.len() - 1) * w + w == ws.len() * w) by (nonlinear_arith);
    }
}

/// The words of a prefix are encoded at the front.
pub proof fn lemma_enc_fixed_prefix(ws: Seq<nat>, w: nat, i: nat)
    requires
        i <= ws.len(),
    ensures
        enc_fixed(ws.take(i as int), w).len() <= enc_fixed(ws, w).len(),
        enc_fixed(ws, w) == enc_fixed(ws.take(i as int), w) + enc_fixed(ws, w).subrange(
            enc_fixed(ws.take(i as int), w).len() as int,
            enc_fixed(ws, w).len() as int,
        ),
    decreases ws.len() - i,
{
    if i == ws.len() {
        assert(ws.take(i as int) =~= ws);
        assert(enc_fixed(ws, w).subrange(enc_fixed(ws, w).len() as int, enc_fixed(ws, w).len() as int) =~= Seq::<u8>::empty());
        assert(enc_fixed(ws, w) + Seq::<u8>::empty() =~= enc_fixed(ws, w));
    } else {
        lemma_enc_fixed_prefix(ws, w, i + 1);
        let a = enc_fixed(ws.take(i as int), w);
        let t = ws.take(i as int + 1);
        assert(t.drop_last() =~= ws.take(i as int));
        let c = enc_fixed(t, w);
        let all = enc_fixed(ws, w);
        assert(c == a + le_bytes(t.last(), w));
        assert(all =~= a + all.subrange(a.len() as int, all.len() as int));
    }
}

proof fn lemma_pick_bit(c0: u8, c1: u8, c2: u8, c3: u8, c4: u8, c5: u8, c6: u8, c7: u8)
    by (bit_vector)
    requires
        c0 <= 1,
        c1 <= 1,
        c2 <= 1,
        c3 <= 1,
        c4 <= 1,
        c5 <= 1,
        c6 <= 1,
        c7 <= 1,
    ensures
        (((c0 + 2 * c1 + 4 * c2 + 8 * c3 + 16 * c4 + 32 * c5 + 64 * c6 + 128 * c7) as u8) & 1u8 != 0) == (c0 == 1),
        (((c0 + 2 * c1 + 4 * c2 + 8 * c3 + 16 * c4 + 32 * c5 + 64 * c6 + 128 * c7) as u8) & 2u8 != 0) == (c1 == 1),
        (((c0 + 2 * c1 + 4 * c2 + 8 * c3 + 16 * c4 + 32 * c5 + 64 * c6 + 128 * c7) as u8) & 4u8 != 0) == (c2 == 1),
        (((c0 + 2 * c1 + 4 * c2 + 8 * c3 + 16 * c4 + 32 * c5 + 64 * c6 + 128 * c7) as u8) & 8u8 != 0) == (c3 == 1),
        (((c0 + 2 * c1 + 4 * c2 + 8 * c3 + 16 * c4 + 32 * c5 + 64 * c6 + 128 * c7) as u8) & 16u8 != 0) == (c4 == 1),
        (((c0 + 2 * c1 + 4 * c2 + 8 * c3 + 16 * c4 + 32 * c5 + 64 * c6 + 128 * c7) as u8) & 32u8 != 0) == (c5 == 1),
        (((c0 + 2 * c1 + 4 * c2 + 8 * c3 + 16 * c4 + 32 * c5 + 64 * c6 + 128 * c7) as u8) & 64u8 != 0) == (c6 == 1),
        (((c0 + 2 * c1 + 4 * c2 + 8 * c3 + 16 * c4 + 32 * c5 + 64 * c6 + 128 * c7) as u8) & 128u8 != 0) == (c7 == 1),
{
}

/// Unpacking packed booleans gives them back.
pub proof fn lemma_unpack_pack(v: Seq<bool>)
    ensures
        unpack_bits(pack_bits(v), v.len()) == v,
{
    let p = pack_bits(v);
    assert forall|i: int| 0 <= i < v.len() implies #[trigger] unpack_bits(p, v.len())[i] == v[i] by {
        let j = i / 8;
        let k = i % 8;
        assert(0 <= j < (v.len() + 7) / 8);
        assert(p[j] == packed_byte(v, j));
        lemma_pick_bit(
            bit_at(v, 8 * j),
            bit_at(v, 8 * j + 1),
            bit_at(v, 8 * j + 2),
            bit_at(v, 8 * j + 3),
            bit_at(v, 8 * j + 4),
            bit_at(v, 8 * j + 5),
            bit_at(v, 8 * j + 6),
            bit_at(v, 8 * j + 7),
        );
        assert(i == 8 * j + k);
    }
    assert(unpack_bits(p, v.len()) =~= v);
}

proof fn lemma_i32_word(x: i32)
    ensures
        (((x as u32) as nat) as u32) as i32 == x,
{
    assert(((x as u32) as i32) == x) by (bit_vector);
}

/// A typed array reads back where it lies.
#[verifier::spinoff_prover]
#[verifier::rlimit(100)]
pub proof fn lemma_typed_window(b: Seq<u8>, pos: int, t: VTyped)
    requires
        holds(b, pos, enc_typed(t)),
        b.len() <= usize::MAX,
        typed_len(t) <= usize::MAX,
    ensures
        typed_at(b, pos) == Ok::<(VTyped, int), SxErrorCode>((t, pos + enc_typed(t).len())),
{
    crate::bytes::lemma_pow256_values();
    let (kind, n, body): (u8, nat, Seq<u8>) = match t {
        VTyped::U8(v) => (1u8, v.len(), v),
        VTyped::I32(v) => (2u8, v.len(), enc_fixed(i32_words(v), 4)),
        VTyped::F32(v) => (3u8, v.len(), enc_fixed(u32_words(v), 4)),
        VTyped::F64(v) => (4u8, v.len(), enc_fixed(u64_words(v), 8)),
        VTyped::Bool(v) => (5u8, v.len(), pack_bits(v)),
    };
    assert(enc_typed(t) == seq![kind] + varint_bytes(n) + body);
    lemma_holds_split(b, pos, seq![kind] + varint_bytes(n), body);
    lemma_holds_split(b, pos, seq![kind], varint_bytes(n));
    assert(b[pos] == kind) by {
        assert(b.subrange(pos, pos + 1)[0] == b[pos]);
    }
    assert(byte_at(b, pos) == Ok::<(u8, int), SxErrorCode>((kind, pos + 1)));
    lemma_varint_window(b, pos + 1, n as u64);
    let q = pos + 1 + varint_bytes(n).len();
    assert(((n as u64) as usize) as nat == n);
    match t {
        VTyped::U8(v) => {
            assert(b.subrange(q, q + n) == v);
        },
        VTyped::I32(v) => {
            let ws = i32_words(v);
            assert(ws.take(0) =~= Seq::<nat>::empty());
            lemma_words_window(b, q, ws, 4, Seq::empty(), 0);
            assert(as_i32s(ws) =~= v) by {
                assert forall|j: int| 0 <= j < v.len() implies #[trigger] as_i32s(ws)[j] == v[j] by {
                    lemma_i32_word(v[j]);
                }
            }
        },
        VTyped::F32(v) => {
            let ws = u32_words(v);
            assert(ws.take(0) =~= Seq::<nat>::empty());
            lemma_words_window(b, q, ws, 4, Seq::empty(), 0);
            assert(as_u32s(ws) =~= v);
        },
        VTyped::F64(v) => {
            let ws = u64_words(v);
            assert(ws.take(0) =~= Seq::<nat>::empty());
            lemma_words_window(b, q, ws, 8, Seq::empty(), 0);
            assert(as_u64s(ws) =~= v);
        },
        VTyped::Bool(v) => {
            assert(pack_bits(v).len() == (n + 7) / 8);
            assert(b.subrange(q, q + (n + 7) / 8) == pack_bits(v));
            lemma_unpack_pack(v);
        },
    }
}

pub proof fn lemma_enc_dims_prefix(ds: Seq<usize>, i: nat)
    requires
        i <= ds.len(),
    ensures
        enc_dims(ds.take(i as int)).len() <= enc_dims(ds).len(),
        enc_dims(ds) == enc_dims(ds.take(i as int)) + enc_dims(ds).subrange(
            enc_dims(ds.take(i as int)).len() as int,
            enc_dims(ds).len() as int,
        ),
    decreases ds.len() - i,
{
    if i == ds.len() {
        assert(ds.take(i as int) =~= ds);
        assert(enc_dims(ds).subrange(enc_dims(ds).len() as int, enc_dims(ds).len() as int) =~= Seq::<u8>::empty());
        assert(enc_dims(ds) + Seq::<u8>::empty() =~= enc_dims(ds));
    } else {
        lemma_enc_dims_prefix(ds, i + 1);
        let a = enc_dims(ds.take(i as int));
        let t = ds.take(i as int + 1);
        assert(t.drop_last() =~= ds.take(i as int));
        let c = enc_dims(t);
        let all = enc_dims(ds);
        assert(c == a + varint_bytes(t.last() as nat));
        assert(all =~= a + all.subrange(a.len() as int, all.len() as int));
    }
}

/// Tensor dimensions read back where they lie.
#[verifier::spinoff_prover]
#[verifier::rlimit(100)]
pub proof fn lemma_dims_window(b: Seq<u8>, pos: int, ds: Seq<usize>, acc: Seq<usize>, i: nat)
    requires
        i <= ds.len(),
        holds(b, pos, enc_dims(ds)),
        acc == ds.take(i as int),
    ensures
        dims_at(b, pos + enc_dims(ds.take(i as int)).len(), (ds.len() - i) as nat, acc) == Ok::<
            (Seq<usize>, int),
            SxErrorCode,
        >((ds, pos + enc_dims(ds).len())),
    decreases ds.len() - i,
{
    if i == ds.len() {
        assert(ds.take(i as int) =~= ds);
    } else {
        let q = pos + enc_dims(ds.take(i as int)).len();
        lemma_enc_dims_prefix(ds, (i + 1) as nat);
        let t = ds.take(i as int + 1);
        assert(t.drop_last() =~= ds.take(i as int));
        assert(t.last() == ds[i as int]);
        let all = enc_dims(ds);
        lemma_holds_split(b, pos, enc_dims(t), all.subrange(enc_dims(t).len() as int, all.len() as int));
        lemma_holds_split(b, pos, enc_dims(ds.take(i as int)), varint_bytes(ds[i as int] as nat));
        lemma_varint_window(b, q, ds[i as int] as u64);
        assert(acc.push(((ds[i as int] as u64) as usize)) =~= ds.take(i as int + 1));
        lemma_dims_window(b, pos, ds, ds.take(i as int + 1), i + 1);
    }
}

// ---------------------------------------------------------------------------
// The decoded form of a value
// ---------------------------------------------------------------------------

/// The value that reading back the encoding of `v` gives.
pub open spec fn decoded_form(v: V) -> V
    decreases v,
{
    match v {
        V::U8(x) => V::U64(x as u64),
        V::U16(x) => V::U64(x as u64),
        V::U32(x) => V::U64(x as u64),
        V::I8(x) => V::I64(x as i64),
        V::I16(x) => V::I64(x as i64),
        V::I32(x) => V::I64(x as i64),
        V::F32(b) => V::F64(widen_f32_bits(b)),
        V::Enum(s) => V::String(s),
        V::Url(s) => V::String(s),
        V::Email(s) => V::String(s),
        V::Array(items) => V::Array(decoded_vals(items)),
        V::Object(fs) => V::Object(decoded_entries(fs)),
        V::Table(cols) => V::Table(decoded_columns(cols)),
        V::Message(m) => V::Object(decoded_entries(m.fields)),
        _ => v,
    }
}

pub open spec fn decoded_vals(s: Seq<V>) -> Seq<V>
    decreases s,
{
    if s.len() == 0 {
        Seq::empty()
    } else {
        decoded_vals(s.drop_last()).push(decoded_form(s.last()))
    }
}

pub open spec fn decoded_entries(s: Seq<(Seq<char>, V)>) -> Seq<(Seq<char>, V)>
    decreases s,
{
    if s.len() == 0 {
        Seq::empty()
    } else {
        decoded_entries(s.drop_last()).push((s.last().0, decoded_form(s.last().1)))
    }
}

pub open spec fn decoded_column(c: VColumn) -> VColumn
    decreases c,
{
    match c {
        VColumn::Typed(t) => VColumn::Typed(t),
        VColumn::Values(vs) => VColumn::Values(decoded_vals(vs)),
    }
}

pub open spec fn decoded_columns(s: Seq<(Seq<char>, VColumn)>) -> Seq<(Seq<char>, VColumn)>
    decreases s,
{
    if s.len() == 0 {
        Seq::empty()
    } else {
        decoded_columns(s.drop_last()).push((s.last().0, decoded_column(s.last().1)))
    }
}

/// True when the encoding of `v` reads back to its decoded form: no map
/// entries (read back as objects keyed by text) or deltas (read back through
/// the text parser), keys of objects, messages
/// and tables strictly ascending, sixteen bytes in a UUID, and typed arrays
/// no longer than memory allows.
pub open spec fn roundtrips(v: V) -> bool
    decreases v,
{
    match v {
        V::Array(items) => all_roundtrip(items),
        V::Object(fs) => sorted_keys(fs) && entries_roundtrip(fs),
        V::Message(m) => sorted_keys(m.fields) && entries_roundtrip(m.fields),
        V::Table(cols) => sorted_keys(cols) && columns_roundtrip(cols),
        V::Uuid(u) => u.len() == 16,
        V::TypedArray(t) => typed_len(t) <= usize::MAX,
        V::Tensor(_, t, _) => typed_len(t) <= usize::MAX,
        V::MapEntries(_) => false,
        V::Delta(_, _) => false,
        _ => true,
    }
}

pub open spec fn all_roundtrip(s: Seq<V>) -> bool
    decreases s,
{
    if s.len() == 0 {
        true
    } else {
        all_roundtrip(s.drop_last()) && roundtrips(s.last())
    }
}

pub open spec fn entries_roundtrip(s: Seq<(Seq<char>, V)>) -> bool
    decreases s,
{
    if s.len() == 0 {
        true
    } else {
        entries_roundtrip(s.drop_last()) && roundtrips(s.last().1)
    }
}

pub open spec fn column_roundtrips(c: VColumn) -> bool
    decreases c,
{
    match c {
        VColumn::Typed(t) => typed_len(t) <= usize::MAX,
        VColumn::Values(vs) => all_roundtrip(vs),
    }
}

pub open spec fn columns_roundtrip(s: Seq<(Seq<char>, VColumn)>) -> bool
    decreases s,
{
    if s.len() == 0 {
        true
    } else {
        columns_roundtrip(s.drop_last()) && column_roundtrips(s.last().1)
    }
}

// ---------------------------------------------------------------------------
// Facts about the encodings of sequences
// ---------------------------------------------------------------------------

pub proof fn lemma_roundtrip_at(vs: Seq<V>, i: int)
    requires
        all_roundtrip(vs),
        0 <= i < vs.len(),
    ensures
        roundtrips(vs[i]),
    decreases vs.len(),
{
    if i < vs.len() - 1 {
        lemma_roundtrip_at(vs.drop_last(), i);
    }
}

pub proof fn lemma_entry_roundtrip_at(fs: Seq<(Seq<char>, V)>, i: int)
    requires
        entries_roundtrip(fs),
        0 <= i < fs.len(),
    ensures
        roundtrips(fs[i].1),
    decreases fs.len(),
{
    if i < fs.len() - 1 {
        lemma_entry_roundtrip_at(fs.drop_last(), i);
    }
}

pub proof fn lemma_column_roundtrip_at(cs: Seq<(Seq<char>, VColumn)>, i: int)
    requires
        columns_roundtrip(cs),
        0 <= i < cs.len(),
    ensures
        column_roundtrips(cs[i].1),
    decreases cs.len(),
{
    if i < cs.len() - 1 {
        lemma_column_roundtrip_at(cs.drop_last(), i);
    }
}

/// Every encodable value spans at least its tag byte.
pub proof fn lemma_enc_value_nonempty(v: V)
    requires
        roundtrips(v),
    ensures
        enc_value(v).len() >= 1,
{
}

pub proof fn lemma_enc_values_len(vs: Seq<V>)
    requires
        all_roundtrip(vs),
    ensures
        enc_values(vs).len() >= vs.len(),
    decreases vs.len(),
{
    if vs.len() > 0 {
        lemma_enc_values_len(vs.drop_last());
        lemma_enc_value_nonempty(vs.last());
    }
}

pub proof fn lemma_enc_fields_len(fs: Seq<(Seq<char>, V)>)
    requires
        entries_roundtrip(fs),
    ensures
        enc_fields(fs).len() >= fs.len(),
    decreases fs.len(),
{
    if fs.len() > 0 {
        lemma_enc_fields_len(fs.drop_last());
        lemma_enc_value_nonempty(fs.last().1);
    }
}

pub proof fn lemma_enc_columns_len(cs: Seq<(Seq<char>, VColumn)>)
    ensures
        enc_columns(cs).len() >= cs.len(),
    decreases cs.len(),
{
    if cs.len() > 0 {
        lemma_enc_columns_len(cs.drop_last());
    }
}

pub proof fn lemma_enc_dims_len(ds: Seq<usize>)
    ensures
        enc_dims(ds).len() >= ds.len(),
    decreases ds.len(),
{
    if ds.len() > 0 {
        lemma_enc_dims_len(ds.drop_last());
        crate::varint::lemma_varint_bytes_shape(ds.last() as nat);
    }
}

/// The values of a prefix are encoded at the front.
pub proof fn lemma_enc_values_prefix(vs: Seq<V>, i: nat)
    requires
        i <= vs.len(),
    ensures
        enc_values(vs.take(i as int)).len() <= enc_values(vs).len(),
        enc_values(vs) == enc_values(vs.take(i as int)) + enc_values(vs).subrange(
            enc_values(vs.take(i as int)).len() as int,
            enc_values(vs).len() as int,
        ),
    decreases vs.len() - i,
{
    let all = enc_values(vs);
    if i == vs.len() {
        assert(vs.take(i as int) =~= vs);
        assert(all + all.subrange(all.len() as int, all.len() as int) =~= all);
    } else {
        lemma_enc_values_prefix(vs, i + 1);
        let t = vs.take(i as int + 1);
        assert(t.drop_last() =~= vs.take(i as int));
        let a = enc_values(vs.take(i as int));
        assert(enc_values(t) == a + enc_value(t.last()));
        assert(all =~= a + all.subrange(a.len() as int, all.len() as int));
    }
}

pub proof fn lemma_enc_fields_prefix(fs: Seq<(Seq<char>, V)>, i: nat)
    requires
        i <= fs.len(),
    ensures
        enc_fields(fs.take(i as int)).len() <= enc_fields(fs).len(),
        enc_fields(fs) == enc_fields(fs.take(i as int)) + enc_fields(fs).subrange(
            enc_fields(fs.take(i as int)).len() as int,
            enc_fields(fs).len() as int,
        ),
    decreases fs.len() - i,
{
    let all = enc_fields(fs);
    if i == fs.len() {
        assert(fs.take(i as int) =~= fs);
        assert(all + all.subrange(all.len() as int, all.len() as int) =~= all);
    } else {
        lemma_enc_fields_prefix(fs, i + 1);
        let t = fs.take(i as int + 1);
        assert(t.drop_last() =~= fs.take(i as int));
        let a = enc_fields(fs.take(i as int));
        assert(enc_fields(t) == a + enc_str(t.last().0) + enc_value(t.last().1));
        assert(all =~= a + all.subrange(a.len() as int, all.len() as int));
    }
}

pub proof fn lemma_enc_columns_prefix(cs: Seq<(Seq<char>, VColumn)>, i: nat)
    requires
        i <= cs.len(),
    ensures
        enc_columns(cs.take(i as int)).len() <= enc_columns(cs).len(),
        enc_columns(cs) == enc_columns(cs.take(i as int)) + enc_columns(cs).subrange(
            enc_columns(cs.take(i as int)).len() as int,
            enc_columns(cs).len() as int,
        ),
    decreases cs.len() - i,
{
    let all = enc_columns(cs);
    if i == cs.len() {
        assert(cs.take(i as int) =~= cs);
        assert(all + all.subrange(all.len() as int, all.len() as int) =~= all);
    } else {
        lemma_enc_columns_prefix(cs, i + 1);
        let t = cs.take(i as int + 1);
        assert(t.drop_last() =~= cs.take(i as int));
        let a = enc_columns(cs.take(i as int));
        assert(all =~= a + all.subrange(a.len() as int, all.len() as int));
    }
}

/// Inserting a key above all others appends it.
pub proof fn lemma_insert_last<T>(s: Seq<(Seq<char>, T)>, k: Seq<char>, x: T)
    requires
        forall|j: int| 0 <= j < s.len() ==> key_lt(#[trigger] s[j].0, k),
    ensures
        insert_entry(s, k, x) == s.push((k, x)),
        !has_key(s, k),
    decreases s.len(),
{
    lemma_key_lt_irreflexive(k);
    if s.len() > 0 {
        let t = s.drop_first();
        assert forall|j: int| 0 <= j < t.len() implies key_lt(#[trigger] t[j].0, k) by {
            assert(t[j] == s[j + 1]);
        }
        lemma_insert_last(t, k, x);
        lemma_key_lt_asym(s[0].0, k);
        assert(s[0].0 != k);
        assert(seq![s[0]] + t.push((k, x)) =~= s.push((k, x)));
    }
    if has_key(s, k) {
        let j = choose|j: int| 0 <= j < s.len() && #[trigger] s[j].0 == k;
        assert(key_lt(s[j].0, k));
    }
}

/// The decoded entries keep the keys, and so their order.
pub proof fn lemma_decoded_entries(fs: Seq<(Seq<char>, V)>)
    ensures
        decoded_entries(fs).len() == fs.len(),
        forall|j: int| 0 <= j < fs.len() ==> #[trigger] decoded_entries(fs)[j] == (fs[j].0, decoded_form(fs[j].1)),
    decreases fs.len(),
{
    if fs.len() > 0 {
        lemma_decoded_entries(fs.drop_last());
    }
}

pub proof fn lemma_decoded_columns(cs: Seq<(Seq<char>, VColumn)>)
    ensures
        decoded_columns(cs).len() == cs.len(),
        forall|j: int| 0 <= j < cs.len() ==> #[trigger] decoded_columns(cs)[j] == (cs[j].0, decoded_column(cs[j].1)),
    decreases cs.len(),
{
    if cs.len() > 0 {
        lemma_decoded_columns(cs.drop_last());
    }
}

// ---------------------------------------------------------------------------
// Reading values back
// ---------------------------------------------------------------------------

proof fn lemma_tag(b: Seq<u8>, pos: int, tag: u8, body: Seq<u8>)
    requires
        holds(b, pos, seq![tag] + body),
    ensures
        b[pos] == tag,
        holds(b, pos + 1, body),
{
    lemma_holds_split(b, pos, seq![tag], body);
    assert(b.subrange(pos, pos + 1)[0] == b[pos]);
}

proof fn lemma_i128_bits(x: i128)
    ensures
        ((x as u128) as i128) == x,
{
    assert(((x as u128) as i128) == x) by (bit_vector);
}

proof fn lemma_i64_bits(x: i64)
    ensures
        (((x as i128) as u128) as i128) as i64 == x,
{
    assert((((x as i128) as u128) as i128) as i64 == x) by (bit_vector);
}

#[verifier::spinoff_prover]
#[verifier::rlimit(100)]
proof fn lemma_int_at(v: V, b: Seq<u8>, pos: int)
    requires
        v is U8 || v is U16 || v is U32 || v is U64 || v is I8 || v is I16 || v is I32 || v is I64,
        holds(b, pos, enc_value(v)),
        b.len() <= usize::MAX,
    ensures
        value_at(b, pos) == Ok::<(V, int), SxErrorCode>((decoded_form(v), pos + enc_value(v).len())),
{
    let p = pos + 1;
    match v {
        V::U8(x) => {
            lemma_tag(b, pos, TAG_U64, varint_bytes(x as nat));
            lemma_varint_window(b, p, x as u64);
        },
        V::U16(x) => {
            lemma_tag(b, pos, TAG_U64, varint_bytes(x as nat));
            lemma_varint_window(b, p, x as u64);
        },
        V::U32(x) => {
            lemma_tag(b, pos, TAG_U64, varint_bytes(x as nat));
            lemma_varint_window(b, p, x as u64);
        },
        V::U64(x) => {
            lemma_tag(b, pos, TAG_U64, varint_bytes(x as nat));
            lemma_varint_window(b, p, x);
        },
        V::I8(x) => {
            law_zigzag_roundtrip(x as i64);
            lemma_tag(b, pos, TAG_I64, varint_bytes(spec_zigzag(x as i64)));
            lemma_varint_window(b, p, spec_zigzag(x as i64) as u64);
        },
        V::I16(x) => {
            law_zigzag_roundtrip(x as i64);
            lemma_tag(b, pos, TAG_I64, varint_bytes(spec_zigzag(x as i64)));
            lemma_varint_window(b, p, spec_zigzag(x as i64) as u64);
        },
        V::I32(x) => {
            law_zigzag_roundtrip(x as i64);
            lemma_tag(b, pos, TAG_I64, varint_bytes(spec_zigzag(x as i64)));
            lemma_varint_window(b, p, spec_zigzag(x as i64) as u64);
        },
        V::I64(x) => {
            law_zigzag_roundtrip(x);
            lemma_tag(b, pos, TAG_I64, varint_bytes(spec_zigzag(x)));
            lemma_varint_window(b, p, spec_zigzag(x) as u64);
        },
        _ => {},
    }
}

#[verifier::spinoff_prover]
#[verifier::rlimit(100)]
proof fn lemma_float_at(v: V, b: Seq<u8>, pos: int)
    requires
        v is F32 || v is F64,
        holds(b, pos, enc_value(v)),
        b.len() <= usize::MAX,
    ensures
        value_at(b, pos) == Ok::<(V, int), SxErrorCode>((decoded_form(v), pos + enc_value(v).len())),
{
    crate::bytes::lemma_pow256_values();
    let p = pos + 1;
    match v {
        V::F32(x) => {
            crate::bytes::lemma_le_bytes_len(widen_f32_bits(x) as nat, 8);
            lemma_tag(b, pos, TAG_F64, le_bytes(widen_f32_bits(x) as nat, 8));
            crate::bytes::lemma_fixed_at(b, p, widen_f32_bits(x) as nat, 8);
        },
        V::F64(x) => {
            crate::bytes::lemma_le_bytes_len(x as nat, 8);
            lemma_tag(b, pos, TAG_F64, le_bytes(x as nat, 8));
            crate::bytes::lemma_fixed_at(b, p, x as nat, 8);
        },
        _ => {},
    }
}

#[verifier::spinoff_prover]
#[verifier::rlimit(100)]
proof fn lemma_decimal_at(scaled: i128, scale: u32, b: Seq<u8>, pos: int)
    requires
        holds(b, pos, enc_value(V::Decimal(scaled, scale))),
        b.len() <= usize::MAX,
    ensures
        value_at(b, pos) == Ok::<(V, int), SxErrorCode>(
            (V::Decimal(scaled, scale), pos + enc_value(V::Decimal(scaled, scale)).len()),
        ),
{
    crate::bytes::lemma_pow256_values();
    let p = pos + 1;
    let raw = le_bytes((scaled as u128) as nat, 16);
    let sc = le_bytes(scale as nat, 4);
    assert(enc_value(V::Decimal(scaled, scale)) =~= seq![TAG_DECIMAL] + (seq![0u8] + (raw + sc)));
    lemma_tag(b, pos, TAG_DECIMAL, seq![0u8] + (raw + sc));
    lemma_tag(b, p, 0u8, raw + sc);
    lemma_holds_split(b, p + 1, raw, sc);
    crate::bytes::lemma_le_bytes_len((scaled as u128) as nat, 16);
    crate::bytes::lemma_le_bytes_len(scale as nat, 4);
    crate::bytes::lemma_fixed_at(b, p + 1, (scaled as u128) as nat, 16);
    crate::bytes::lemma_fixed_at(b, p + 17, scale as nat, 4);
    lemma_i128_bits(scaled);
    assert(byte_at(b, p) == Ok::<(u8, int), SxErrorCode>((0u8, p + 1)));
    assert(fixed_at(b, p + 1, 16) == Ok::<(nat, int), SxErrorCode>(((scaled as u128) as nat, p + 17)));
    assert(fixed_at(b, p + 17, 4) == Ok::<(nat, int), SxErrorCode>((scale as nat, p + 21)));
    assert(decimal_at(b, p) == Ok::<(V, int), SxErrorCode>((V::Decimal(scaled, scale), p + 21)));
}

#[verifier::spinoff_prover]
#[verifier::rlimit(100)]
proof fn lemma_money_at(cur: Seq<char>, scaled: i64, scale: u32, b: Seq<u8>, pos: int)
    requires
        holds(b, pos, enc_value(V::Money(cur, scaled, scale))),
        b.len() <= usize::MAX,
    ensures
        value_at(b, pos) == Ok::<(V, int), SxErrorCode>(
            (V::Money(cur, scaled, scale), pos + enc_value(V::Money(cur, scaled, scale)).len()),
        ),
{
    crate::bytes::lemma_pow256_values();
    let p = pos + 1;
    let w = ((scaled as i128) as u128) as nat;
    let raw = le_bytes(w, 16);
    let sc = le_bytes(scale as nat, 4);
    let c = enc_str(cur);
    assert(enc_value(V::Money(cur, scaled, scale)) =~= seq![TAG_DECIMAL] + (seq![1u8] + (raw + (sc + c))));
    lemma_tag(b, pos, TAG_DECIMAL, seq![1u8] + (raw + (sc + c)));
    lemma_tag(b, p, 1u8, raw + (sc + c));
    lemma_holds_split(b, p + 1, raw, sc + c);
    crate::bytes::lemma_le_bytes_len(w, 16);
    crate::bytes::lemma_le_bytes_len(scale as nat, 4);
    lemma_holds_split(b, p + 17, sc, c);
    crate::bytes::lemma_fixed_at(b, p + 1, w, 16);
    crate::bytes::lemma_fixed_at(b, p + 17, scale as nat, 4);
    lemma_str_window(b, p + 21, cur);
    lemma_i64_bits(scaled);
    assert(byte_at(b, p) == Ok::<(u8, int), SxErrorCode>((1u8, p + 1)));
    assert(fixed_at(b, p + 1, 16) == Ok::<(nat, int), SxErrorCode>((w, p + 17)));
    assert(fixed_at(b, p + 17, 4) == Ok::<(nat, int), SxErrorCode>((scale as nat, p + 21)));
    assert(str_at(b, p + 21) == Ok::<(Seq<char>, int), SxErrorCode>((cur, p + 21 + c.len())));
    assert(decimal_at(b, p) == Ok::<(V, int), SxErrorCode>((V::Money(cur, scaled, scale), p + 21 + c.len())));
}

#[verifier::spinoff_prover]
#[verifier::rlimit(100)]
proof fn lemma_text_at(v: V, b: Seq<u8>, pos: int)
    requires
        v is String || v is Enum || v is Url || v is Email || v is Timestamp || v is Date || v is Duration
            || v is Reference || v is Bytes || v is Uuid,
        roundtrips(v),
        holds(b, pos, enc_value(v)),
        b.len() <= usize::MAX,
    ensures
        value_at(b, pos) == Ok::<(V, int), SxErrorCode>((decoded_form(v), pos + enc_value(v).len())),
{
    let p = pos + 1;
    match v {
        V::String(x) => {
            lemma_tag(b, pos, TAG_STRING, enc_str(x));
            lemma_str_window(b, p, x);
        },
        V::Enum(x) => {
            lemma_tag(b, pos, TAG_STRING, enc_str(x));
            lemma_str_window(b, p, x);
        },
        V::Url(x) => {
            lemma_tag(b, pos, TAG_STRING, enc_str(x));
            lemma_str_window(b, p, x);
        },
        V::Email(x) => {
            lemma_tag(b, pos, TAG_STRING, enc_str(x));
            lemma_str_window(b, p, x);
        },
        V::Timestamp(x) => {
            lemma_tag(b, pos, TAG_TIMESTAMP, enc_str(x));
            lemma_str_window(b, p, x);
        },
        V::Date(x) => {
            lemma_tag(b, pos, TAG_DATE, enc_str(x));
            lemma_str_window(b, p, x);
        },
        V::Duration(x) => {
            lemma_tag(b, pos, TAG_DURATION, enc_str(x));
            lemma_str_window(b, p, x);
        },
        V::Reference(x) => {
            lemma_tag(b, pos, TAG_REFERENCE, enc_str(x));
            lemma_str_window(b, p, x);
        },
        V::Bytes(x) => {
            lemma_tag(b, pos, TAG_BYTES, enc_bytes(x));
            lemma_bytes_window(b, p, x);
        },
        V::Uuid(u) => {
            lemma_tag(b, pos, TAG_UUID, u);
        },
        _ => {},
    }
}

proof fn lemma_flag(b: Seq<u8>, pos: int, present: bool, part: Seq<u8>, rest: Seq<u8>)
    requires
        holds(b, pos, enc_opt(present, part) + rest),
    ensures
        flag_at(b, pos) == Ok::<(bool, int), SxErrorCode>((present, pos + 1)),
        present ==> holds(b, pos + 1, part + rest),
        !present ==> holds(b, pos + 1, rest),
{
    if present {
        assert(enc_opt(present, part) + rest =~= seq![1u8] + (part + rest));
        lemma_tag(b, pos, 1u8, part + rest);
    } else {
        assert(enc_opt(present, part) + rest =~= seq![0u8] + rest);
        lemma_tag(b, pos, 0u8, rest);
    }
}

#[verifier::spinoff_prover]
#[verifier::rlimit(100)]
proof fn lemma_blob_at(uri: Seq<char>, media: Option<Seq<char>>, size: Option<u64>, hash: Option<Seq<u8>>, b: Seq<u8>, pos: int)
    requires
        holds(b, pos, enc_value(V::BlobRef(uri, media, size, hash))),
        b.len() <= usize::MAX,
    ensures
        value_at(b, pos) == Ok::<(V, int), SxErrorCode>(
            (V::BlobRef(uri, media, size, hash), pos + enc_value(V::BlobRef(uri, media, size, hash)).len()),
        ),
{
    let v = V::BlobRef(uri, media, size, hash);
    let su = enc_str(uri);
    let sm = enc_opt_str(media);
    let sz = match size {
        Some(n) => enc_opt(true, varint_bytes(n as nat)),
        None => enc_opt(false, Seq::empty()),
    };
    let sh = match hash {
        Some(h) => enc_opt(true, enc_bytes(h)),
        None => enc_opt(false, Seq::empty()),
    };
    assert(enc_value(v) =~= seq![TAG_BLOB_REF] + (su + (sm + (sz + sh))));
    let p = pos + 1;
    lemma_tag(b, pos, TAG_BLOB_REF, su + (sm + (sz + sh)));
    lemma_holds_split(b, p, su, sm + (sz + sh));
    lemma_str_window(b, p, uri);
    let p1 = p + su.len();
    let p3 = p1 + sm.len();
    match media {
        Some(m) => {
            lemma_flag(b, p1, true, enc_str(m), sz + sh);
            lemma_holds_split(b, p1 + 1, enc_str(m), sz + sh);
            lemma_str_window(b, p1 + 1, m);
        },
        None => {
            lemma_flag(b, p1, false, Seq::empty(), sz + sh);
        },
    }
    let p5 = p3 + sz.len();
    match size {
        Some(n) => {
            lemma_flag(b, p3, true, varint_bytes(n as nat), sh);
            lemma_holds_split(b, p3 + 1, varint_bytes(n as nat), sh);
            lemma_varint_window(b, p3 + 1, n);
        },
        None => {
            lemma_flag(b, p3, false, Seq::empty(), sh);
        },
    }
    match hash {
        Some(h) => {
            assert(sh + Seq::<u8>::empty() =~= sh);
            lemma_flag(b, p5, true, enc_bytes(h), Seq::empty());
            assert(enc_bytes(h) + Seq::<u8>::empty() =~= enc_bytes(h));
            lemma_bytes_window(b, p5 + 1, h);
        },
        None => {
            assert(sh + Seq::<u8>::empty() =~= sh);
            lemma_flag(b, p5, false, Seq::empty(), Seq::empty());
        },
    }
    assert(crate::decode::blob_at(b, p) == Ok::<(V, int), SxErrorCode>((v, pos + enc_value(v).len())));
}

#[verifier::spinoff_prover]
#[verifier::rlimit(100)]
proof fn lemma_typed_value_at(t: VTyped, b: Seq<u8>, q: int)
    requires
        typed_len(t) <= usize::MAX,
        holds(b, q, seq![TAG_TYPED_ARRAY] + enc_typed(t)),
        b.len() <= usize::MAX,
    ensures
        value_at(b, q) == Ok::<(V, int), SxErrorCode>((V::TypedArray(t), q + 1 + enc_typed(t).len())),
{
    lemma_tag(b, q, TAG_TYPED_ARRAY, enc_typed(t));
    lemma_typed_window(b, q + 1, t);
}

#[verifier::spinoff_prover]
#[verifier::rlimit(100)]
proof fn lemma_tensor_head(shape: Seq<usize>, b: Seq<u8>, p: int, rest: Seq<u8>)
    requires
        holds(b, p, varint_bytes(shape.len()) + (enc_dims(shape) + rest)),
        b.len() <= usize::MAX,
    ensures
        spec_read_varint(b, p) == Ok::<(u64, int), SxErrorCode>(
            (shape.len() as u64, p + varint_bytes(shape.len()).len()),
        ),
        ((shape.len() as u64) as usize) as nat == shape.len(),
        dims_at(b, p + varint_bytes(shape.len()).len(), shape.len(), Seq::empty()) == Ok::<
            (Seq<usize>, int),
            SxErrorCode,
        >((shape, p + varint_bytes(shape.len()).len() + enc_dims(shape).len())),
        holds(b, p + varint_bytes(shape.len()).len() + enc_dims(shape).len(), rest),
{
    let sn = varint_bytes(shape.len());
    let sd = enc_dims(shape);
    lemma_holds_split(b, p, sn, sd + rest);
    lemma_enc_dims_len(shape);
    lemma_varint_window(b, p, shape.len() as u64);
    let q = p + sn.len();
    lemma_holds_split(b, q, sd, rest);
    assert(shape.take(0) =~= Seq::<usize>::empty());
    lemma_dims_window(b, q, shape, Seq::empty(), 0);
}

#[verifier::spinoff_prover]
#[verifier::rlimit(100)]
proof fn lemma_tensor_tail(data: VTyped, layout: Option<Seq<char>>, b: Seq<u8>, q1: int)
    requires
        typed_len(data) <= usize::MAX,
        holds(b, q1, enc_opt_str(layout) + (seq![TAG_TYPED_ARRAY] + enc_typed(data))),
        b.len() <= usize::MAX,
    ensures
        flag_at(b, q1) == Ok::<(bool, int), SxErrorCode>((layout is Some, q1 + 1)),
        layout matches Some(l) ==> str_at(b, q1 + 1) == Ok::<(Seq<char>, int), SxErrorCode>(
            (l, q1 + enc_opt_str(layout).len()),
        ),
        value_at(b, q1 + enc_opt_str(layout).len()) == Ok::<(V, int), SxErrorCode>(
            (V::TypedArray(data), q1 + enc_opt_str(layout).len() + 1 + enc_typed(data).len()),
        ),
{
    let st = seq![TAG_TYPED_ARRAY] + enc_typed(data);
    match layout {
        Some(l) => {
            lemma_flag(b, q1, true, enc_str(l), st);
            lemma_holds_split(b, q1 + 1, enc_str(l), st);
            lemma_str_window(b, q1 + 1, l);
        },
        None => {
            lemma_flag(b, q1, false, Seq::empty(), st);
        },
    }
    lemma_typed_value_at(data, b, q1 + enc_opt_str(layout).len());
}

#[verifier::spinoff_prover]
#[verifier::rlimit(100)]
proof fn lemma_tensor_body(shape: Seq<usize>, data: VTyped, layout: Option<Seq<char>>, b: Seq<u8>, p: int)
    requires
        typed_len(data) <= usize::MAX,
        holds(
            b,
            p,
            varint_bytes(shape.len()) + (enc_dims(shape) + (enc_opt_str(layout) + (seq![TAG_TYPED_ARRAY] + enc_typed(
                data,
            )))),
        ),
        b.len() <= usize::MAX,
    ensures
        tensor_at(b, p) == Ok::<(V, int), SxErrorCode>(
            (
                V::Tensor(shape, data, layout),
                p + varint_bytes(shape.len()).len() + enc_dims(shape).len() + enc_opt_str(layout).len() + 1
                    + enc_typed(data).len(),
            ),
        ),
{
    let rest = enc_opt_str(layout) + (seq![TAG_TYPED_ARRAY] + enc_typed(data));
    lemma_tensor_head(shape, b, p, rest);
    let q1 = p + varint_bytes(shape.len()).len() + enc_dims(shape).len();
    lemma_tensor_tail(data, layout, b, q1);
}

#[verifier::spinoff_prover]
#[verifier::rlimit(100)]
proof fn lemma_tensor_at(shape: Seq<usize>, data: VTyped, layout: Option<Seq<char>>, b: Seq<u8>, pos: int)
    requires
        typed_len(data) <= usize::MAX,
        holds(b, pos, enc_value(V::Tensor(shape, data, layout))),
        b.len() <= usize::MAX,
    ensures
        value_at(b, pos) == Ok::<(V, int), SxErrorCode>(
            (V::Tensor(shape, data, layout), pos + enc_value(V::Tensor(shape, data, layout)).len()),
        ),
{
    let v = V::Tensor(shape, data, layout);
    let sn = varint_bytes(shape.len());
    let sd = enc_dims(shape);
    let sl = enc_opt_str(layout);
    let st = seq![TAG_TYPED_ARRAY] + enc_typed(data);
    assert(enc_value(v) =~= seq![TAG_TENSOR] + (sn + (sd + (sl + st))));
    lemma_tag(b, pos, TAG_TENSOR, sn + (sd + (sl + st)));
    lemma_tensor_body(shape, data, layout, b, pos + 1);
}

// ---------------------------------------------------------------------------
// Nested values
// ---------------------------------------------------------------------------

/// The encoding of a value reads back, where it lies, as its decoded form.
#[verifier::spinoff_prover]
#[verifier::rlimit(100)]
pub proof fn lemma_value_at(v: V, b: Seq<u8>, pos: int)
    requires
        roundtrips(v),
        holds(b, pos, enc_value(v)),
        b.len() <= usize::MAX,
    ensures
        value_at(b, pos) == Ok::<(V, int), SxErrorCode>((decoded_form(v), pos + enc_value(v).len())),
    decreases v, 0nat,
{
    match v {
        V::Array(items) => {
            lemma_array_at(items, b, pos);
        },
        V::Object(fs) => {
            lemma_object_at(fs, b, pos);
        },
        V::Message(m) => {
            assert(decreases_to!(v => m.fields));
            assert(enc_value(v) == enc_value(V::Object(m.fields)));
            lemma_object_at(m.fields, b, pos);
        },
        V::Table(cs) => {
            lemma_table_at(cs, b, pos);
        },
        V::Tensor(shape, data, layout) => {
            lemma_tensor_at(shape, data, layout, b, pos);
        },
        V::BlobRef(uri, media, size, hash) => {
            lemma_blob_at(uri, media, size, hash, b, pos);
        },
        V::Decimal(scaled, scale) => {
            lemma_decimal_at(scaled, scale, b, pos);
        },
        V::Money(cur, scaled, scale) => {
            lemma_money_at(cur, scaled, scale, b, pos);
        },
        V::F32(_) | V::F64(_) => {
            lemma_float_at(v, b, pos);
        },
        V::U8(_) | V::U16(_) | V::U32(_) | V::U64(_) | V::I8(_) | V::I16(_) | V::I32(_) | V::I64(_) => {
            lemma_int_at(v, b, pos);
        },
        V::TypedArray(t) => {
            assert(enc_value(v) == seq![TAG_TYPED_ARRAY] + enc_typed(t));
            lemma_typed_value_at(t, b, pos);
        },
        V::Null => {
            lemma_tag(b, pos, TAG_NULL, Seq::empty());
        },
        V::Bool(x) => {
            if x {
                lemma_tag(b, pos, TAG_TRUE, Seq::empty());
            } else {
                lemma_tag(b, pos, TAG_FALSE, Seq::empty());
            }
        },
        V::MapEntries(_) | V::Delta(_, _) => {},
        _ => {
            lemma_text_at(v, b, pos);
        },
    }
}

#[verifier::spinoff_prover]
#[verifier::rlimit(100)]
proof fn lemma_array_at(vs: Seq<V>, b: Seq<u8>, pos: int)
    requires
        all_roundtrip(vs),
        holds(b, pos, enc_value(V::Array(vs))),
        b.len() <= usize::MAX,
    ensures
        value_at(b, pos) == Ok::<(V, int), SxErrorCode>(
            (V::Array(decoded_vals(vs)), pos + enc_value(V::Array(vs)).len()),
        ),
    decreases vs, vs.len() + 1,
{
    let sn = varint_bytes(vs.len());
    let body = enc_values(vs);
    assert(enc_value(V::Array(vs)) =~= seq![TAG_ARRAY] + (sn + body));
    lemma_tag(b, pos, TAG_ARRAY, sn + body);
    lemma_holds_split(b, pos + 1, sn, body);
    lemma_enc_values_len(vs);
    lemma_varint_window(b, pos + 1, vs.len() as u64);
    let q = pos + 1 + sn.len();
    assert(vs.take(0) =~= Seq::<V>::empty());
    lemma_items_read(vs, b, q, 0);
    assert(((vs.len() as u64) as usize) as nat == vs.len());
    assert(decoded_vals(vs.take(0)) == Seq::<V>::empty());
    assert(array_at(b, pos + 1) == Ok::<(V, int), SxErrorCode>(
        (V::Array(decoded_vals(vs)), q + body.len()),
    ));
}

#[verifier::spinoff_prover]
#[verifier::rlimit(100)]
proof fn lemma_items_read(vs: Seq<V>, b: Seq<u8>, pos: int, i: nat)
    requires
        all_roundtrip(vs),
        i <= vs.len(),
        holds(b, pos, enc_values(vs)),
        b.len() <= usize::MAX,
    ensures
        items_at(b, pos + enc_values(vs.take(i as int)).len(), (vs.len() - i) as nat, decoded_vals(vs.take(i as int)))
            == Ok::<(Seq<V>, int), SxErrorCode>((decoded_vals(vs), pos + enc_values(vs).len())),
    decreases vs, vs.len() - i,
{
    if i == vs.len() {
        assert(vs.take(i as int) =~= vs);
    } else {
        let q = pos + enc_values(vs.take(i as int)).len();
        let t = vs.take(i as int + 1);
        assert(t.drop_last() =~= vs.take(i as int));
        assert(t.last() == vs[i as int]);
        lemma_enc_values_prefix(vs, (i + 1) as nat);
        let all = enc_values(vs);
        lemma_holds_split(b, pos, enc_values(t), all.subrange(enc_values(t).len() as int, all.len() as int));
        lemma_holds_split(b, pos, enc_values(vs.take(i as int)), enc_value(vs[i as int]));
        lemma_roundtrip_at(vs, i as int);
        assert(decreases_to!(vs => vs[i as int]));
        lemma_value_at(vs[i as int], b, q);
        lemma_enc_value_nonempty(vs[i as int]);
        lemma_items_read(vs, b, pos, i + 1);
        assert(decoded_vals(t) == decoded_vals(vs.take(i as int)).push(decoded_form(vs[i as int])));
    }
}

#[verifier::spinoff_prover]
#[verifier::rlimit(100)]
proof fn lemma_object_at(fs: Seq<(Seq<char>, V)>, b: Seq<u8>, pos: int)
    requires
        sorted_keys(fs),
        entries_roundtrip(fs),
        holds(b, pos, enc_value(V::Object(fs))),
        b.len() <= usize::MAX,
    ensures
        value_at(b, pos) == Ok::<(V, int), SxErrorCode>(
            (V::Object(decoded_entries(fs)), pos + enc_value(V::Object(fs)).len()),
        ),
    decreases fs, fs.len() + 1,
{
    let sn = varint_bytes(fs.len());
    let body = enc_fields(fs);
    assert(enc_value(V::Object(fs)) =~= seq![TAG_OBJECT] + (sn + body));
    lemma_tag(b, pos, TAG_OBJECT, sn + body);
    lemma_holds_split(b, pos + 1, sn, body);
    lemma_enc_fields_len(fs);
    lemma_varint_window(b, pos + 1, fs.len() as u64);
    let q = pos + 1 + sn.len();
    assert(fs.take(0) =~= Seq::<(Seq<char>, V)>::empty());
    lemma_entries_read(fs, b, q, 0);
    assert(((fs.len() as u64) as usize) as nat == fs.len());
    assert(decoded_entries(fs.take(0)) == Seq::<(Seq<char>, V)>::empty());
    assert(object_at(b, pos + 1) == Ok::<(V, int), SxErrorCode>(
        (V::Object(decoded_entries(fs)), q + body.len()),
    ));
}

#[verifier::spinoff_prover]
#[verifier::rlimit(100)]
proof fn lemma_entries_read(fs: Seq<(Seq<char>, V)>, b: Seq<u8>, pos: int, i: nat)
    requires
        sorted_keys(fs),
        entries_roundtrip(fs),
        i <= fs.len(),
        holds(b, pos, enc_fields(fs)),
        b.len() <= usize::MAX,
    ensures
        entries_at(
            b,
            pos + enc_fields(fs.take(i as int)).len(),
            (fs.len() - i) as nat,
            decoded_entries(fs.take(i as int)),
        ) == Ok::<(Seq<(Seq<char>, V)>, int), SxErrorCode>((decoded_entries(fs), pos + enc_fields(fs).len())),
    decreases fs, fs.len() - i,
{
    if i == fs.len() {
        assert(fs.take(i as int) =~= fs);
    } else {
        let q = pos + enc_fields(fs.take(i as int)).len();
        let t = fs.take(i as int + 1);
        assert(t.drop_last() =~= fs.take(i as int));
        assert(t.last() == fs[i as int]);
        let (k, x) = fs[i as int];
        lemma_enc_fields_prefix(fs, (i + 1) as nat);
        let all = enc_fields(fs);
        lemma_holds_split(b, pos, enc_fields(t), all.subrange(enc_fields(t).len() as int, all.len() as int));
        assert(enc_fields(t) == enc_fields(fs.take(i as int)) + enc_str(k) + enc_value(x));
        lemma_holds_split(b, pos, enc_fields(fs.take(i as int)) + enc_str(k), enc_value(x));
        lemma_holds_split(b, pos, enc_fields(fs.take(i as int)), enc_str(k));
        lemma_str_window(b, q, k);
        let p1 = q + enc_str(k).len();
        lemma_entry_roundtrip_at(fs, i as int);
        assert(decreases_to!(fs => fs[i as int]));
        assert(decreases_to!(fs[i as int] => fs[i as int].1));
        lemma_value_at(x, b, p1);
        lemma_enc_value_nonempty(x);
        let acc = decoded_entries(fs.take(i as int));
        lemma_decoded_entries(fs.take(i as int));
        assert forall|j: int| 0 <= j < acc.len() implies key_lt(#[trigger] acc[j].0, k) by {
            assert(acc[j].0 == fs.take(i as int)[j].0);
            assert(fs.take(i as int)[j] == fs[j]);
        }
        lemma_insert_last(acc, k, decoded_form(x));
        lemma_entries_read(fs, b, pos, i + 1);
        assert(decoded_entries(t) == acc.push((k, decoded_form(x))));
    }
}

#[verifier::spinoff_prover]
#[verifier::rlimit(100)]
proof fn lemma_table_at(cs: Seq<(Seq<char>, VColumn)>, b: Seq<u8>, pos: int)
    requires
        sorted_keys(cs),
        columns_roundtrip(cs),
        holds(b, pos, enc_value(V::Table(cs))),
        b.len() <= usize::MAX,
    ensures
        value_at(b, pos) == Ok::<(V, int), SxErrorCode>(
            (V::Table(decoded_columns(cs)), pos + enc_value(V::Table(cs)).len()),
        ),
    decreases cs, cs.len() + 1,
{
    let sn = varint_bytes(cs.len());
    let body = enc_columns(cs);
    assert(enc_value(V::Table(cs)) =~= seq![TAG_TABLE] + (sn + body));
    lemma_tag(b, pos, TAG_TABLE, sn + body);
    lemma_holds_split(b, pos + 1, sn, body);
    lemma_enc_columns_len(cs);
    lemma_varint_window(b, pos + 1, cs.len() as u64);
    let q = pos + 1 + sn.len();
    assert(cs.take(0) =~= Seq::<(Seq<char>, VColumn)>::empty());
    lemma_columns_read(cs, b, q, 0);
    assert(((cs.len() as u64) as usize) as nat == cs.len());
    assert(decoded_columns(cs.take(0)) == Seq::<(Seq<char>, VColumn)>::empty());
    assert(table_at(b, pos + 1) == Ok::<(V, int), SxErrorCode>(
        (V::Table(decoded_columns(cs)), q + body.len()),
    ));
}

#[verifier::spinoff_prover]
#[verifier::rlimit(100)]
proof fn lemma_columns_read(cs: Seq<(Seq<char>, VColumn)>, b: Seq<u8>, pos: int, i: nat)
    requires
        sorted_keys(cs),
        columns_roundtrip(cs),
        i <= cs.len(),
        holds(b, pos, enc_columns(cs)),
        b.len() <= usize::MAX,
    ensures
        columns_at(
            b,
            pos + enc_columns(cs.take(i as int)).len(),
            (cs.len() - i) as nat,
            decoded_columns(cs.take(i as int)),
        ) == Ok::<(Seq<(Seq<char>, VColumn)>, int), SxErrorCode>((decoded_columns(cs), pos + enc_columns(cs).len())),
    decreases cs, cs.len() - i,
{
    if i == cs.len() {
        assert(cs.take(i as int) =~= cs);
    } else {
        let q = pos + enc_columns(cs.take(i as int)).len();
        let t = cs.take(i as int + 1);
        assert(t.drop_last() =~= cs.take(i as int));
        assert(t.last() == cs[i as int]);
        let (k, c) = cs[i as int];
        let (kind, cv): (u8, V) = match c {
            VColumn::Typed(ty) => (1u8, V::TypedArray(ty)),
            VColumn::Values(vs) => (2u8, V::Array(vs)),
        };
        assert(enc_columns(t) =~= enc_columns(cs.take(i as int)) + enc_str(k) + (seq![kind] + enc_value(cv)));
        lemma_enc_columns_prefix(cs, (i + 1) as nat);
        let all = enc_columns(cs);
        lemma_holds_split(b, pos, enc_columns(t), all.subrange(enc_columns(t).len() as int, all.len() as int));
        lemma_holds_split(b, pos, enc_columns(cs.take(i as int)) + enc_str(k), seq![kind] + enc_value(cv));
        lemma_holds_split(b, pos, enc_columns(cs.take(i as int)), enc_str(k));
        lemma_str_window(b, q, k);
        let p1 = q + enc_str(k).len();
        lemma_tag(b, p1, kind, enc_value(cv));
        lemma_column_roundtrip_at(cs, i as int);
        let dc = decoded_column(c);
        match c {
            VColumn::Typed(ty) => {
                lemma_typed_value_at(ty, b, p1 + 1);
            },
            VColumn::Values(vs) => {
                assert(decreases_to!(cs => cs[i as int]));
                assert(decreases_to!(cs[i as int] => cs[i as int].1));
                assert(decreases_to!(cs[i as int].1 => vs));
                lemma_array_at(vs, b, p1 + 1);
            },
        }
        let acc = decoded_columns(cs.take(i as int));
        lemma_decoded_columns(cs.take(i as int));
        assert forall|j: int| 0 <= j < acc.len() implies key_lt(#[trigger] acc[j].0, k) by {
            assert(acc[j].0 == cs.take(i as int)[j].0);
            assert(cs.take(i as int)[j] == cs[j]);
        }
        lemma_insert_last(acc, k, dc);
        lemma_columns_read(cs, b, pos, i + 1);
        assert(decoded_columns(t) == acc.push((k, dc)));
        assert(column_of(kind, decoded_form(cv)) == Some(dc));
    }
}

/// Law: decoding the value encoding of a value gives back its decoded form,
/// the value with the widenings the format makes, and consumes exactly the
/// encoding.
pub proof fn law_value_roundtrip(v: V)
    requires
        roundtrips(v),
        enc_value(v).len() <= usize::MAX,
    ensures
        value_segment(enc_value(v)) == Ok::<V, SxErrorCode>(decoded_form(v)),
{
    let e = enc_value(v);
    assert(e.subrange(0, e.len() as int) =~= e);
    lemma_value_at(v, e, 0);
}

} // verus!
