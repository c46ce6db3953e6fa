//! The SX binary value encoding: one tag byte per value, varint lengths and
//! counts, little-endian fixed-width numbers.
use crate::bytes::{le_bytes, push_le, push_le128, append_bytes};
use crate::error::{SxError, SxErrorCode, SxResult};
use crate::value::{
    dv, dv_columns, dv_fields, dv_column, dv_pairs, dv_vals, SxColumn, SxTable, SxTensor, SxTypedArray, SxValue, V, VColumn,
    VTyped,
};
use crate::value_ops::{lemma_dv_columns, lemma_dv_pairs};
use crate::debug_text::{dbg, debug_value};
use crate::formatter::{
    float_texts_view, float_values, floats_in, fmt, format_canonical, height, height_capped, FloatText,
};
use crate::fields::{lemma_dv_fields, lemma_dv_vals};
use crate::varint::{encode_varint, spec_zigzag, varint_bytes, zigzag_encode};
use vstd::prelude::*;
use vstd::utf8::encode_utf8;

verus! {

pub const TAG_NULL: u8 = 0x00;
pub const TAG_FALSE: u8 = 0x01;
pub const TAG_TRUE: u8 = 0x02;
pub const TAG_U64: u8 = 0x10;
pub const TAG_I64: u8 = 0x11;
pub const TAG_F64: u8 = 0x12;
pub const TAG_DECIMAL: u8 = 0x13;
pub const TAG_STRING: u8 = 0x20;
pub const TAG_BYTES: u8 = 0x22;
pub const TAG_ARRAY: u8 = 0x30;
pub const TAG_TYPED_ARRAY: u8 = 0x31;
pub const TAG_TABLE: u8 = 0x32;
pub const TAG_TENSOR: u8 = 0x33;
pub const TAG_OBJECT: u8 = 0x40;
pub const TAG_TIMESTAMP: u8 = 0x50;
pub const TAG_DATE: u8 = 0x51;
pub const TAG_DURATION: u8 = 0x52;
pub const TAG_UUID: u8 = 0x53;
pub const TAG_DELTA: u8 = 0x60;
pub const TAG_REFERENCE: u8 = 0x70;
pub const TAG_BLOB_REF: u8 = 0x71;

// ---------------------------------------------------------------------------
// f32 -> f64 widening on bit patterns
// ---------------------------------------------------------------------------

/// Position of the highest set bit of `m` at or below `p` (0 when none).
pub open spec fn top_bit(m: u32, p: u32) -> u32
    decreases p,
{
    if p == 0 {
        0
    } else if (m >> p) != 0 {
        p
    } else {
        top_bit(m, (p - 1) as u32)
    }
}

/// The `f64` bit pattern of the `f32` whose bit pattern is `b`: exact for
/// every number (subnormals are normalised), infinities stay infinite, and a
/// NaN keeps its sign and payload with the quiet bit set.
pub open spec fn widen_f32_bits(b: u32) -> u64 {
    let sign = ((b >> 31u32) as u64) << 63u64;
    let exp = (b >> 23u32) & 0xffu32;
    let mant = b & 0x7f_ffffu32;
    if exp == 0xff {
        if mant == 0 {
            sign | 0x7ff0_0000_0000_0000u64
        } else {
            sign | 0x7ff8_0000_0000_0000u64 | ((mant as u64) << 29u64)
        }
    } else if exp == 0 {
        if mant == 0 {
            sign
        } else {
            let p = top_bit(mant, 22);
            sign | (((p + 874) as u64) << 52u64) | (((mant as u64) << ((52 - p) as u64)) & 0x000f_ffff_ffff_ffffu64)
        }
    } else {
        sign | (((exp + 896) as u64) << 52u64) | ((mant as u64) << 29u64)
    }
}

proof fn lemma_top_bit_bound(m: u32, p: u32)
    ensures
        top_bit(m, p) <= p,
    decreases p,
{
    if p > 0 && (m >> p) == 0 {
        lemma_top_bit_bound(m, (p - 1) as u32);
    }
}

/// Widens an `f32` bit pattern to the bit pattern of the same `f64`.
pub fn widen_f32(b: u32) -> (r: u64)
    ensures
        r == widen_f32_bits(b),
{
    let sign = ((b >> 31u32) as u64) << 63u64;
    let exp = (b >> 23u32) & 0xffu32;
    let mant = b & 0x7f_ffffu32;
    if exp == 0xff {
        if mant == 0 {
            sign | 0x7ff0_0000_0000_0000u64
        } else {
            sign | 0x7ff8_0000_0000_0000u64 | ((mant as u64) << 29u64)
        }
    } else if exp == 0 {
        if mant == 0 {
            sign
        } else {
            let mut p: u32 = 22;
            while p > 0 && (mant >> p) == 0
                invariant
                    p <= 22,
                    top_bit(mant, 22) == top_bit(mant, p),
                decreases p,
            {
                p = p - 1;
            }
            proof {
                lemma_top_bit_bound(mant, 22);
            }
            sign | (((p + 874) as u64) << 52u64) | (((mant as u64) << ((52 - p) as u64)) & 0x000f_ffff_ffff_ffffu64)
        }
    } else {
        assert(exp < 0xff) by (bit_vector)
            requires
                exp == (b >> 23u32) & 0xffu32,
                exp != 0xff,
        ;
        sign | (((exp + 896) as u64) << 52u64) | ((mant as u64) << 29u64)
    }
}

// ---------------------------------------------------------------------------
// Packed booleans
// ---------------------------------------------------------------------------

/// Weight of bit `k` of a byte.
pub open spec fn bit_weight(k: int) -> u8 {
    if k == 0 {
        1
    } else if k == 1 {
        2
    } else if k == 2 {
        4
    } else if k == 3 {
        8
    } else if k == 4 {
        16
    } else if k == 5 {
        32
    } else if k == 6 {
        64
    } else {
        128
    }
}

/// 1 when bit `i` is present and set, else 0.
pub open spec fn bit_at(bits: Seq<bool>, i: int) -> u8 {
    if 0 <= i < bits.len() && bits[i] {
        1
    } else {
        0
    }
}

/// Byte `j` of packed booleans: bit `k` holds boolean `8 * j + k`.
pub open spec fn packed_byte(bits: Seq<bool>, j: int) -> u8 {
    (bit_at(bits, 8 * j) + 2 * bit_at(bits, 8 * j + 1) + 4 * bit_at(bits, 8 * j + 2) + 8 * bit_at(bits, 8 * j + 3)
        + 16 * bit_at(bits, 8 * j + 4) + 32 * bit_at(bits, 8 * j + 5) + 64 * bit_at(bits, 8 * j + 6) + 128
        * bit_at(bits, 8 * j + 7)) as u8
}

/// Booleans packed eight to a byte, least significant bit first.
pub open spec fn pack_bits(bits: Seq<bool>) -> Seq<u8> {
    Seq::new(((bits.len() + 7) / 8) as nat, |j: int| packed_byte(bits, j))
}

/// The `n` booleans read back from packed bytes.
pub open spec fn unpack_bits(bytes: Seq<u8>, n: nat) -> Seq<bool> {
    Seq::new(n, |i: int| (bytes[i / 8] & bit_weight(i % 8)) != 0)
}

/// Weight of bit `k` of a byte.
pub fn weight_of(k: usize) -> (r: u8)
    requires
        k < 8,
    ensures
        r == bit_weight(k as int),
{
    match k {
        0 => 1,
        1 => 2,
        2 => 4,
        3 => 8,
        4 => 16,
        5 => 32,
        6 => 64,
        _ => 128,
    }
}

proof fn lemma_packed_step(bits: Seq<bool>, i: int, j: int)
    requires
        0 <= i < bits.len(),
        0 <= j,
    ensures
        packed_byte(bits.take(i + 1), j) == (if j == i / 8 && bits[i] {
            packed_byte(bits.take(i), j) + bit_weight(i % 8)
        } else {
            packed_byte(bits.take(i), j) as int
        }),
{
    let a = bits.take(i);
    let b = bits.take(i + 1);
    assert forall|x: int| x != i implies bit_at(b, x) == bit_at(a, x) by {
        if 0 <= x < i {
            assert(b[x] == a[x]);
        }
    }
    assert(bit_at(a, i) == 0);
    assert(bit_at(b, i) == (if bits[i] { 1u8 } else { 0u8 }));
}

/// Packs booleans eight to a byte.
pub fn pack_bool_bits(bits: &Vec<bool>) -> (r: Vec<u8>)
    ensures
        r@ == pack_bits(bits@),
{
    let n = bits.len() / 8 + if bits.len() % 8 != 0 { 1usize } else { 0usize };
    assert(n == (bits@.len() + 7) / 8);
    let mut out: Vec<u8> = Vec::new();
    while out.len() < n
        invariant
            out@.len() <= n,
            forall|j: int| 0 <= j < out@.len() ==> out@[j] == 0,
        decreases n - out.len(),
    {
        out.push(0);
    }
    proof {
        assert forall|j: int| 0 <= j < n implies out@[j] == packed_byte(bits@.take(0), j) by {}
    }
    let mut i: usize = 0;
    while i < bits.len()
        invariant
            i <= bits@.len(),
            n == (bits@.len() + 7) / 8,
            out@.len() == n,
            forall|j: int| 0 <= j < n ==> out@[j] == packed_byte(bits@.take(i as int), j),
        decreases bits.len() - i,
    {
        proof {
            assert forall|j: int| 0 <= j < n implies packed_byte(bits@.take(i + 1), j) == (if j == i / 8 && bits@[i as int] {
                packed_byte(bits@.take(i as int), j) + bit_weight((i % 8) as int)
            } else {
                packed_byte(bits@.take(i as int), j) as int
            }) by {
                lemma_packed_step(bits@, i as int, j);
            }
        }
        if bits[i] {
            let w = weight_of(i % 8);
            let j = i / 8;
            proof {
                lemma_packed_step(bits@, i as int, j as int);
                assert(packed_byte(bits@.take(i + 1), j as int) <= 255);
            }
            let cur = out[j];
            out.set(j, cur + w);
        }
        i += 1;
    }
    proof {
        assert(bits@.take(i as int) =~= bits@);
        assert(out@ =~= pack_bits(bits@));
    }
    out
}

} // verus!

verus! {

// ---------------------------------------------------------------------------
// The encoding, as a function of the logical value
// ---------------------------------------------------------------------------

/// A length-prefixed byte string.
pub open spec fn enc_bytes(b: Seq<u8>) -> Seq<u8> {
    varint_bytes(b.len()) + b
}

/// A length-prefixed UTF-8 string.
pub open spec fn enc_str(s: Seq<char>) -> Seq<u8> {
    enc_bytes(encode_utf8(s))
}

/// Fixed-width little-endian elements, `w` bytes each.
pub open spec fn enc_fixed(s: Seq<nat>, w: nat) -> Seq<u8>
    decreases s.len(),
{
    if s.len() == 0 {
        Seq::empty()
    } else {
        enc_fixed(s.drop_last(), w) + le_bytes(s.last(), w)
    }
}

pub open spec fn i32_words(s: Seq<i32>) -> Seq<nat> {
    s.map_values(|x: i32| (x as u32) as nat)
}

pub open spec fn u32_words(s: Seq<u32>) -> Seq<nat> {
    s.map_values(|x: u32| x as nat)
}

pub open spec fn u64_words(s: Seq<u64>) -> Seq<nat> {
    s.map_values(|x: u64| x as nat)
}

/// A typed array after its tag: element kind, count, elements.
pub open spec fn enc_typed(t: VTyped) -> Seq<u8> {
    match t {
        VTyped::U8(v) => seq![1u8] + varint_bytes(v.len()) + v,
        VTyped::I32(v) => seq![2u8] + varint_bytes(v.len()) + enc_fixed(i32_words(v), 4),
        VTyped::F32(v) => seq![3u8] + varint_bytes(v.len()) + enc_fixed(u32_words(v), 4),
        VTyped::F64(v) => seq![4u8] + varint_bytes(v.len()) + enc_fixed(u64_words(v), 8),
        VTyped::Bool(v) => seq![5u8] + varint_bytes(v.len()) + pack_bits(v),
    }
}

/// An optional part: a 0 flag, or a 1 flag and the part.
pub open spec fn enc_opt(present: bool, part: Seq<u8>) -> Seq<u8> {
    if present {
        seq![1u8] + part
    } else {
        seq![0u8]
    }
}

pub open spec fn enc_opt_str(o: Option<Seq<char>>) -> Seq<u8> {
    match o {
        Some(s) => enc_opt(true, enc_str(s)),
        None => enc_opt(false, Seq::empty()),
    }
}

/// Tensor dimensions, one varint each.
pub open spec fn enc_dims(s: Seq<usize>) -> Seq<u8>
    decreases s.len(),
{
    if s.len() == 0 {
        Seq::empty()
    } else {
        enc_dims(s.drop_last()) + varint_bytes(s.last() as nat)
    }
}

/// True when the value holds nothing the binary encoding refuses: a map key
/// holding a float, and a delta document holding a float or nested too deep
/// for its text to be indented.
pub open spec fn encodable(v: V) -> bool
    decreases v,
{
    match v {
        V::Array(items) => encodable_vals(items),
        V::Object(fields) => encodable_fields(fields),
        V::MapEntries(ps) => encodable_pairs(ps),
        V::Table(cols) => encodable_columns(cols),
        V::Delta(_, _) => floats_in(v).len() == 0 && 2 * height(v) <= usize::MAX,
        V::Message(m) => encodable_fields(m.fields),
        _ => true,
    }
}

pub open spec fn encodable_vals(s: Seq<V>) -> bool
    decreases s,
{
    if s.len() == 0 {
        true
    } else {
        encodable_vals(s.drop_last()) && encodable(s.last())
    }
}

pub open spec fn encodable_fields(s: Seq<(Seq<char>, V)>) -> bool
    decreases s,
{
    if s.len() == 0 {
        true
    } else {
        encodable_fields(s.drop_last()) && encodable(s.last().1)
    }
}

pub open spec fn encodable_pairs(s: Seq<(V, V)>) -> bool
    decreases s,
{
    if s.len() == 0 {
        true
    } else {
        encodable_pairs(s.drop_last()) && encodable_pair(s.last())
    }
}

/// A map entry the encoding takes: a key without floats, an encodable value.
pub open spec fn encodable_pair(p: (V, V)) -> bool
    decreases p, 1nat,
{
    floats_in(p.0).len() == 0 && encodable(p.1)
}

pub open spec fn encodable_columns(s: Seq<(Seq<char>, VColumn)>) -> bool
    decreases s,
{
    if s.len() == 0 {
        true
    } else {
        encodable_columns(s.drop_last()) && match s.last().1 {
            VColumn::Typed(_) => true,
            VColumn::Values(vals) => encodable_vals(vals),
        }
    }
}

/// The bytes of one value.
pub open spec fn enc_value(v: V) -> Seq<u8>
    decreases v,
{
    match v {
        V::Null => seq![TAG_NULL],
        V::Bool(b) => if b {
            seq![TAG_TRUE]
        } else {
            seq![TAG_FALSE]
        },
        V::U8(x) => seq![TAG_U64] + varint_bytes(x as nat),
        V::U16(x) => seq![TAG_U64] + varint_bytes(x as nat),
        V::U32(x) => seq![TAG_U64] + varint_bytes(x as nat),
        V::U64(x) => seq![TAG_U64] + varint_bytes(x as nat),
        V::I8(x) => seq![TAG_I64] + varint_bytes(spec_zigzag(x as i64)),
        V::I16(x) => seq![TAG_I64] + varint_bytes(spec_zigzag(x as i64)),
        V::I32(x) => seq![TAG_I64] + varint_bytes(spec_zigzag(x as i64)),
        V::I64(x) => seq![TAG_I64] + varint_bytes(spec_zigzag(x)),
        V::F32(b) => seq![TAG_F64] + le_bytes(widen_f32_bits(b) as nat, 8),
        V::F64(b) => seq![TAG_F64] + le_bytes(b as nat, 8),
        V::Decimal(scaled, scale) => seq![TAG_DECIMAL, 0u8] + le_bytes((scaled as u128) as nat, 16) + le_bytes(
            scale as nat,
            4,
        ),
        V::Money(cur, scaled, scale) => seq![TAG_DECIMAL, 1u8] + le_bytes(((scaled as i128) as u128) as nat, 16)
            + le_bytes(scale as nat, 4) + enc_str(cur),
        V::String(s) => seq![TAG_STRING] + enc_str(s),
        V::Enum(s) => seq![TAG_STRING] + enc_str(s),
        V::Url(s) => seq![TAG_STRING] + enc_str(s),
        V::Email(s) => seq![TAG_STRING] + enc_str(s),
        V::Bytes(b) => seq![TAG_BYTES] + enc_bytes(b),
        V::Array(items) => seq![TAG_ARRAY] + varint_bytes(items.len()) + enc_values(items),
        V::Object(fields) => seq![TAG_OBJECT] + varint_bytes(fields.len()) + enc_fields(fields),
        V::MapEntries(ps) => seq![TAG_OBJECT] + varint_bytes(ps.len()) + enc_pairs(ps),
        V::Uuid(u) => seq![TAG_UUID] + u,
        V::Timestamp(s) => seq![TAG_TIMESTAMP] + enc_str(s),
        V::Date(s) => seq![TAG_DATE] + enc_str(s),
        V::Duration(s) => seq![TAG_DURATION] + enc_str(s),
        V::TypedArray(t) => seq![TAG_TYPED_ARRAY] + enc_typed(t),
        V::Table(cols) => seq![TAG_TABLE] + varint_bytes(cols.len()) + enc_columns(cols),
        V::Tensor(shape, data, layout) => seq![TAG_TENSOR] + varint_bytes(shape.len()) + enc_dims(shape)
            + enc_opt_str(layout) + seq![TAG_TYPED_ARRAY] + enc_typed(data),
        V::Reference(t) => seq![TAG_REFERENCE] + enc_str(t),
        V::BlobRef(uri, media, size, hash) => seq![TAG_BLOB_REF] + enc_str(uri) + enc_opt_str(media) + match size {
            Some(n) => enc_opt(true, varint_bytes(n as nat)),
            None => enc_opt(false, Seq::empty()),
        } + match hash {
            Some(h) => enc_opt(true, enc_bytes(h)),
            None => enc_opt(false, Seq::empty()),
        },
        V::Delta(_, _) => seq![TAG_DELTA] + enc_str(fmt(v, 0, Seq::empty())),
        V::Message(m) => seq![TAG_OBJECT] + varint_bytes(m.fields.len()) + enc_fields(m.fields),
    }
}

/// The bytes of values one after another.
pub open spec fn enc_values(s: Seq<V>) -> Seq<u8>
    decreases s,
{
    if s.len() == 0 {
        Seq::empty()
    } else {
        enc_values(s.drop_last()) + enc_value(s.last())
    }
}

/// The bytes of keyed entries: each key as a string, then its value.
pub open spec fn enc_fields(s: Seq<(Seq<char>, V)>) -> Seq<u8>
    decreases s,
{
    if s.len() == 0 {
        Seq::empty()
    } else {
        enc_fields(s.drop_last()) + enc_str(s.last().0) + enc_value(s.last().1)
    }
}

/// The bytes of map entries, written as an object: each key as the string
/// of its debug text, then its value.
pub open spec fn enc_pairs(s: Seq<(V, V)>) -> Seq<u8>
    decreases s,
{
    if s.len() == 0 {
        Seq::empty()
    } else {
        enc_pairs(s.drop_last()) + enc_str(dbg(s.last().0, Seq::empty())) + enc_value(s.last().1)
    }
}

/// The bytes of table columns: name, column kind, column payload.
pub open spec fn enc_columns(s: Seq<(Seq<char>, VColumn)>) -> Seq<u8>
    decreases s,
{
    if s.len() == 0 {
        Seq::empty()
    } else {
        enc_columns(s.drop_last()) + enc_str(s.last().0) + match s.last().1 {
            VColumn::Typed(t) => seq![1u8, TAG_TYPED_ARRAY] + enc_typed(t),
            VColumn::Values(vals) => seq![2u8, TAG_ARRAY] + varint_bytes(vals.len()) + enc_values(vals),
        }
    }
}

} // verus!

verus! {

// ---------------------------------------------------------------------------
// Writing
// ---------------------------------------------------------------------------

pub proof fn lemma_encodable_vals(s: Seq<V>)
    ensures
        encodable_vals(s) <==> forall|i: int| 0 <= i < s.len() ==> encodable(#[trigger] s[i]),
    decreases s.len(),
{
    if s.len() > 0 {
        lemma_encodable_vals(s.drop_last());
        if encodable_vals(s.drop_last()) && encodable(s.last()) {
            assert forall|i: int| 0 <= i < s.len() implies encodable(#[trigger] s[i]) by {
                if i < s.len() - 1 {
                    assert(s.drop_last()[i] == s[i]);
                }
            }
        }
        if forall|i: int| 0 <= i < s.len() ==> encodable(#[trigger] s[i]) {
            assert forall|i: int| 0 <= i < s.drop_last().len() implies encodable(#[trigger] s.drop_last()[i]) by {
                assert(s.drop_last()[i] == s[i]);
            }
            assert(encodable(s[s.len() - 1]));
        }
    }
}

pub proof fn lemma_encodable_fields(s: Seq<(Seq<char>, V)>)
    ensures
        encodable_fields(s) <==> forall|i: int| 0 <= i < s.len() ==> encodable(#[trigger] s[i].1),
    decreases s.len(),
{
    if s.len() > 0 {
        lemma_encodable_fields(s.drop_last());
        if encodable_fields(s.drop_last()) && encodable(s.last().1) {
            assert forall|i: int| 0 <= i < s.len() implies encodable(#[trigger] s[i].1) by {
                if i < s.len() - 1 {
                    assert(s.drop_last()[i] == s[i]);
                }
            }
        }
        if forall|i: int| 0 <= i < s.len() ==> encodable(#[trigger] s[i].1) {
            assert forall|i: int| 0 <= i < s.drop_last().len() implies encodable(#[trigger] s.drop_last()[i].1) by {
                assert(s.drop_last()[i] == s[i]);
            }
            assert(encodable(s[s.len() - 1].1));
        }
    }
}

pub open spec fn encodable_column(c: VColumn) -> bool {
    match c {
        VColumn::Typed(_) => true,
        VColumn::Values(vals) => encodable_vals(vals),
    }
}

pub open spec fn enc_column(c: VColumn) -> Seq<u8> {
    match c {
        VColumn::Typed(t) => seq![1u8, TAG_TYPED_ARRAY] + enc_typed(t),
        VColumn::Values(vals) => seq![2u8, TAG_ARRAY] + varint_bytes(vals.len()) + enc_values(vals),
    }
}

pub proof fn lemma_encodable_columns(s: Seq<(Seq<char>, VColumn)>)
    ensures
        encodable_columns(s) <==> forall|i: int| 0 <= i < s.len() ==> encodable_column(#[trigger] s[i].1),
    decreases s.len(),
{
    if s.len() > 0 {
        lemma_encodable_columns(s.drop_last());
        if encodable_columns(s.drop_last()) && encodable_column(s.last().1) {
            assert forall|i: int| 0 <= i < s.len() implies encodable_column(#[trigger] s[i].1) by {
                if i < s.len() - 1 {
                    assert(s.drop_last()[i] == s[i]);
                }
            }
        }
        if forall|i: int| 0 <= i < s.len() ==> encodable_column(#[trigger] s[i].1) {
            assert forall|i: int| 0 <= i < s.drop_last().len() implies encodable_column(
                #[trigger] s.drop_last()[i].1,
            ) by {
                assert(s.drop_last()[i] == s[i]);
            }
            assert(encodable_column(s[s.len() - 1].1));
        }
    }
}

/// Writes a length-prefixed byte string.
pub fn write_bytes(out: &mut Vec<u8>, b: &[u8])
    ensures
        final(out)@ == old(out)@ + enc_bytes(b@),
{
    encode_varint(b.len() as u64, out);
    append_bytes(out, b);
    assert(final(out)@ =~= old(out)@ + enc_bytes(b@));
}

/// Writes a length-prefixed UTF-8 string.
pub fn write_str(out: &mut Vec<u8>, s: &str)
    ensures
        final(out)@ == old(out)@ + enc_str(s@),
{
    write_bytes(out, s.as_bytes());
}

fn write_i32s(out: &mut Vec<u8>, v: &Vec<i32>)
    ensures
        final(out)@ == old(out)@ + enc_fixed(i32_words(v@), 4),
{
    let ghost start = out@;
    let mut i: usize = 0;
    while i < v.len()
        invariant
            i <= v@.len(),
            out@ == start + enc_fixed(i32_words(v@).take(i as int), 4),
        decreases v.len() - i,
    {
        let x = v[i];
        push_le(out, (x as u32) as u64, 4);
        proof {
            assert(i32_words(v@).take(i + 1).drop_last() =~= i32_words(v@).take(i as int));
        }
        i += 1;
    }
    assert(i32_words(v@).take(i as int) =~= i32_words(v@));
}

fn write_u32s(out: &mut Vec<u8>, v: &Vec<u32>)
    ensures
        final(out)@ == old(out)@ + enc_fixed(u32_words(v@), 4),
{
    let ghost start = out@;
    let mut i: usize = 0;
    while i < v.len()
        invariant
            i <= v@.len(),
            out@ == start + enc_fixed(u32_words(v@).take(i as int), 4),
        decreases v.len() - i,
    {
        push_le(out, v[i] as u64, 4);
        proof {
            assert(u32_words(v@).take(i + 1).drop_last() =~= u32_words(v@).take(i as int));
        }
        i += 1;
    }
    assert(u32_words(v@).take(i as int) =~= u32_words(v@));
}

fn write_u64s(out: &mut Vec<u8>, v: &Vec<u64>)
    ensures
        final(out)@ == old(out)@ + enc_fixed(u64_words(v@), 8),
{
    let ghost start = out@;
    let mut i: usize = 0;
    while i < v.len()
        invariant
            i <= v@.len(),
            out@ == start + enc_fixed(u64_words(v@).take(i as int), 8),
        decreases v.len() - i,
    {
        push_le(out, v[i], 8);
        proof {
            assert(u64_words(v@).take(i + 1).drop_last() =~= u64_words(v@).take(i as int));
        }
        i += 1;
    }
    assert(u64_words(v@).take(i as int) =~= u64_words(v@));
}

/// Writes a typed array's kind, count and elements (after its tag).
pub fn write_typed(out: &mut Vec<u8>, t: &SxTypedArray)
    ensures
        final(out)@ == old(out)@ + enc_typed(t.dv()),
{
    let ghost start = out@;
    match t {
        SxTypedArray::U8(v) => {
            out.push(1);
            encode_varint(v.len() as u64, out);
            append_bytes(out, v.as_slice());
        },
        SxTypedArray::I32(v) => {
            out.push(2);
            encode_varint(v.len() as u64, out);
            write_i32s(out, v);
        },
        SxTypedArray::F32(v) => {
            out.push(3);
            encode_varint(v.len() as u64, out);
            write_u32s(out, v);
        },
        SxTypedArray::F64(v) => {
            out.push(4);
            encode_varint(v.len() as u64, out);
            write_u64s(out, v);
        },
        SxTypedArray::Bool(v) => {
            out.push(5);
            encode_varint(v.len() as u64, out);
            let packed = pack_bool_bits(v);
            append_bytes(out, packed.as_slice());
        },
    }
    assert(out@ =~= start + enc_typed(t.dv()));
}

fn write_dims(out: &mut Vec<u8>, v: &Vec<usize>)
    ensures
        final(out)@ == old(out)@ + enc_dims(v@),
{
    let ghost start = out@;
    let mut i: usize = 0;
    while i < v.len()
        invariant
            i <= v@.len(),
            out@ == start + enc_dims(v@.take(i as int)),
        decreases v.len() - i,
    {
        encode_varint(v[i] as u64, out);
        proof {
            assert(v@.take(i + 1).drop_last() =~= v@.take(i as int));
        }
        i += 1;
    }
    assert(v@.take(i as int) =~= v@);
}

fn write_opt_str(out: &mut Vec<u8>, o: &Option<String>)
    ensures
        final(out)@ == old(out)@ + enc_opt_str(crate::value::opt_str(*o)),
{
    match o {
        Some(s) => {
            out.push(1);
            write_str(out, s.as_str());
        },
        None => out.push(0),
    }
    assert(final(out)@ =~= old(out)@ + enc_opt_str(crate::value::opt_str(*o)));
}

/// Writes one value.  A map key holding a float, and a delta document
/// holding a float or nested past half the address space, are refused with
/// `UnsupportedFeature`; nothing else fails.
#[verifier::rlimit(100)]
#[verifier::spinoff_prover]
pub fn write_value(v: &SxValue, out: &mut Vec<u8>) -> (r: SxResult<()>)
    ensures
        r is Ok <==> encodable(dv(*v)),
        r is Ok ==> final(out)@ == old(out)@ + enc_value(dv(*v)),
        r matches Err(e) ==> e.code == SxErrorCode::UnsupportedFeature,
    decreases v, 0nat,
{
    let ghost start = out@;
    match v {
        SxValue::Null => out.push(TAG_NULL),
        SxValue::Bool(b) => if *b {
            out.push(TAG_TRUE)
        } else {
            out.push(TAG_FALSE)
        },
        SxValue::U8(x) => {
            out.push(TAG_U64);
            encode_varint(*x as u64, out);
        },
        SxValue::U16(x) => {
            out.push(TAG_U64);
            encode_varint(*x as u64, out);
        },
        SxValue::U32(x) => {
            out.push(TAG_U64);
            encode_varint(*x as u64, out);
        },
        SxValue::U64(x) => {
            out.push(TAG_U64);
            encode_varint(*x, out);
        },
        SxValue::I8(x) => {
            out.push(TAG_I64);
            encode_varint(zigzag_encode(*x as i64), out);
        },
        SxValue::I16(x) => {
            out.push(TAG_I64);
            encode_varint(zigzag_encode(*x as i64), out);
        },
        SxValue::I32(x) => {
            out.push(TAG_I64);
            encode_varint(zigzag_encode(*x as i64), out);
        },
        SxValue::I64(x) => {
            out.push(TAG_I64);
            encode_varint(zigzag_encode(*x), out);
        },
        SxValue::F32(b) => {
            out.push(TAG_F64);
            push_le(out, widen_f32(*b), 8);
        },
        SxValue::F64(b) => {
            out.push(TAG_F64);
            push_le(out, *b, 8);
        },
        SxValue::Decimal(d) => {
            out.push(TAG_DECIMAL);
            out.push(0);
            push_le128(out, d.scaled as u128);
            push_le(out, d.scale as u64, 4);
        },
        SxValue::Money(m) => {
            out.push(TAG_DECIMAL);
            out.push(1);
            push_le128(out, (m.scaled as i128) as u128);
            push_le(out, m.scale as u64, 4);
            write_str(out, m.currency.as_str());
        },
        SxValue::String(s) | SxValue::Enum(s) | SxValue::Url(s) | SxValue::Email(s) => {
            out.push(TAG_STRING);
            write_str(out, s.as_str());
        },
        SxValue::Bytes(b) => {
            out.push(TAG_BYTES);
            write_bytes(out, b.as_slice());
        },
        SxValue::Array(items) => {
            out.push(TAG_ARRAY);
            encode_varint(items.len() as u64, out);
            proof {
                lemma_dv_vals(items@);
            }
            let r = write_values(items, out);
            if r.is_err() {
                return r;
            }
        },
        SxValue::Object(fields) => {
            out.push(TAG_OBJECT);
            encode_varint(fields.len() as u64, out);
            proof {
                lemma_dv_fields(fields@);
            }
            let r = write_fields(fields, out);
            if r.is_err() {
                return r;
            }
        },
        SxValue::MapEntries(pairs) => {
            out.push(TAG_OBJECT);
            encode_varint(pairs.len() as u64, out);
            proof {
                lemma_dv_pairs(pairs@);
            }
            let r = write_pairs(pairs, out);
            if r.is_err() {
                return r;
            }
        },
        SxValue::Uuid(u) => {
            out.push(TAG_UUID);
            append_bytes(out, u.as_slice());
        },
        SxValue::Timestamp(s) => {
            out.push(TAG_TIMESTAMP);
            write_str(out, s.as_str());
        },
        SxValue::Date(s) => {
            out.push(TAG_DATE);
            write_str(out, s.as_str());
        },
        SxValue::Duration(s) => {
            out.push(TAG_DURATION);
            write_str(out, s.as_str());
        },
        SxValue::TypedArray(t) => {
            out.push(TAG_TYPED_ARRAY);
            write_typed(out, t);
        },
        SxValue::Table(t) => {
            out.push(TAG_TABLE);
            encode_varint(t.columns.len() as u64, out);
            proof {
                lemma_dv_columns(t.columns@);
            }
            let r = write_columns(&t.columns, out);
            if r.is_err() {
                return r;
            }
        },
        SxValue::Tensor(t) => {
            out.push(TAG_TENSOR);
            encode_varint(t.shape.len() as u64, out);
            write_dims(out, &t.shape);
            write_opt_str(out, &t.layout);
            out.push(TAG_TYPED_ARRAY);
            write_typed(out, &t.data);
        },
        SxValue::Reference(r) => {
            out.push(TAG_REFERENCE);
            write_str(out, r.target.as_str());
        },
        SxValue::BlobRef(b) => {
            out.push(TAG_BLOB_REF);
            write_str(out, b.uri.as_str());
            write_opt_str(out, &b.media_type);
            match b.size {
                Some(n) => {
                    out.push(1);
                    encode_varint(n, out);
                },
                None => out.push(0),
            }
            match &b.hash {
                Some(h) => {
                    out.push(1);
                    write_bytes(out, h.as_slice());
                },
                None => out.push(0),
            }
        },
        SxValue::Delta(_) => {
            if float_values(v).len() != 0 {
                return Err(SxError::msg(SxErrorCode::UnsupportedFeature, "a delta holding a float has no binary encoding"));
            }
            let limit: u64 = (usize::MAX / 2) as u64;
            if height_capped(v, limit + 1) > limit {
                return Err(SxError::msg(SxErrorCode::UnsupportedFeature, "a delta nested this deep has no binary encoding"));
            }
            let text = format_canonical(v, &Vec::new());
            proof {
                assert(float_texts_view(Seq::<FloatText>::empty()) =~= Seq::<(bool, u64, Seq<char>)>::empty());
            }
            out.push(TAG_DELTA);
            write_str(out, text.as_str());
        },
        SxValue::Message(m) => {
            out.push(TAG_OBJECT);
            encode_varint(m.fields.len() as u64, out);
            proof {
                lemma_dv_fields(m.fields@);
            }
            let r = write_fields(&m.fields, out);
            if r.is_err() {
                return r;
            }
        },
    }
    assert(out@ =~= start + enc_value(dv(*v)));
    Ok(())
}

/// Writes values one after another.
pub fn write_values(items: &Vec<SxValue>, out: &mut Vec<u8>) -> (r: SxResult<()>)
    ensures
        r is Ok <==> encodable_vals(dv_vals(items@)),
        r is Ok ==> final(out)@ == old(out)@ + enc_values(dv_vals(items@)),
        r matches Err(e) ==> e.code == SxErrorCode::UnsupportedFeature,
    decreases items, 1nat,
{
    let ghost start = out@;
    let ghost vs = dv_vals(items@);
    proof {
        lemma_dv_vals(items@);
        lemma_encodable_vals(vs);
    }
    let mut i: usize = 0;
    while i < items.len()
        invariant
            i <= items@.len(),
            vs == dv_vals(items@),
            vs.len() == items@.len(),
            forall|j: int| 0 <= j < items@.len() ==> #[trigger] vs[j] == dv(items@[j]),
            encodable_vals(vs) <==> forall|j: int| 0 <= j < vs.len() ==> encodable(#[trigger] vs[j]),
            forall|j: int| 0 <= j < i ==> encodable(#[trigger] vs[j]),
            out@ == start + enc_values(vs.take(i as int)),
        decreases items.len() - i,
    {
        assert(decreases_to!(items => items@[i as int]));
        let r = write_value(&items[i], out);
        if r.is_err() {
            assert(!encodable(vs[i as int]));
            return r;
        }
        proof {
            assert(vs.take(i + 1).drop_last() =~= vs.take(i as int));
        }
        i += 1;
    }
    assert(vs.take(i as int) =~= vs);
    Ok(())
}

/// Writes keyed entries: each key as a string, then its value.
pub fn write_fields(fields: &Vec<(String, SxValue)>, out: &mut Vec<u8>) -> (r: SxResult<()>)
    ensures
        r is Ok <==> encodable_fields(dv_fields(fields@)),
        r is Ok ==> final(out)@ == old(out)@ + enc_fields(dv_fields(fields@)),
        r matches Err(e) ==> e.code == SxErrorCode::UnsupportedFeature,
    decreases fields, 1nat,
{
    let ghost start = out@;
    let ghost fs = dv_fields(fields@);
    proof {
        lemma_dv_fields(fields@);
        lemma_encodable_fields(fs);
    }
    let mut i: usize = 0;
    while i < fields.len()
        invariant
            i <= fields@.len(),
            fs == dv_fields(fields@),
            fs.len() == fields@.len(),
            forall|j: int| 0 <= j < fields@.len() ==> #[trigger] fs[j] == (fields@[j].0@, dv(fields@[j].1)),
            encodable_fields(fs) <==> forall|j: int| 0 <= j < fs.len() ==> encodable(#[trigger] fs[j].1),
            forall|j: int| 0 <= j < i ==> encodable(#[trigger] fs[j].1),
            out@ == start + enc_fields(fs.take(i as int)),
        decreases fields.len() - i,
    {
        assert(decreases_to!(fields => fields@[i as int].1));
        write_str(out, fields[i].0.as_str());
        let r = write_value(&fields[i].1, out);
        if r.is_err() {
            assert(!encodable(fs[i as int].1));
            return r;
        }
        proof {
            assert(fs.take(i + 1).drop_last() =~= fs.take(i as int));
        }
        i += 1;
    }
    assert(fs.take(i as int) =~= fs);
    Ok(())
}

/// Writes map entries as object entries: each key's debug text as a
/// string, then its value.  A key holding a float is refused.
pub fn write_pairs(pairs: &Vec<(SxValue, SxValue)>, out: &mut Vec<u8>) -> (r: SxResult<()>)
    ensures
        r is Ok <==> encodable_pairs(dv_pairs(pairs@)),
        r is Ok ==> final(out)@ == old(out)@ + enc_pairs(dv_pairs(pairs@)),
        r matches Err(e) ==> e.code == SxErrorCode::UnsupportedFeature,
    decreases pairs, 1nat,
{
    let ghost start = out@;
    let ghost ps = dv_pairs(pairs@);
    proof {
        lemma_dv_pairs(pairs@);
        lemma_encodable_pairs(ps);
    }
    let mut i: usize = 0;
    while i < pairs.len()
        invariant
            i <= pairs@.len(),
            ps == dv_pairs(pairs@),
            ps.len() == pairs@.len(),
            forall|j: int| 0 <= j < pairs@.len() ==> #[trigger] ps[j] == (dv(pairs@[j].0), dv(pairs@[j].1)),
            encodable_pairs(ps) <==> forall|j: int| 0 <= j < ps.len() ==> encodable_pair(#[trigger] ps[j]),
            forall|j: int| 0 <= j < i ==> encodable_pair(#[trigger] ps[j]),
            out@ == start + enc_pairs(ps.take(i as int)),
        decreases pairs.len() - i,
    {
        assert(decreases_to!(pairs => pairs@[i as int].1));
        let fl = float_values(&pairs[i].0);
        if fl.len() != 0 {
            assert(!encodable_pair(ps[i as int]));
            return Err(SxError::msg(SxErrorCode::UnsupportedFeature, "a map key holding a float has no binary encoding"));
        }
        let key = debug_value(&pairs[i].0, &Vec::new());
        proof {
            assert(float_texts_view(Seq::<FloatText>::empty()) =~= Seq::<(bool, u64, Seq<char>)>::empty());
        }
        write_str(out, key.as_str());
        let r = write_value(&pairs[i].1, out);
        if r.is_err() {
            assert(!encodable_pair(ps[i as int]));
            return r;
        }
        proof {
            assert(ps.take(i + 1).drop_last() =~= ps.take(i as int));
        }
        i += 1;
    }
    assert(ps.take(i as int) =~= ps);
    Ok(())
}

pub proof fn lemma_encodable_pairs(s: Seq<(V, V)>)
    ensures
        encodable_pairs(s) <==> forall|i: int| 0 <= i < s.len() ==> encodable_pair(#[trigger] s[i]),
    decreases s.len(),
{
    if s.len() > 0 {
        lemma_encodable_pairs(s.drop_last());
        if encodable_pairs(s.drop_last()) && encodable_pair(s.last()) {
            assert forall|i: int| 0 <= i < s.len() implies encodable_pair(#[trigger] s[i]) by {
                if i < s.len() - 1 {
                    assert(s.drop_last()[i] == s[i]);
                }
            }
        }
        if forall|i: int| 0 <= i < s.len() ==> encodable_pair(#[trigger] s[i]) {
            assert forall|i: int| 0 <= i < s.drop_last().len() implies encodable_pair(#[trigger] s.drop_last()[i]) by {
                assert(s.drop_last()[i] == s[i]);
            }
            assert(encodable_pair(s[s.len() - 1]));
        }
    }
}

fn write_column(c: &SxColumn, out: &mut Vec<u8>) -> (r: SxResult<()>)
    ensures
        r is Ok <==> encodable_column(dv_column(*c)),
        r is Ok ==> final(out)@ == old(out)@ + enc_column(dv_column(*c)),
        r matches Err(e) ==> e.code == SxErrorCode::UnsupportedFeature,
    decreases c, 2nat,
{
    let ghost start = out@;
    match c {
        SxColumn::Typed(t) => {
            out.push(1);
            out.push(TAG_TYPED_ARRAY);
            write_typed(out, t);
        },
        SxColumn::Values(vals) => {
            out.push(2);
            out.push(TAG_ARRAY);
            encode_varint(vals.len() as u64, out);
            proof {
                lemma_dv_vals(vals@);
            }
            let r = write_values(vals, out);
            if r.is_err() {
                return r;
            }
        },
    }
    assert(out@ =~= start + enc_column(dv_column(*c)));
    Ok(())
}

fn write_columns(cols: &Vec<(String, SxColumn)>, out: &mut Vec<u8>) -> (r: SxResult<()>)
    ensures
        r is Ok <==> encodable_columns(dv_columns(cols@)),
        r is Ok ==> final(out)@ == old(out)@ + enc_columns(dv_columns(cols@)),
        r matches Err(e) ==> e.code == SxErrorCode::UnsupportedFeature,
    decreases cols, 3nat,
{
    let ghost start = out@;
    let ghost cs = dv_columns(cols@);
    proof {
        lemma_dv_columns(cols@);
        lemma_encodable_columns(cs);
    }
    let mut i: usize = 0;
    while i < cols.len()
        invariant
            i <= cols@.len(),
            cs == dv_columns(cols@),
            cs.len() == cols@.len(),
            forall|j: int| 0 <= j < cols@.len() ==> #[trigger] cs[j] == (cols@[j].0@, dv_column(cols@[j].1)),
            encodable_columns(cs) <==> forall|j: int| 0 <= j < cs.len() ==> encodable_column(#[trigger] cs[j].1),
            forall|j: int| 0 <= j < i ==> encodable_column(#[trigger] cs[j].1),
            out@ == start + enc_columns(cs.take(i as int)),
        decreases cols.len() - i,
    {
        assert(decreases_to!(cols => cols@[i as int].1));
        write_str(out, cols[i].0.as_str());
        let r = write_column(&cols[i].1, out);
        if r.is_err() {
            assert(!encodable_column(cs[i as int].1));
            return r;
        }
        proof {
            assert(cs.take(i + 1).drop_last() =~= cs.take(i as int));
        }
        i += 1;
    }
    assert(cs.take(i as int) =~= cs);
    Ok(())
}

} // verus!
