//! Logical equality of values.
//!
//! Two values are equal when they have the same variant and equal contents;
//! floating-point payloads compare as IEEE-754 numbers do (NaN equals
//! nothing, the two zeros are equal), everything else compares exactly.
use crate::fields::{lemma_dv_fields, lemma_dv_vals};
use crate::keys::str_equal;
use crate::path::{SxPath, SxPathSegment};
use crate::value::{
    dv, dv_column, dv_columns, dv_fields, dv_op, dv_ops, dv_pairs, dv_vals, opt_bytes, opt_path, opt_str, DeltaOp, MessageEnvelope, SxColumn, SxTypedArray,
    SxValue, V, VColumn, VMessage, VOp, VTyped,
};
use crate::value_ops::{lemma_dv_columns, lemma_dv_ops, lemma_dv_pairs};
use vstd::prelude::*;

verus! {

/// True when the `f32` bit pattern is a NaN.
pub open spec fn f32_is_nan(a: u32) -> bool {
    (a & 0x7f80_0000u32) == 0x7f80_0000u32 && (a & 0x007f_ffffu32) != 0
}

/// True when the `f64` bit pattern is a NaN.
pub open spec fn f64_is_nan(a: u64) -> bool {
    (a & 0x7ff0_0000_0000_0000u64) == 0x7ff0_0000_0000_0000u64 && (a & 0x000f_ffff_ffff_ffffu64) != 0
}

/// IEEE-754 equality of two `f32` bit patterns.
pub open spec fn f32_eq(a: u32, b: u32) -> bool {
    !f32_is_nan(a) && !f32_is_nan(b) && (a == b || ((a & 0x7fff_ffffu32) == 0 && (b & 0x7fff_ffffu32) == 0))
}

/// IEEE-754 equality of two `f64` bit patterns.
pub open spec fn f64_eq(a: u64, b: u64) -> bool {
    !f64_is_nan(a) && !f64_is_nan(b) && (a == b || ((a & 0x7fff_ffff_ffff_ffffu64) == 0 && (b
        & 0x7fff_ffff_ffff_ffffu64) == 0))
}

/// Equality of typed arrays.
pub open spec fn typed_eq(a: VTyped, b: VTyped) -> bool {
    match (a, b) {
        (VTyped::F32(x), VTyped::F32(y)) => x.len() == y.len() && forall|i: int|
            0 <= i < x.len() ==> f32_eq(#[trigger] x[i], y[i]),
        (VTyped::F64(x), VTyped::F64(y)) => x.len() == y.len() && forall|i: int|
            0 <= i < x.len() ==> f64_eq(#[trigger] x[i], y[i]),
        _ => a == b,
    }
}

/// Logical equality of values.
pub open spec fn veq(a: V, b: V) -> bool
    decreases a,
{
    match (a, b) {
        (V::F32(x), V::F32(y)) => f32_eq(x, y),
        (V::F64(x), V::F64(y)) => f64_eq(x, y),
        (V::Array(xs), V::Array(ys)) => seq_veq(xs, ys),
        (V::Object(xs), V::Object(ys)) => entries_veq(xs, ys),
        (V::MapEntries(xs), V::MapEntries(ys)) => pairs_veq(xs, ys),
        (V::TypedArray(x), V::TypedArray(y)) => typed_eq(x, y),
        (V::Table(xs), V::Table(ys)) => columns_veq(xs, ys),
        (V::Tensor(s1, d1, l1), V::Tensor(s2, d2, l2)) => s1 == s2 && typed_eq(d1, d2) && l1 == l2,
        (V::Delta(h1, o1), V::Delta(h2, o2)) => h1 == h2 && ops_veq(o1, o2),
        (V::Message(m1), V::Message(m2)) => message_eq(m1, m2),
        _ => a == b,
    }
}

/// Pointwise equality of two sequences of values.
pub open spec fn seq_veq(xs: Seq<V>, ys: Seq<V>) -> bool
    decreases xs,
{
    if xs.len() == 0 {
        ys.len() == 0
    } else {
        ys.len() == xs.len() && seq_veq(xs.drop_last(), ys.drop_last()) && veq(xs.last(), ys.last())
    }
}

/// Pointwise equality of keyed entries: equal keys, equal values.
pub open spec fn entries_veq(xs: Seq<(Seq<char>, V)>, ys: Seq<(Seq<char>, V)>) -> bool
    decreases xs,
{
    if xs.len() == 0 {
        ys.len() == 0
    } else {
        ys.len() == xs.len() && entries_veq(xs.drop_last(), ys.drop_last()) && xs.last().0 == ys.last().0
            && veq(xs.last().1, ys.last().1)
    }
}

/// Pointwise equality of map entries.
pub open spec fn pairs_veq(xs: Seq<(V, V)>, ys: Seq<(V, V)>) -> bool
    decreases xs,
{
    if xs.len() == 0 {
        ys.len() == 0
    } else {
        ys.len() == xs.len() && pairs_veq(xs.drop_last(), ys.drop_last()) && veq(xs.last().0, ys.last().0)
            && veq(xs.last().1, ys.last().1)
    }
}

/// Equality of table columns.
pub open spec fn column_eq(a: VColumn, b: VColumn) -> bool
    decreases a,
{
    match (a, b) {
        (VColumn::Typed(x), VColumn::Typed(y)) => typed_eq(x, y),
        (VColumn::Values(xs), VColumn::Values(ys)) => seq_veq(xs, ys),
        _ => false,
    }
}

/// Pointwise equality of named columns.
pub open spec fn columns_veq(xs: Seq<(Seq<char>, VColumn)>, ys: Seq<(Seq<char>, VColumn)>) -> bool
    decreases xs,
{
    if xs.len() == 0 {
        ys.len() == 0
    } else {
        ys.len() == xs.len() && columns_veq(xs.drop_last(), ys.drop_last()) && xs.last().0 == ys.last().0
            && column_eq(xs.last().1, ys.last().1)
    }
}

/// Equality of optional values.
pub open spec fn opt_veq(a: Option<V>, b: Option<V>) -> bool
    decreases a,
{
    match (a, b) {
        (Some(x), Some(y)) => veq(x, y),
        (None, None) => true,
        _ => false,
    }
}

/// Equality of delta operations.
pub open spec fn op_eq(a: VOp, b: VOp) -> bool
    decreases a,
{
    a.kind == b.kind && a.path == b.path && opt_veq(a.value, b.value) && a.from == b.from && a.index
        == b.index
}

/// Pointwise equality of delta operations.
pub open spec fn ops_veq(xs: Seq<VOp>, ys: Seq<VOp>) -> bool
    decreases xs,
{
    if xs.len() == 0 {
        ys.len() == 0
    } else {
        ys.len() == xs.len() && ops_veq(xs.drop_last(), ys.drop_last()) && op_eq(xs.last(), ys.last())
    }
}

/// Equality of message envelopes.
pub open spec fn message_eq(a: VMessage, b: VMessage) -> bool
    decreases a,
{
    &&& a.sx_version == b.sx_version
    &&& a.message_id == b.message_id
    &&& a.message_type == b.message_type
    &&& a.schema == b.schema
    &&& a.timestamp == b.timestamp
    &&& a.logical_hash == b.logical_hash
    &&& entries_veq(a.fields, b.fields)
    &&& match (a.payload, b.payload) {
        (Some(x), Some(y)) => veq(*x, *y),
        (None, None) => true,
        _ => false,
    }
}

/// `seq_veq` holds exactly when the lengths agree and the values are
/// pointwise equal.
pub proof fn lemma_seq_veq(xs: Seq<V>, ys: Seq<V>)
    ensures
        seq_veq(xs, ys) == (xs.len() == ys.len() && forall|i: int|
            0 <= i < xs.len() ==> #[trigger] veq(xs[i], ys[i])),
    decreases xs.len(),
{
    if xs.len() > 0 {
        lemma_seq_veq(xs.drop_last(), ys.drop_last());
        if xs.len() == ys.len() {
            let n = xs.len() - 1;
            assert forall|i: int| 0 <= i < n implies xs.drop_last()[i] == xs[i] && ys.drop_last()[i] == ys[i] by {}
            if seq_veq(xs, ys) {
                assert forall|i: int| 0 <= i < xs.len() implies #[trigger] veq(xs[i], ys[i]) by {
                    if i < n {
                        assert(veq(xs.drop_last()[i], ys.drop_last()[i]));
                    }
                }
            }
            if forall|i: int| 0 <= i < xs.len() ==> #[trigger] veq(xs[i], ys[i]) {
                assert forall|i: int| 0 <= i < n implies #[trigger] veq(xs.drop_last()[i], ys.drop_last()[i]) by {
                    assert(veq(xs[i], ys[i]));
                }
                assert(veq(xs[n], ys[n]));
            }
        }
    }
}

/// Keyed entries with equal keys and equal values, position by position.
pub open spec fn entries_pointwise(xs: Seq<(Seq<char>, V)>, ys: Seq<(Seq<char>, V)>) -> bool {
    xs.len() == ys.len() && forall|i: int|
        0 <= i < xs.len() ==> #[trigger] entry_eq(xs[i], ys[i])
}

pub open spec fn entry_eq(x: (Seq<char>, V), y: (Seq<char>, V)) -> bool {
    x.0 == y.0 && veq(x.1, y.1)
}

pub proof fn lemma_entries_veq(xs: Seq<(Seq<char>, V)>, ys: Seq<(Seq<char>, V)>)
    ensures
        entries_veq(xs, ys) == entries_pointwise(xs, ys),
    decreases xs.len(),
{
    if xs.len() > 0 {
        lemma_entries_veq(xs.drop_last(), ys.drop_last());
        if xs.len() == ys.len() {
            let n = xs.len() - 1;
            assert forall|i: int| 0 <= i < n implies xs.drop_last()[i] == xs[i] && ys.drop_last()[i] == ys[i] by {}
            if entries_veq(xs, ys) {
                assert forall|i: int| 0 <= i < xs.len() implies #[trigger] entry_eq(xs[i], ys[i]) by {
                    if i < n {
                        assert(entry_eq(xs.drop_last()[i], ys.drop_last()[i]));
                    }
                }
            }
            if entries_pointwise(xs, ys) {
                assert forall|i: int| 0 <= i < n implies #[trigger] entry_eq(xs.drop_last()[i], ys.drop_last()[i]) by {
                    assert(entry_eq(xs[i], ys[i]));
                }
                assert(entry_eq(xs[n], ys[n]));
            }
        }
    }
}

pub proof fn lemma_pairs_veq_pointwise(xs: Seq<(V, V)>, ys: Seq<(V, V)>)
    ensures
        pairs_veq(xs, ys) == (xs.len() == ys.len() && forall|i: int|
            0 <= i < xs.len() ==> #[trigger] veq(xs[i].0, ys[i].0) && veq(xs[i].1, ys[i].1)),
    decreases xs.len(),
{
    if xs.len() > 0 {
        lemma_pairs_veq_pointwise(xs.drop_last(), ys.drop_last());
        if xs.len() == ys.len() {
            let n = xs.len() - 1;
            assert forall|i: int| 0 <= i < n implies xs.drop_last()[i] == xs[i] && ys.drop_last()[i] == ys[i] by {}
            if pairs_veq(xs, ys) {
                assert forall|i: int| 0 <= i < xs.len() implies #[trigger] veq(xs[i].0, ys[i].0) && veq(xs[i].1, ys[i].1) by {
                    if i < n {
                        assert(veq(xs.drop_last()[i].0, ys.drop_last()[i].0));
                    }
                }
            }
            if forall|i: int| 0 <= i < xs.len() ==> #[trigger] veq(xs[i].0, ys[i].0) && veq(xs[i].1, ys[i].1) {
                assert forall|i: int| 0 <= i < n implies #[trigger] veq(xs.drop_last()[i].0, ys.drop_last()[i].0) && veq(
                    xs.drop_last()[i].1,
                    ys.drop_last()[i].1,
                ) by {
                    assert(veq(xs[i].0, ys[i].0));
                }
                assert(veq(xs[n].0, ys[n].0));
            }
        }
    }
}

pub open spec fn named_column_veq(x: (Seq<char>, VColumn), y: (Seq<char>, VColumn)) -> bool {
    x.0 == y.0 && column_eq(x.1, y.1)
}

pub proof fn lemma_columns_veq_pointwise(xs: Seq<(Seq<char>, VColumn)>, ys: Seq<(Seq<char>, VColumn)>)
    ensures
        columns_veq(xs, ys) == (xs.len() == ys.len() && forall|i: int|
            0 <= i < xs.len() ==> #[trigger] named_column_veq(xs[i], ys[i])),
    decreases xs.len(),
{
    if xs.len() > 0 {
        lemma_columns_veq_pointwise(xs.drop_last(), ys.drop_last());
        if xs.len() == ys.len() {
            let n = xs.len() - 1;
            assert forall|i: int| 0 <= i < n implies xs.drop_last()[i] == xs[i] && ys.drop_last()[i] == ys[i] by {}
            if columns_veq(xs, ys) {
                assert forall|i: int| 0 <= i < xs.len() implies #[trigger] named_column_veq(xs[i], ys[i]) by {
                    if i < n {
                        assert(named_column_veq(xs.drop_last()[i], ys.drop_last()[i]));
                    }
                }
            }
            if forall|i: int| 0 <= i < xs.len() ==> #[trigger] named_column_veq(xs[i], ys[i]) {
                assert forall|i: int| 0 <= i < n implies #[trigger] named_column_veq(xs.drop_last()[i], ys.drop_last()[i]) by {
                    assert(named_column_veq(xs[i], ys[i]));
                }
                assert(named_column_veq(xs[n], ys[n]));
            }
        }
    }
}

pub proof fn lemma_ops_veq(xs: Seq<VOp>, ys: Seq<VOp>)
    ensures
        ops_veq(xs, ys) == (xs.len() == ys.len() && forall|i: int|
            0 <= i < xs.len() ==> #[trigger] op_eq(xs[i], ys[i])),
    decreases xs.len(),
{
    if xs.len() > 0 {
        lemma_ops_veq(xs.drop_last(), ys.drop_last());
        if xs.len() == ys.len() {
            let n = xs.len() - 1;
            assert forall|i: int| 0 <= i < n implies xs.drop_last()[i] == xs[i] && ys.drop_last()[i] == ys[i] by {}
            if ops_veq(xs, ys) {
                assert forall|i: int| 0 <= i < xs.len() implies #[trigger] op_eq(xs[i], ys[i]) by {
                    if i < n {
                        assert(op_eq(xs.drop_last()[i], ys.drop_last()[i]));
                    }
                }
            }
            if forall|i: int| 0 <= i < xs.len() ==> #[trigger] op_eq(xs[i], ys[i]) {
                assert forall|i: int| 0 <= i < n implies #[trigger] op_eq(xs.drop_last()[i], ys.drop_last()[i]) by {
                    assert(op_eq(xs[i], ys[i]));
                }
                assert(op_eq(xs[n], ys[n]));
            }
        }
    }
}

/// IEEE-754 equality of two `f32` bit patterns.
pub fn f32_bits_equal(a: u32, b: u32) -> (r: bool)
    ensures
        r == f32_eq(a, b),
{
    let a_nan = (a & 0x7f80_0000u32) == 0x7f80_0000u32 && (a & 0x007f_ffffu32) != 0;
    let b_nan = (b & 0x7f80_0000u32) == 0x7f80_0000u32 && (b & 0x007f_ffffu32) != 0;
    !a_nan && !b_nan && (a == b || ((a & 0x7fff_ffffu32) == 0 && (b & 0x7fff_ffffu32) == 0))
}

/// IEEE-754 equality of two `f64` bit patterns.
pub fn f64_bits_equal(a: u64, b: u64) -> (r: bool)
    ensures
        r == f64_eq(a, b),
{
    let a_nan = (a & 0x7ff0_0000_0000_0000u64) == 0x7ff0_0000_0000_0000u64 && (a & 0x000f_ffff_ffff_ffffu64)
        != 0;
    let b_nan = (b & 0x7ff0_0000_0000_0000u64) == 0x7ff0_0000_0000_0000u64 && (b & 0x000f_ffff_ffff_ffffu64)
        != 0;
    !a_nan && !b_nan && (a == b || ((a & 0x7fff_ffff_ffff_ffffu64) == 0 && (b & 0x7fff_ffff_ffff_ffffu64)
        == 0))
}

fn bytes_equal(a: &[u8], b: &[u8]) -> (r: bool)
    ensures
        r == (a@ == b@),
{
    if a.len() != b.len() {
        assert(a@.len() != b@.len());
        return false;
    }
    let mut i: usize = 0;
    while i < a.len()
        invariant
            i <= a@.len(),
            a@.len() == b@.len(),
            forall|j: int| 0 <= j < i ==> a@[j] == b@[j],
        decreases a.len() - i,
    {
        if a[i] != b[i] {
            return false;
        }
        i += 1;
    }
    assert(a@ =~= b@);
    true
}

fn i32s_equal(a: &Vec<i32>, b: &Vec<i32>) -> (r: bool)
    ensures
        r == (a@ == b@),
{
    if a.len() != b.len() {
        assert(a@.len() != b@.len());
        return false;
    }
    let mut i: usize = 0;
    while i < a.len()
        invariant
            i <= a@.len(),
            a@.len() == b@.len(),
            forall|j: int| 0 <= j < i ==> a@[j] == b@[j],
        decreases a.len() - i,
    {
        if a[i] != b[i] {
            return false;
        }
        i += 1;
    }
    assert(a@ =~= b@);
    true
}

fn bools_equal(a: &Vec<bool>, b: &Vec<bool>) -> (r: bool)
    ensures
        r == (a@ == b@),
{
    if a.len() != b.len() {
        assert(a@.len() != b@.len());
        return false;
    }
    let mut i: usize = 0;
    while i < a.len()
        invariant
            i <= a@.len(),
            a@.len() == b@.len(),
            forall|j: int| 0 <= j < i ==> a@[j] == b@[j],
        decreases a.len() - i,
    {
        if a[i] != b[i] {
            return false;
        }
        i += 1;
    }
    assert(a@ =~= b@);
    true
}

fn usizes_equal(a: &Vec<usize>, b: &Vec<usize>) -> (r: bool)
    ensures
        r == (a@ == b@),
{
    if a.len() != b.len() {
        assert(a@.len() != b@.len());
        return false;
    }
    let mut i: usize = 0;
    while i < a.len()
        invariant
            i <= a@.len(),
            a@.len() == b@.len(),
            forall|j: int| 0 <= j < i ==> a@[j] == b@[j],
        decreases a.len() - i,
    {
        if a[i] != b[i] {
            return false;
        }
        i += 1;
    }
    assert(a@ =~= b@);
    true
}

fn opt_strings_equal(a: &Option<String>, b: &Option<String>) -> (r: bool)
    ensures
        r == (opt_str(*a) == opt_str(*b)),
{
    match (a, b) {
        (Some(x), Some(y)) => str_equal(x.as_str(), y.as_str()),
        (None, None) => true,
        _ => false,
    }
}

fn opt_bytes_equal(a: &Option<Vec<u8>>, b: &Option<Vec<u8>>) -> (r: bool)
    ensures
        r == (opt_bytes(*a) == opt_bytes(*b)),
{
    match (a, b) {
        (Some(x), Some(y)) => bytes_equal(x.as_slice(), y.as_slice()),
        (None, None) => true,
        _ => false,
    }
}

/// Equality of paths.
pub fn paths_equal(a: &SxPath, b: &SxPath) -> (r: bool)
    ensures
        r == (a@ == b@),
{
    if a.segments.len() != b.segments.len() {
        assert(a@.len() != b@.len());
        return false;
    }
    let mut i: usize = 0;
    while i < a.segments.len()
        invariant
            i <= a.segments@.len(),
            a.segments@.len() == b.segments@.len(),
            a@.len() == a.segments@.len(),
            b@.len() == b.segments@.len(),
            forall|j: int| 0 <= j < i ==> #[trigger] a@[j] == b@[j],
        decreases a.segments.len() - i,
    {
        let same = match (&a.segments[i], &b.segments[i]) {
            (SxPathSegment::Key(x), SxPathSegment::Key(y)) => str_equal(x.as_str(), y.as_str()),
            (SxPathSegment::Index(x), SxPathSegment::Index(y)) => *x == *y,
            _ => false,
        };
        if !same {
            assert(a@[i as int] != b@[i as int]);
            return false;
        }
        i += 1;
    }
    assert(a@ =~= b@);
    true
}

fn opt_paths_equal(a: &Option<SxPath>, b: &Option<SxPath>) -> (r: bool)
    ensures
        r == (opt_path(*a) == opt_path(*b)),
{
    match (a, b) {
        (Some(x), Some(y)) => paths_equal(x, y),
        (None, None) => true,
        _ => false,
    }
}

/// Equality of typed arrays.
pub fn typed_arrays_equal(a: &SxTypedArray, b: &SxTypedArray) -> (r: bool)
    ensures
        r == typed_eq(a.dv(), b.dv()),
{
    match (a, b) {
        (SxTypedArray::U8(x), SxTypedArray::U8(y)) => bytes_equal(x.as_slice(), y.as_slice()),
        (SxTypedArray::I32(x), SxTypedArray::I32(y)) => i32s_equal(x, y),
        (SxTypedArray::Bool(x), SxTypedArray::Bool(y)) => bools_equal(x, y),
        (SxTypedArray::F32(x), SxTypedArray::F32(y)) => {
            assert(a.dv() == VTyped::F32(x@) && b.dv() == VTyped::F32(y@));
            if x.len() != y.len() {
                return false;
            }
            let mut i: usize = 0;
            while i < x.len()
                invariant
                    i <= x@.len(),
                    x@.len() == y@.len(),
                    a.dv() == VTyped::F32(x@) && b.dv() == VTyped::F32(y@),
                    forall|j: int| 0 <= j < i ==> f32_eq(#[trigger] x@[j], y@[j]),
                decreases x.len() - i,
            {
                if !f32_bits_equal(x[i], y[i]) {
                    assert(!f32_eq(x@[i as int], y@[i as int]));
                    return false;
                }
                i += 1;
            }
            true
        },
        (SxTypedArray::F64(x), SxTypedArray::F64(y)) => {
            assert(a.dv() == VTyped::F64(x@) && b.dv() == VTyped::F64(y@));
            if x.len() != y.len() {
                return false;
            }
            let mut i: usize = 0;
            while i < x.len()
                invariant
                    i <= x@.len(),
                    x@.len() == y@.len(),
                    a.dv() == VTyped::F64(x@) && b.dv() == VTyped::F64(y@),
                    forall|j: int| 0 <= j < i ==> f64_eq(#[trigger] x@[j], y@[j]),
                decreases x.len() - i,
            {
                if !f64_bits_equal(x[i], y[i]) {
                    assert(!f64_eq(x@[i as int], y@[i as int]));
                    return false;
                }
                i += 1;
            }
            true
        },
        _ => false,
    }
}

fn vals_equal(a: &Vec<SxValue>, b: &Vec<SxValue>) -> (r: bool)
    ensures
        r == vals_match(a@, b@),
    decreases a, 1nat,
{
    if a.len() != b.len() {
        assert(a@.len() != b@.len());
        return false;
    }
    let mut i: usize = 0;
    while i < a.len()
        invariant
            i <= a@.len(),
            a@.len() == b@.len(),
            forall|j: int| 0 <= j < i ==> #[trigger] veq(dv(a@[j]), dv(b@[j])),
        decreases a.len() - i,
    {
        assert(decreases_to!(a => a@[i as int]));
        if !values_equal(&a[i], &b[i]) {
            assert(!veq(dv(a@[i as int]), dv(b@[i as int])));
            return false;
        }
        i += 1;
    }
    true
}

spec fn field_eq(x: (String, SxValue), y: (String, SxValue)) -> bool {
    x.0@ == y.0@ && veq(dv(x.1), dv(y.1))
}

spec fn pair_eq(x: (SxValue, SxValue), y: (SxValue, SxValue)) -> bool {
    veq(dv(x.0), dv(y.0)) && veq(dv(x.1), dv(y.1))
}

spec fn named_column_eq(x: (String, SxColumn), y: (String, SxColumn)) -> bool {
    x.0@ == y.0@ && column_eq(dv_column(x.1), dv_column(y.1))
}

spec fn vals_match(x: Seq<SxValue>, y: Seq<SxValue>) -> bool {
    x.len() == y.len() && forall|i: int| 0 <= i < x.len() ==> #[trigger] veq(dv(x[i]), dv(y[i]))
}

spec fn fields_match(x: Seq<(String, SxValue)>, y: Seq<(String, SxValue)>) -> bool {
    x.len() == y.len() && forall|i: int| 0 <= i < x.len() ==> #[trigger] field_eq(x[i], y[i])
}

spec fn pairs_match(x: Seq<(SxValue, SxValue)>, y: Seq<(SxValue, SxValue)>) -> bool {
    x.len() == y.len() && forall|i: int| 0 <= i < x.len() ==> #[trigger] pair_eq(x[i], y[i])
}

spec fn columns_match(x: Seq<(String, SxColumn)>, y: Seq<(String, SxColumn)>) -> bool {
    x.len() == y.len() && forall|i: int| 0 <= i < x.len() ==> #[trigger] named_column_eq(x[i], y[i])
}

proof fn lemma_vals_veq(x: Seq<SxValue>, y: Seq<SxValue>)
    ensures
        seq_veq(dv_vals(x), dv_vals(y)) == vals_match(x, y),
{
    lemma_dv_vals(x);
    lemma_dv_vals(y);
    let a = dv_vals(x);
    let b = dv_vals(y);
    lemma_seq_veq(a, b);
    if vals_match(x, y) {
        assert forall|i: int| 0 <= i < a.len() implies #[trigger] veq(a[i], b[i]) by {
            assert(veq(dv(x[i]), dv(y[i])));
        }
    }
    assert forall|i: int| seq_veq(a, b) && 0 <= i < x.len() implies #[trigger] veq(dv(x[i]), dv(y[i])) by {
        assert(veq(a[i], b[i]));
    }
}

proof fn lemma_fields_veq(x: Seq<(String, SxValue)>, y: Seq<(String, SxValue)>)
    ensures
        entries_veq(dv_fields(x), dv_fields(y)) == fields_match(x, y),
{
    lemma_dv_fields(x);
    lemma_dv_fields(y);
    let a = dv_fields(x);
    let b = dv_fields(y);
    lemma_entries_veq(a, b);
    if fields_match(x, y) {
        assert forall|i: int| 0 <= i < a.len() implies #[trigger] entry_eq(a[i], b[i]) by {
            assert(field_eq(x[i], y[i]));
        }
    }
    assert forall|i: int| entries_veq(a, b) && 0 <= i < x.len() implies #[trigger] field_eq(
        x[i],
        y[i],
    ) by {
        assert(entry_eq(a[i], b[i]));
    }
}

proof fn lemma_pairs_veq(x: Seq<(SxValue, SxValue)>, y: Seq<(SxValue, SxValue)>)
    ensures
        pairs_veq(dv_pairs(x), dv_pairs(y)) == pairs_match(x, y),
{
    lemma_dv_pairs(x);
    lemma_dv_pairs(y);
    let a = dv_pairs(x);
    let b = dv_pairs(y);
    lemma_pairs_veq_pointwise(a, b);
    if pairs_match(x, y) {
        assert forall|i: int| 0 <= i < a.len() implies #[trigger] veq(a[i].0, b[i].0) && veq(a[i].1, b[i].1) by {
            assert(pair_eq(x[i], y[i]));
        }
    }
    assert forall|i: int| pairs_veq(a, b) && 0 <= i < x.len() implies #[trigger] pair_eq(
        x[i],
        y[i],
    ) by {
        assert(veq(a[i].0, b[i].0));
    }
}

proof fn lemma_columns_veq(x: Seq<(String, SxColumn)>, y: Seq<(String, SxColumn)>)
    ensures
        columns_veq(dv_columns(x), dv_columns(y)) == columns_match(x, y),
{
    lemma_dv_columns(x);
    lemma_dv_columns(y);
    let a = dv_columns(x);
    let b = dv_columns(y);
    lemma_columns_veq_pointwise(a, b);
    if columns_match(x, y) {
        assert forall|i: int| 0 <= i < a.len() implies #[trigger] named_column_veq(a[i], b[i]) by {
            assert(named_column_eq(x[i], y[i]));
        }
    }
    assert forall|i: int| columns_veq(a, b) && 0 <= i < x.len() implies #[trigger] named_column_eq(
        x[i],
        y[i],
    ) by {
        assert(named_column_veq(a[i], b[i]));
    }
}

fn fields_equal(a: &Vec<(String, SxValue)>, b: &Vec<(String, SxValue)>) -> (r: bool)
    ensures
        r == fields_match(a@, b@),
    decreases a, 1nat,
{
    if a.len() != b.len() {
        assert(a@.len() != b@.len());
        return false;
    }
    let mut i: usize = 0;
    while i < a.len()
        invariant
            i <= a@.len(),
            a@.len() == b@.len(),
            forall|j: int| 0 <= j < i ==> #[trigger] field_eq(a@[j], b@[j]),
        decreases a.len() - i,
    {
        assert(decreases_to!(a => a@[i as int].1));
        if !str_equal(a[i].0.as_str(), b[i].0.as_str()) {
            assert(!field_eq(a@[i as int], b@[i as int]));
            return false;
        }
        if !values_equal(&a[i].1, &b[i].1) {
            assert(!field_eq(a@[i as int], b@[i as int]));
            return false;
        }
        assert(field_eq(a@[i as int], b@[i as int]));
        i += 1;
    }
    true
}

fn pairs_equal(a: &Vec<(SxValue, SxValue)>, b: &Vec<(SxValue, SxValue)>) -> (r: bool)
    ensures
        r == pairs_match(a@, b@),
    decreases a, 1nat,
{
    if a.len() != b.len() {
        assert(a@.len() != b@.len());
        return false;
    }
    let mut i: usize = 0;
    while i < a.len()
        invariant
            i <= a@.len(),
            a@.len() == b@.len(),
            forall|j: int| 0 <= j < i ==> #[trigger] pair_eq(a@[j], b@[j]),
        decreases a.len() - i,
    {
        assert(decreases_to!(a => a@[i as int].0));
        assert(decreases_to!(a => a@[i as int].1));
        if !values_equal(&a[i].0, &b[i].0) {
            assert(!pair_eq(a@[i as int], b@[i as int]));
            return false;
        }
        if !values_equal(&a[i].1, &b[i].1) {
            assert(!pair_eq(a@[i as int], b@[i as int]));
            return false;
        }
        assert(pair_eq(a@[i as int], b@[i as int]));
        i += 1;
    }
    true
}

fn columns_equal(a: &Vec<(String, SxColumn)>, b: &Vec<(String, SxColumn)>) -> (r: bool)
    ensures
        r == columns_match(a@, b@),
    decreases a, 3nat,
{
    if a.len() != b.len() {
        assert(a@.len() != b@.len());
        return false;
    }
    let mut i: usize = 0;
    while i < a.len()
        invariant
            i <= a@.len(),
            a@.len() == b@.len(),
            forall|j: int| 0 <= j < i ==> #[trigger] named_column_eq(a@[j], b@[j]),
        decreases a.len() - i,
    {
        assert(decreases_to!(a => a@[i as int].1));
        if !str_equal(a[i].0.as_str(), b[i].0.as_str()) {
            assert(!named_column_eq(a@[i as int], b@[i as int]));
            return false;
        }
        if !column_equal(&a[i].1, &b[i].1) {
            assert(!named_column_eq(a@[i as int], b@[i as int]));
            return false;
        }
        assert(named_column_eq(a@[i as int], b@[i as int]));
        i += 1;
    }
    true
}

fn column_equal(a: &SxColumn, b: &SxColumn) -> (r: bool)
    ensures
        r == column_eq(dv_column(*a), dv_column(*b)),
    decreases a, 2nat,
{
    match (a, b) {
        (SxColumn::Typed(x), SxColumn::Typed(y)) => typed_arrays_equal(x, y),
        (SxColumn::Values(x), SxColumn::Values(y)) => {
            proof {
                lemma_vals_veq(x@, y@);
            }
            vals_equal(x, y)
        },
        _ => false,
    }
}

fn op_equal(a: &DeltaOp, b: &DeltaOp) -> (r: bool)
    ensures
        r == op_eq(dv_op(*a), dv_op(*b)),
    decreases a, 2nat,
{
    if a.kind != b.kind || a.index != b.index {
        return false;
    }
    if !paths_equal(&a.path, &b.path) || !opt_paths_equal(&a.from, &b.from) {
        return false;
    }
    match (&a.value, &b.value) {
        (Some(x), Some(y)) => values_equal(x, y),
        (None, None) => true,
        _ => false,
    }
}

spec fn ops_match(x: Seq<DeltaOp>, y: Seq<DeltaOp>) -> bool {
    x.len() == y.len() && forall|i: int| 0 <= i < x.len() ==> #[trigger] op_eq(dv_op(x[i]), dv_op(y[i]))
}

proof fn lemma_ops_bridge(x: Seq<DeltaOp>, y: Seq<DeltaOp>)
    ensures
        ops_veq(dv_ops(x), dv_ops(y)) == ops_match(x, y),
{
    lemma_dv_ops(x);
    lemma_dv_ops(y);
    let a = dv_ops(x);
    let b = dv_ops(y);
    lemma_ops_veq(a, b);
    if ops_match(x, y) {
        assert forall|i: int| 0 <= i < a.len() implies #[trigger] op_eq(a[i], b[i]) by {
            assert(op_eq(dv_op(x[i]), dv_op(y[i])));
        }
    }
    assert forall|i: int| ops_veq(a, b) && 0 <= i < x.len() implies #[trigger] op_eq(dv_op(x[i]), dv_op(y[i])) by {
        assert(op_eq(a[i], b[i]));
    }
}

fn ops_equal(a: &Vec<DeltaOp>, b: &Vec<DeltaOp>) -> (r: bool)
    ensures
        r == ops_match(a@, b@),
    decreases a, 3nat,
{
    if a.len() != b.len() {
        assert(a@.len() != b@.len());
        return false;
    }
    let mut i: usize = 0;
    while i < a.len()
        invariant
            i <= a@.len(),
            a@.len() == b@.len(),
            forall|j: int| 0 <= j < i ==> #[trigger] op_eq(dv_op(a@[j]), dv_op(b@[j])),
        decreases a.len() - i,
    {
        assert(decreases_to!(a => a@[i as int]));
        if !op_equal(&a[i], &b[i]) {
            assert(!op_eq(dv_op(a@[i as int]), dv_op(b@[i as int])));
            return false;
        }
        i += 1;
    }
    true
}

fn messages_equal(a: &MessageEnvelope, b: &MessageEnvelope) -> (r: bool)
    ensures
        r == veq(dv(SxValue::Message(*a)), dv(SxValue::Message(*b))),
    decreases a, 4nat,
{
    proof {
        lemma_fields_veq(a.fields@, b.fields@);
    }
    if a.sx_version != b.sx_version {
        return false;
    }
    if !opt_strings_equal(&a.message_id, &b.message_id) || !opt_strings_equal(&a.message_type, &b.message_type)
        || !opt_strings_equal(&a.schema, &b.schema) || !opt_strings_equal(&a.timestamp, &b.timestamp) {
        return false;
    }
    if !opt_bytes_equal(&a.logical_hash, &b.logical_hash) {
        return false;
    }
    assert(decreases_to!(a => a.fields));
    if !fields_equal(&a.fields, &b.fields) {
        return false;
    }
    match (&a.payload, &b.payload) {
        (Some(x), Some(y)) => {
            assert(decreases_to!(a => a.payload));
            values_equal(x, y)
        },
        (None, None) => true,
        _ => false,
    }
}

/// Logical equality of two values, as `veq` states it.
pub fn values_equal(a: &SxValue, b: &SxValue) -> (r: bool)
    ensures
        r == veq(dv(*a), dv(*b)),
    decreases a, 0nat,
{
    match (a, b) {
        (SxValue::Null, SxValue::Null) => true,
        (SxValue::Bool(x), SxValue::Bool(y)) => *x == *y,
        (SxValue::U8(x), SxValue::U8(y)) => *x == *y,
        (SxValue::U16(x), SxValue::U16(y)) => *x == *y,
        (SxValue::U32(x), SxValue::U32(y)) => *x == *y,
        (SxValue::U64(x), SxValue::U64(y)) => *x == *y,
        (SxValue::I8(x), SxValue::I8(y)) => *x == *y,
        (SxValue::I16(x), SxValue::I16(y)) => *x == *y,
        (SxValue::I32(x), SxValue::I32(y)) => *x == *y,
        (SxValue::I64(x), SxValue::I64(y)) => *x == *y,
        (SxValue::F32(x), SxValue::F32(y)) => f32_bits_equal(*x, *y),
        (SxValue::F64(x), SxValue::F64(y)) => f64_bits_equal(*x, *y),
        (SxValue::Decimal(x), SxValue::Decimal(y)) => x.scaled == y.scaled && x.scale == y.scale,
        (SxValue::Money(x), SxValue::Money(y)) => str_equal(x.currency.as_str(), y.currency.as_str())
            && x.scaled == y.scaled && x.scale == y.scale,
        (SxValue::String(x), SxValue::String(y)) => str_equal(x.as_str(), y.as_str()),
        (SxValue::Bytes(x), SxValue::Bytes(y)) => bytes_equal(x.as_slice(), y.as_slice()),
        (SxValue::Array(x), SxValue::Array(y)) => {
            proof {
                lemma_vals_veq(x@, y@);
            }
            vals_equal(x, y)
        },
        (SxValue::Object(x), SxValue::Object(y)) => {
            proof {
                lemma_fields_veq(x@, y@);
            }
            fields_equal(x, y)
        },
        (SxValue::MapEntries(x), SxValue::MapEntries(y)) => {
            proof {
                lemma_pairs_veq(x@, y@);
            }
            pairs_equal(x, y)
        },
        (SxValue::Enum(x), SxValue::Enum(y)) => str_equal(x.as_str(), y.as_str()),
        (SxValue::Uuid(x), SxValue::Uuid(y)) => bytes_equal(x.as_slice(), y.as_slice()),
        (SxValue::Timestamp(x), SxValue::Timestamp(y)) => str_equal(x.as_str(), y.as_str()),
        (SxValue::Date(x), SxValue::Date(y)) => str_equal(x.as_str(), y.as_str()),
        (SxValue::Duration(x), SxValue::Duration(y)) => str_equal(x.as_str(), y.as_str()),
        (SxValue::Url(x), SxValue::Url(y)) => str_equal(x.as_str(), y.as_str()),
        (SxValue::Email(x), SxValue::Email(y)) => str_equal(x.as_str(), y.as_str()),
        (SxValue::TypedArray(x), SxValue::TypedArray(y)) => typed_arrays_equal(x, y),
        (SxValue::Table(x), SxValue::Table(y)) => {
            proof {
                lemma_columns_veq(x.columns@, y.columns@);
            }
            columns_equal(&x.columns, &y.columns)
        },
        (SxValue::Tensor(x), SxValue::Tensor(y)) => usizes_equal(&x.shape, &y.shape) && typed_arrays_equal(
            &x.data,
            &y.data,
        ) && opt_strings_equal(&x.layout, &y.layout),
        (SxValue::Reference(x), SxValue::Reference(y)) => str_equal(x.target.as_str(), y.target.as_str()),
        (SxValue::BlobRef(x), SxValue::BlobRef(y)) => str_equal(x.uri.as_str(), y.uri.as_str())
            && opt_strings_equal(&x.media_type, &y.media_type) && x.size == y.size && opt_bytes_equal(
            &x.hash,
            &y.hash,
        ),
        (SxValue::Delta(x), SxValue::Delta(y)) => {
            proof {
                lemma_ops_bridge(x.ops@, y.ops@);
            }
            opt_strings_equal(&x.from_hash, &y.from_hash) && ops_equal(&x.ops, &y.ops)
        },
        (SxValue::Message(x), SxValue::Message(y)) => messages_equal(x, y),
        _ => false,
    }
}

} // verus!
