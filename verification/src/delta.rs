//! Delta documents: applying operations to a value, and computing the
//! operations that turn one value into another.
use crate::copy::copy_value;
use crate::equality::{values_equal, veq};
use crate::error::{SxError, SxErrorCode};
use crate::fields::{find_key, insert_entry, insert_field, lemma_dv_fields, lemma_dv_vals, lookup, remove_entry};
use crate::chars::u64_to_decimal;
use crate::fields::lemma_insert_at;
use crate::keys::{key_lt, lemma_key_lt_irreflexive, sorted_keys};
use crate::path::{Seg, SxPath, SxPathSegment};
use crate::value_ops::{lemma_lookup_first, lemma_lookup_none};
use crate::error::SxResult;
use crate::value::{dv, dv_fields, dv_op, dv_ops, dv_vals, DeltaDocument, DeltaOp, DeltaOpKind, SxValue, V, VOp};
use crate::value_ops::lemma_dv_ops;
use vstd::prelude::*;

verus! {

// ---------------------------------------------------------------------------
// Shape invariant
// ---------------------------------------------------------------------------

/// Every object reachable through object and array nesting keeps its keys in
/// strictly ascending order, as a key-ordered map does.
pub open spec fn sorted_objects(v: V) -> bool
    decreases v,
{
    match v {
        V::Array(xs) => all_sorted_objects(xs),
        V::Object(fs) => sorted_keys(fs) && entries_sorted_objects(fs),
        _ => true,
    }
}

pub open spec fn all_sorted_objects(xs: Seq<V>) -> bool
    decreases xs,
{
    if xs.len() == 0 {
        true
    } else {
        all_sorted_objects(xs.drop_last()) && sorted_objects(xs.last())
    }
}

pub open spec fn entries_sorted_objects(fs: Seq<(Seq<char>, V)>) -> bool
    decreases fs,
{
    if fs.len() == 0 {
        true
    } else {
        entries_sorted_objects(fs.drop_last()) && sorted_objects(fs.last().1)
    }
}

pub proof fn lemma_all_sorted_objects(xs: Seq<V>)
    ensures
        all_sorted_objects(xs) == forall|i: int| 0 <= i < xs.len() ==> #[trigger] sorted_objects(xs[i]),
    decreases xs.len(),
{
    if xs.len() > 0 {
        lemma_all_sorted_objects(xs.drop_last());
        assert forall|i: int| 0 <= i < xs.len() - 1 implies xs.drop_last()[i] == xs[i] by {}
        if forall|i: int| 0 <= i < xs.len() ==> #[trigger] sorted_objects(xs[i]) {
            assert forall|i: int| 0 <= i < xs.len() - 1 implies #[trigger] sorted_objects(xs.drop_last()[i]) by {
                assert(sorted_objects(xs[i]));
            }
            assert(sorted_objects(xs[xs.len() - 1]));
        }
        if all_sorted_objects(xs) {
            assert forall|i: int| 0 <= i < xs.len() implies #[trigger] sorted_objects(xs[i]) by {
                if i < xs.len() - 1 {
                    assert(sorted_objects(xs.drop_last()[i]));
                }
            }
        }
    }
}

pub proof fn lemma_entries_sorted_objects(fs: Seq<(Seq<char>, V)>)
    ensures
        entries_sorted_objects(fs) == forall|i: int| 0 <= i < fs.len() ==> #[trigger] sorted_objects(fs[i].1),
    decreases fs.len(),
{
    if fs.len() > 0 {
        lemma_entries_sorted_objects(fs.drop_last());
        assert forall|i: int| 0 <= i < fs.len() - 1 implies fs.drop_last()[i] == fs[i] by {}
        if forall|i: int| 0 <= i < fs.len() ==> #[trigger] sorted_objects(fs[i].1) {
            assert forall|i: int| 0 <= i < fs.len() - 1 implies #[trigger] sorted_objects(fs.drop_last()[i].1) by {
                assert(sorted_objects(fs[i].1));
            }
            assert(sorted_objects(fs[fs.len() - 1].1));
        }
        if entries_sorted_objects(fs) {
            assert forall|i: int| 0 <= i < fs.len() implies #[trigger] sorted_objects(fs[i].1) by {
                if i < fs.len() - 1 {
                    assert(sorted_objects(fs.drop_last()[i].1));
                }
            }
        }
    }
}

// ---------------------------------------------------------------------------
// Semantics of operations
// ---------------------------------------------------------------------------

/// Why applying an operation failed: an error the library reports, or an
/// `i64` increment or decrement that leaves the range of `i64`.
pub enum Fault {
    Error(SxErrorCode),
    Overflow,
}

/// What an operation does at the value its path designates.
pub enum Act {
    SetChild(Seg, V),
    RemoveChild(Seg),
    Append(V),
    Prepend(V),
    InsertAt(usize, V),
    Add(bool, i64),
    Merge(V),
    Clear,
}

/// The entries of `dst` after inserting those of `src`, in order.
pub open spec fn merge_entries(dst: Seq<(Seq<char>, V)>, src: Seq<(Seq<char>, V)>) -> Seq<(Seq<char>, V)>
    decreases src.len(),
{
    if src.len() == 0 {
        dst
    } else {
        insert_entry(merge_entries(dst, src.drop_last()), src.last().0, src.last().1)
    }
}

/// `n + d` when it stays in `i64`.
pub open spec fn add_i64(n: i64, d: int) -> Result<V, Fault> {
    if i64::MIN <= n + d <= i64::MAX {
        Ok(V::I64((n + d) as i64))
    } else {
        Err(Fault::Overflow)
    }
}

/// The effect of an action on the value it targets.
pub open spec fn act_on(t: V, a: Act) -> Result<V, Fault> {
    match a {
        Act::SetChild(seg, x) => match (t, seg) {
            (V::Object(fs), Seg::Key(k)) => Ok(V::Object(insert_entry(fs, k, x))),
            (V::Array(xs), Seg::Index(i)) => if i < xs.len() {
                Ok(V::Array(xs.update(i as int, x)))
            } else if i == xs.len() {
                Ok(V::Array(xs.push(x)))
            } else {
                Err(Fault::Error(SxErrorCode::InvalidPath))
            },
            _ => Err(Fault::Error(SxErrorCode::InvalidPath)),
        },
        Act::RemoveChild(seg) => match (t, seg) {
            (V::Object(fs), Seg::Key(k)) => Ok(V::Object(remove_entry(fs, k))),
            (V::Array(xs), Seg::Index(i)) => if i < xs.len() {
                Ok(V::Array(xs.remove(i as int)))
            } else {
                Err(Fault::Error(SxErrorCode::InvalidPath))
            },
            _ => Err(Fault::Error(SxErrorCode::InvalidPath)),
        },
        Act::Append(x) => match t {
            V::Array(xs) => Ok(V::Array(xs.push(x))),
            _ => Err(Fault::Error(SxErrorCode::TypeMismatch)),
        },
        Act::Prepend(x) => match t {
            V::Array(xs) => Ok(V::Array(xs.insert(0, x))),
            _ => Err(Fault::Error(SxErrorCode::TypeMismatch)),
        },
        Act::InsertAt(i, x) => match t {
            V::Array(xs) => if i > xs.len() {
                Err(Fault::Error(SxErrorCode::InvalidPath))
            } else {
                Ok(V::Array(xs.insert(i as int, x)))
            },
            _ => Err(Fault::Error(SxErrorCode::TypeMismatch)),
        },
        Act::Add(up, by) => match t {
            V::I64(n) => if up {
                add_i64(n, by as int)
            } else if by == i64::MIN {
                Err(Fault::Overflow)
            } else {
                add_i64(n, -by)
            },
            V::U64(n) => {
                let next: int = if up {
                    n + by
                } else {
                    n - by
                };
                if next < 0 {
                    Err(Fault::Error(SxErrorCode::ValidationError))
                } else {
                    Ok(V::U64(next as u64))
                }
            },
            _ => Err(Fault::Error(SxErrorCode::TypeMismatch)),
        },
        Act::Merge(x) => match (t, x) {
            (V::Object(dst), V::Object(src)) => Ok(V::Object(merge_entries(dst, src))),
            _ => Err(Fault::Error(SxErrorCode::TypeMismatch)),
        },
        Act::Clear => match t {
            V::Array(_) => Ok(V::Array(Seq::empty())),
            V::Object(_) => Ok(V::Object(Seq::empty())),
            V::Bytes(_) => Ok(V::Bytes(Seq::empty())),
            V::String(_) => Ok(V::String(Seq::empty())),
            _ => Err(Fault::Error(SxErrorCode::TypeMismatch)),
        },
    }
}

/// Applies `a` at the value that `p[d..e]` designates under `v`, rebuilding
/// the containers on the way.
pub open spec fn modify(v: V, p: Seq<Seg>, d: int, e: int, a: Act) -> Result<V, Fault>
    decreases e - d,
{
    if d >= e {
        act_on(v, a)
    } else {
        match (v, p[d]) {
            (V::Object(fs), Seg::Key(k)) => match lookup(fs, k) {
                Some(c) => match modify(c, p, d + 1, e, a) {
                    Ok(c2) => Ok(V::Object(insert_entry(fs, k, c2))),
                    Err(f) => Err(f),
                },
                None => Err(Fault::Error(SxErrorCode::InvalidPath)),
            },
            (V::Array(xs), Seg::Index(i)) => if i < xs.len() {
                match modify(xs[i as int], p, d + 1, e, a) {
                    Ok(c2) => Ok(V::Array(xs.update(i as int, c2))),
                    Err(f) => Err(f),
                }
            } else {
                Err(Fault::Error(SxErrorCode::InvalidPath))
            },
            _ => Err(Fault::Error(SxErrorCode::InvalidPath)),
        }
    }
}

/// The value that `p[d..]` designates under `v`.
pub open spec fn value_at(v: V, p: Seq<Seg>, d: int) -> Result<V, SxErrorCode>
    decreases p.len() - d,
{
    if d >= p.len() {
        Ok(v)
    } else {
        match (v, p[d]) {
            (V::Object(fs), Seg::Key(k)) => match lookup(fs, k) {
                Some(c) => value_at(c, p, d + 1),
                None => Err(SxErrorCode::InvalidPath),
            },
            (V::Array(xs), Seg::Index(i)) => if i < xs.len() {
                value_at(xs[i as int], p, d + 1)
            } else {
                Err(SxErrorCode::InvalidPath)
            },
            _ => Err(SxErrorCode::InvalidPath),
        }
    }
}

/// Setting the value at a path: the root itself for the empty path, else
/// the last segment under its parent.
pub open spec fn set_at(v: V, p: Seq<Seg>, x: V) -> Result<V, Fault> {
    if p.len() == 0 {
        Ok(x)
    } else {
        modify(v, p, 0, p.len() - 1, Act::SetChild(p.last(), x))
    }
}

/// Removing the value at a path: the root becomes `Null` for the empty path.
pub open spec fn remove_at(v: V, p: Seq<Seg>) -> Result<V, Fault> {
    if p.len() == 0 {
        Ok(V::Null)
    } else {
        modify(v, p, 0, p.len() - 1, Act::RemoveChild(p.last()))
    }
}

/// The amount an increment or decrement carries: an `i64`, or a `u64` that
/// fits in `i64`.
pub open spec fn step_amount(x: Option<V>) -> Option<i64> {
    match x {
        Some(V::I64(n)) => Some(n),
        Some(V::U64(n)) => if n <= i64::MAX {
            Some(n as i64)
        } else {
            None
        },
        _ => None,
    }
}

pub open spec fn missing_value() -> Result<V, Fault> {
    Err(Fault::Error(SxErrorCode::ValidationError))
}

/// The effect of one delta operation.
pub open spec fn op_outcome(v: V, op: VOp) -> Result<V, Fault> {
    match op.kind {
        DeltaOpKind::SetAt | DeltaOpKind::Replace => match op.value {
            Some(x) => set_at(v, op.path, x),
            None => missing_value(),
        },
        DeltaOpKind::Remove => remove_at(v, op.path),
        DeltaOpKind::Append => match op.value {
            Some(x) => modify(v, op.path, 0, op.path.len() as int, Act::Append(x)),
            None => missing_value(),
        },
        DeltaOpKind::Prepend => match op.value {
            Some(x) => modify(v, op.path, 0, op.path.len() as int, Act::Prepend(x)),
            None => missing_value(),
        },
        DeltaOpKind::Insert => match op.value {
            Some(x) => match op.index {
                Some(i) => modify(v, op.path, 0, op.path.len() as int, Act::InsertAt(i, x)),
                None => missing_value(),
            },
            None => missing_value(),
        },
        DeltaOpKind::Increment | DeltaOpKind::Decrement => match step_amount(op.value) {
            Some(by) => modify(
                v,
                op.path,
                0,
                op.path.len() as int,
                Act::Add(op.kind == DeltaOpKind::Increment, by),
            ),
            None => Err(Fault::Error(SxErrorCode::TypeMismatch)),
        },
        DeltaOpKind::Merge => match op.value {
            Some(x) => modify(v, op.path, 0, op.path.len() as int, Act::Merge(x)),
            None => missing_value(),
        },
        DeltaOpKind::Move => match op.from {
            Some(f) => match value_at(v, f, 0) {
                Ok(x) => match remove_at(v, f) {
                    Ok(w) => set_at(w, op.path, x),
                    Err(e) => Err(e),
                },
                Err(c) => Err(Fault::Error(c)),
            },
            None => missing_value(),
        },
        DeltaOpKind::Copy => match op.from {
            Some(f) => match value_at(v, f, 0) {
                Ok(x) => set_at(v, op.path, x),
                Err(c) => Err(Fault::Error(c)),
            },
            None => missing_value(),
        },
        DeltaOpKind::Clear => modify(v, op.path, 0, op.path.len() as int, Act::Clear),
    }
}

/// The effect of a sequence of operations, applied in order; the first
/// failure stops it.
pub open spec fn ops_outcome(v: V, ops: Seq<VOp>) -> Result<V, Fault>
    decreases ops.len(),
{
    if ops.len() == 0 {
        Ok(v)
    } else {
        match ops_outcome(v, ops.drop_last()) {
            Ok(w) => op_outcome(w, ops.last()),
            Err(f) => Err(f),
        }
    }
}

/// The values an operation carries keep their objects sorted.
pub open spec fn op_values_sorted(op: VOp) -> bool {
    match op.value {
        Some(x) => sorted_objects(x),
        None => true,
    }
}

pub open spec fn ops_values_sorted(ops: Seq<VOp>) -> bool {
    forall|i: int| 0 <= i < ops.len() ==> #[trigger] op_values_sorted(ops[i])
}

// ---------------------------------------------------------------------------
// Facts about keyed entries
// ---------------------------------------------------------------------------

/// Every entry of `insert_entry(s, k, x)` is `(k, x)` or an entry of `s`.
pub proof fn lemma_insert_entry_members<T>(s: Seq<(Seq<char>, T)>, k: Seq<char>, x: T)
    ensures
        forall|i: int|
            0 <= i < insert_entry(s, k, x).len() ==> #[trigger] insert_entry(s, k, x)[i] == (k, x) || s.contains(
                insert_entry(s, k, x)[i],
            ),
    decreases s.len(),
{
    let r = insert_entry(s, k, x);
    if s.len() == 0 {
    } else if s[0].0 == k {
        assert forall|i: int| 0 <= i < r.len() implies #[trigger] r[i] == (k, x) || s.contains(r[i]) by {
            if i != 0 {
                assert(r[i] == s[i]);
            }
        }
    } else if key_lt(k, s[0].0) {
        assert forall|i: int| 0 <= i < r.len() implies #[trigger] r[i] == (k, x) || s.contains(r[i]) by {
            if i != 0 {
                assert(r[i] == s[i - 1]);
            }
        }
    } else {
        let t = s.drop_first();
        lemma_insert_entry_members(t, k, x);
        assert forall|i: int| 0 <= i < r.len() implies #[trigger] r[i] == (k, x) || s.contains(r[i]) by {
            if i == 0 {
                assert(r[0] == s[0]);
            } else {
                assert(r[i] == insert_entry(t, k, x)[i - 1]);
                if t.contains(r[i]) {
                    let j = choose|j: int| 0 <= j < t.len() && t[j] == r[i];
                    assert(s[j + 1] == r[i]);
                }
            }
        }
    }
}

/// Removing the first entry with key `k` at its position `j`.
pub proof fn lemma_remove_entry_at<T>(s: Seq<(Seq<char>, T)>, k: Seq<char>, j: int)
    requires
        0 <= j < s.len(),
        s[j].0 == k,
        forall|m: int| 0 <= m < j ==> (#[trigger] s[m]).0 != k,
    ensures
        remove_entry(s, k) == s.remove(j),
    decreases j,
{
    if j > 0 {
        let t = s.drop_first();
        assert forall|m: int| 0 <= m < j - 1 implies (#[trigger] t[m]).0 != k by {
            assert(t[m] == s[m + 1]);
        }
        lemma_remove_entry_at(t, k, j - 1);
        assert(seq![s[0]] + t.remove(j - 1) =~= s.remove(j));
    }
}

/// Removing a key that no entry has leaves the entries as they are.
pub proof fn lemma_remove_entry_none<T>(s: Seq<(Seq<char>, T)>, k: Seq<char>)
    requires
        forall|m: int| 0 <= m < s.len() ==> (#[trigger] s[m]).0 != k,
    ensures
        remove_entry(s, k) == s,
    decreases s.len(),
{
    if s.len() > 0 {
        let t = s.drop_first();
        assert forall|m: int| 0 <= m < t.len() implies (#[trigger] t[m]).0 != k by {
            assert(t[m] == s[m + 1]);
        }
        lemma_remove_entry_none(t, k);
        assert(seq![s[0]] + t =~= s);
    }
}

/// Inserting a sorted value keeps every object of the entries sorted.
pub proof fn lemma_insert_keeps_sorted(s: Seq<(Seq<char>, V)>, k: Seq<char>, x: V)
    requires
        entries_sorted_objects(s),
        sorted_objects(x),
    ensures
        entries_sorted_objects(insert_entry(s, k, x)),
{
    let r = insert_entry(s, k, x);
    lemma_insert_entry_members(s, k, x);
    lemma_entries_sorted_objects(s);
    lemma_entries_sorted_objects(r);
    assert forall|i: int| 0 <= i < r.len() implies #[trigger] sorted_objects(r[i].1) by {
        if r[i] != (k, x) {
            assert(s.contains(r[i]));
            let j = choose|j: int| 0 <= j < s.len() && s[j] == r[i];
            assert(sorted_objects(s[j].1));
        }
    }
}

// ---------------------------------------------------------------------------
// Executable application
// ---------------------------------------------------------------------------

/// What an operation does at its target, with the values it carries.
pub enum Action {
    SetChild(SxPathSegment, SxValue),
    RemoveChild(SxPathSegment),
    Append(SxValue),
    Prepend(SxValue),
    InsertAt(usize, SxValue),
    Add(bool, i64),
    Merge(SxValue),
    Clear,
}

impl Action {
    pub open spec fn view_act(&self) -> Act {
        match self {
            Action::SetChild(s, x) => Act::SetChild(s.view_seg(), dv(*x)),
            Action::RemoveChild(s) => Act::RemoveChild(s.view_seg()),
            Action::Append(x) => Act::Append(dv(*x)),
            Action::Prepend(x) => Act::Prepend(dv(*x)),
            Action::InsertAt(i, x) => Act::InsertAt(*i, dv(*x)),
            Action::Add(up, by) => Act::Add(*up, *by),
            Action::Merge(x) => Act::Merge(dv(*x)),
            Action::Clear => Act::Clear,
        }
    }

    /// The values the action carries keep their objects sorted.
    pub open spec fn carries_sorted(&self) -> bool {
        match self {
            Action::SetChild(_, x) => sorted_objects(dv(*x)),
            Action::Append(x) => sorted_objects(dv(*x)),
            Action::Prepend(x) => sorted_objects(dv(*x)),
            Action::InsertAt(_, x) => sorted_objects(dv(*x)),
            Action::Merge(x) => sorted_objects(dv(*x)),
            _ => true,
        }
    }
}

/// Why applying an operation failed, as the library reports it.
pub enum DeltaFailure {
    Error(SxError),
    Overflow,
}

/// The executable result agrees with the spec outcome.
pub open spec fn agrees(r: Result<SxValue, DeltaFailure>, s: Result<V, Fault>) -> bool {
    match (r, s) {
        (Ok(w), Ok(x)) => dv(w) == x,
        (Err(DeltaFailure::Error(e)), Err(Fault::Error(c))) => e.code == c,
        (Err(DeltaFailure::Overflow), Err(Fault::Overflow)) => true,
        _ => false,
    }
}

pub open spec fn keeps_sorted(r: Result<SxValue, DeltaFailure>) -> bool {
    r matches Ok(w) ==> sorted_objects(dv(w))
}

fn fail(code: SxErrorCode, message: &str) -> (r: Result<SxValue, DeltaFailure>)
    ensures
        r matches Err(DeltaFailure::Error(e)) && e.code == code,
{
    Err(DeltaFailure::Error(SxError::msg(code, message)))
}

/// Sets or appends element `i` of an array.
fn set_child_index(mut xs: Vec<SxValue>, i: usize, x: SxValue) -> (r: Result<SxValue, DeltaFailure>)
    requires
        all_sorted_objects(dv_vals(xs@)),
        sorted_objects(dv(x)),
    ensures
        agrees(r, act_on(V::Array(dv_vals(xs@)), Act::SetChild(Seg::Index(i), dv(x)))),
        keeps_sorted(r),
{
    let ghost old_xs = xs@;
    proof {
        lemma_dv_vals(old_xs);
        lemma_all_sorted_objects(dv_vals(old_xs));
    }
    if i < xs.len() {
        xs.set(i, x);
        proof {
            lemma_dv_vals(xs@);
            assert(dv_vals(xs@) =~= dv_vals(old_xs).update(i as int, dv(x)));
            lemma_all_sorted_objects(dv_vals(xs@));
        }
        Ok(SxValue::Array(xs))
    } else if i == xs.len() {
        xs.push(x);
        proof {
            lemma_dv_vals(xs@);
            assert(dv_vals(xs@) =~= dv_vals(old_xs).push(dv(x)));
            lemma_all_sorted_objects(dv_vals(xs@));
        }
        Ok(SxValue::Array(xs))
    } else {
        fail(SxErrorCode::InvalidPath, "array set index out of range")
    }
}

/// Applies an action to the value it targets.
fn apply_action(t: SxValue, a: Action) -> (r: Result<SxValue, DeltaFailure>)
    requires
        sorted_objects(dv(t)),
        a.carries_sorted(),
    ensures
        agrees(r, act_on(dv(t), a.view_act())),
        keeps_sorted(r),
{
    match a {
        Action::SetChild(seg, x) => match (t, seg) {
            (SxValue::Object(mut fs), SxPathSegment::Key(k)) => {
                proof {
                    lemma_dv_fields(fs@);
                }
                let ghost old_fs = dv_fields(fs@);
                let ghost kv = k@;
                insert_field(&mut fs, k, x);
                proof {
                    lemma_insert_keeps_sorted(old_fs, kv, dv(x));
                }
                Ok(SxValue::Object(fs))
            },
            (SxValue::Array(xs), SxPathSegment::Index(i)) => set_child_index(xs, i, x),
            _ => fail(SxErrorCode::InvalidPath, "cannot set path on non-container"),
        },
        Action::RemoveChild(seg) => match (t, seg) {
            (SxValue::Object(fs), SxPathSegment::Key(k)) => remove_key(fs, k),
            (SxValue::Array(mut xs), SxPathSegment::Index(i)) => {
                proof {
                    lemma_dv_vals(xs@);
                }
                if i < xs.len() {
                    let ghost old_xs = xs@;
                    xs.remove(i);
                    proof {
                        lemma_dv_vals(old_xs);
                        lemma_dv_vals(xs@);
                        assert(dv_vals(xs@) =~= dv_vals(old_xs).remove(i as int));
                        lemma_all_sorted_objects(dv_vals(old_xs));
                        lemma_all_sorted_objects(dv_vals(xs@));
                    }
                    Ok(SxValue::Array(xs))
                } else {
                    fail(SxErrorCode::InvalidPath, "array remove index out of range")
                }
            },
            _ => fail(SxErrorCode::InvalidPath, "cannot remove path on non-container"),
        },
        Action::Append(x) => match t {
            SxValue::Array(xs) => {
                let n = xs.len();
                proof {
                    lemma_dv_vals(xs@);
                }
                set_child_index(xs, n, x)
            },
            _ => fail(SxErrorCode::TypeMismatch, "append target must be array"),
        },
        Action::Prepend(x) => match t {
            SxValue::Array(xs) => {
                proof {
                    lemma_dv_vals(xs@);
                }
                insert_item(xs, 0, x)
            },
            _ => fail(SxErrorCode::TypeMismatch, "prepend target must be array"),
        },
        Action::InsertAt(i, x) => match t {
            SxValue::Array(xs) => {
                proof {
                    lemma_dv_vals(xs@);
                }
                if i > xs.len() {
                    fail(SxErrorCode::InvalidPath, "insert index out of range")
                } else {
                    insert_item(xs, i, x)
                }
            },
            _ => fail(SxErrorCode::TypeMismatch, "insert target must be array"),
        },
        Action::Add(up, by) => match t {
            SxValue::I64(n) => {
                if !up && by == i64::MIN {
                    return Err(DeltaFailure::Overflow);
                }
                let d: i128 = if up {
                    by as i128
                } else {
                    -(by as i128)
                };
                let next: i128 = n as i128 + d;
                if next < i64::MIN as i128 || next > i64::MAX as i128 {
                    Err(DeltaFailure::Overflow)
                } else {
                    Ok(SxValue::I64(next as i64))
                }
            },
            SxValue::U64(n) => {
                let d: i128 = if up {
                    by as i128
                } else {
                    -(by as i128)
                };
                let next: i128 = n as i128 + d;
                if next < 0 {
                    fail(SxErrorCode::ValidationError, "u64 underflow in delta op")
                } else {
                    Ok(SxValue::U64(next as u64))
                }
            },
            _ => fail(SxErrorCode::TypeMismatch, "increment/decrement target must be integer"),
        },
        Action::Merge(x) => match (t, x) {
            (SxValue::Object(dst), SxValue::Object(src)) => merge_fields(dst, src),
            _ => fail(SxErrorCode::TypeMismatch, "merge requires object target and value"),
        },
        Action::Clear => match t {
            SxValue::Array(_) => {
                let e: Vec<SxValue> = Vec::new();
                assert(dv_vals(e@) =~= Seq::<V>::empty());
                Ok(SxValue::Array(e))
            },
            SxValue::Object(_) => {
                let e: Vec<(String, SxValue)> = Vec::new();
                assert(dv_fields(e@) =~= Seq::<(Seq<char>, V)>::empty());
                Ok(SxValue::Object(e))
            },
            SxValue::Bytes(_) => {
                let e: Vec<u8> = Vec::new();
                assert(e@ =~= Seq::<u8>::empty());
                Ok(SxValue::Bytes(e))
            },
            SxValue::String(_) => {
                let e = String::new();
                assert(e@ =~= Seq::<char>::empty());
                Ok(SxValue::String(e))
            },
            _ => fail(SxErrorCode::TypeMismatch, "clear supports array/object/bytes/string"),
        },
    }
}

/// Inserts `x` at position `i` of an array.
fn insert_item(mut xs: Vec<SxValue>, i: usize, x: SxValue) -> (r: Result<SxValue, DeltaFailure>)
    requires
        i <= xs@.len(),
        all_sorted_objects(dv_vals(xs@)),
        sorted_objects(dv(x)),
    ensures
        r matches Ok(w) && dv(w) == V::Array(dv_vals(xs@).insert(i as int, dv(x))),
        keeps_sorted(r),
{
    let ghost old_xs = xs@;
    xs.insert(i, x);
    proof {
        lemma_dv_vals(old_xs);
        lemma_dv_vals(xs@);
        assert(dv_vals(xs@) =~= dv_vals(old_xs).insert(i as int, dv(x)));
        lemma_all_sorted_objects(dv_vals(old_xs));
        lemma_all_sorted_objects(dv_vals(xs@));
    }
    Ok(SxValue::Array(xs))
}

/// Removes the entry for `k` from an object, if it has one.
#[verifier::spinoff_prover]
fn remove_key(mut fs: Vec<(String, SxValue)>, k: String) -> (r: Result<SxValue, DeltaFailure>)
    requires
        sorted_keys(dv_fields(fs@)),
        entries_sorted_objects(dv_fields(fs@)),
    ensures
        r matches Ok(w) && dv(w) == V::Object(remove_entry(dv_fields(fs@), k@)),
        keeps_sorted(r),
{
    let ghost old_fs = fs@;
    let ghost s = dv_fields(old_fs);
    proof {
        lemma_dv_fields(old_fs);
        lemma_entries_sorted_objects(s);
    }
    match find_key(&fs, k.as_str()) {
        Some(j) => {
            proof {
                assert forall|m: int| 0 <= m < j implies (#[trigger] s[m]).0 != k@ by {
                    assert(s[m].0 == old_fs[m].0@);
                }
                lemma_remove_entry_at(s, k@, j as int);
            }
            fs.remove(j);
            proof {
                lemma_dv_fields(fs@);
                assert(dv_fields(fs@) =~= s.remove(j as int));
                lemma_entries_sorted_objects(dv_fields(fs@));
                let t = dv_fields(fs@);
                assert forall|a: int, b: int| 0 <= a < b < t.len() implies key_lt(#[trigger] t[a].0, #[trigger] t[b].0) by {
                    if a >= j {
                        assert(t[a] == s[a + 1] && t[b] == s[b + 1]);
                    } else if b >= j {
                        assert(t[a] == s[a] && t[b] == s[b + 1]);
                    } else {
                        assert(t[a] == s[a] && t[b] == s[b]);
                    }
                }
            }
            Ok(SxValue::Object(fs))
        },
        None => {
            proof {
                assert forall|m: int| 0 <= m < s.len() implies (#[trigger] s[m]).0 != k@ by {
                    assert(s[m].0 == old_fs[m].0@);
                }
                lemma_remove_entry_none(s, k@);
            }
            Ok(SxValue::Object(fs))
        },
    }
}

/// Inserts the entries of `src`, in order, into `dst`.
fn merge_fields(mut dst: Vec<(String, SxValue)>, src: Vec<(String, SxValue)>) -> (r: Result<SxValue, DeltaFailure>)
    requires
        sorted_keys(dv_fields(dst@)),
        entries_sorted_objects(dv_fields(dst@)),
        entries_sorted_objects(dv_fields(src@)),
    ensures
        r matches Ok(w) && dv(w) == V::Object(merge_entries(dv_fields(dst@), dv_fields(src@))),
        keeps_sorted(r),
{
    let ghost d0 = dv_fields(dst@);
    let ghost sv = dv_fields(src@);
    proof {
        lemma_dv_fields(src@);
        lemma_entries_sorted_objects(sv);
    }
    let mut i: usize = 0;
    while i < src.len()
        invariant
            i <= src@.len(),
            sv == dv_fields(src@),
            sv.len() == src@.len(),
            forall|j: int| 0 <= j < sv.len() ==> #[trigger] sv[j] == (src@[j].0@, dv(src@[j].1)),
            forall|j: int| 0 <= j < sv.len() ==> #[trigger] sorted_objects(sv[j].1),
            dv_fields(dst@) == merge_entries(d0, sv.take(i as int)),
            sorted_keys(dv_fields(dst@)),
            entries_sorted_objects(dv_fields(dst@)),
        decreases src.len() - i,
    {
        let ghost before = dv_fields(dst@);
        let v = copy_value(&src[i].1);
        let k = src[i].0.clone();
        proof {
            assert(sorted_objects(sv[i as int].1));
        }
        insert_field(&mut dst, k, v);
        proof {
            lemma_insert_keeps_sorted(before, sv[i as int].0, sv[i as int].1);
            assert(sv.take(i + 1).drop_last() =~= sv.take(i as int));
            assert(sv.take(i + 1).last() == sv[i as int]);
        }
        i += 1;
    }
    proof {
        assert(sv.take(i as int) =~= sv);
    }
    Ok(SxValue::Object(dst))
}

fn missing_key(k: &str) -> (r: SxError)
    ensures
        r.code == SxErrorCode::InvalidPath,
{
    let mut m = "missing key '".to_owned();
    m.append(k);
    m.append("'");
    SxError::new(SxErrorCode::InvalidPath, m)
}

fn missing_index(i: usize) -> (r: SxError)
    ensures
        r.code == SxErrorCode::InvalidPath,
{
    let mut m = "missing index ".to_owned();
    let digits = u64_to_decimal(i as u64);
    m.append(digits.as_str());
    SxError::new(SxErrorCode::InvalidPath, m)
}

/// Facts about an object entry found by key: the entry is what `lookup`
/// gives, and putting another value under the same key there is what
/// `insert_entry` does.
proof fn lemma_found_entry(s: Seq<(Seq<char>, V)>, k: Seq<char>, j: int, c: V)
    requires
        sorted_keys(s),
        0 <= j < s.len(),
        s[j].0 == k,
    ensures
        lookup(s, k) == Some(s[j].1),
        insert_entry(s, k, c) == s.update(j, (k, c)),
{
    assert forall|m: int| 0 <= m < j implies key_lt(#[trigger] s[m].0, k) by {
        assert(key_lt(s[m].0, s[j].0));
    }
    assert forall|m: int| 0 <= m < j implies (#[trigger] s[m]).0 != k by {
        assert(key_lt(s[m].0, s[j].0));
        lemma_key_lt_irreflexive(k);
    }
    lemma_key_lt_irreflexive(k);
    lemma_lookup_first(s, k, j);
    lemma_insert_at(s, k, c, j);
}

/// Applies `a` at the value that segments `d..e` of `path` designate under
/// `v`.
fn modify_at(v: SxValue, path: &SxPath, d: usize, e: usize, a: Action) -> (r: Result<SxValue, DeltaFailure>)
    requires
        d <= e <= path@.len(),
        sorted_objects(dv(v)),
        a.carries_sorted(),
    ensures
        agrees(r, modify(dv(v), path@, d as int, e as int, a.view_act())),
        keeps_sorted(r),
    decreases e - d,
{
    if d >= e {
        return apply_action(v, a);
    }
    proof {
        assert(path@[d as int] == path.segments@[d as int].view_seg());
    }
    match v {
        SxValue::Object(mut fs) => match &path.segments[d] {
            SxPathSegment::Key(k) => {
                let ghost old_fs = fs@;
                let ghost s = dv_fields(old_fs);
                proof {
                    lemma_dv_fields(old_fs);
                    lemma_entries_sorted_objects(s);
                }
                match find_key(&fs, k.as_str()) {
                    None => {
                        proof {
                            assert forall|m: int| 0 <= m < s.len() implies (#[trigger] s[m]).0 != k@ by {
                                assert(s[m].0 == old_fs[m].0@);
                            }
                            lemma_lookup_none(s, k@);
                        }
                        Err(DeltaFailure::Error(missing_key(k.as_str())))
                    },
                    Some(j) => {
                        let (key, child) = fs.remove(j);
                        proof {
                            assert(sorted_objects(s[j as int].1));
                        }
                        match modify_at(child, path, d + 1, e, a) {
                            Ok(c2) => {
                                proof {
                                    lemma_found_entry(s, k@, j as int, dv(c2));
                                }
                                fs.insert(j, (key, c2));
                                proof {
                                    assert(fs@ =~= old_fs.update(j as int, (key, c2)));
                                    lemma_dv_fields(fs@);
                                    let t = dv_fields(fs@);
                                    assert(t =~= s.update(j as int, (k@, dv(c2))));
                                    lemma_entries_sorted_objects(t);
                                    assert forall|x: int, y: int| 0 <= x < y < t.len() implies key_lt(
                                        #[trigger] t[x].0,
                                        #[trigger] t[y].0,
                                    ) by {
                                        assert(t[x].0 == s[x].0 && t[y].0 == s[y].0);
                                    }
                                }
                                Ok(SxValue::Object(fs))
                            },
                            Err(f) => {
                                proof {
                                    lemma_found_entry(s, k@, j as int, V::Null);
                                }
                                Err(f)
                            },
                        }
                    },
                }
            },
            SxPathSegment::Index(_) => fail(SxErrorCode::InvalidPath, "path segment does not match value type"),
        },
        SxValue::Array(mut xs) => match &path.segments[d] {
            SxPathSegment::Index(i) => {
                let i = *i;
                let ghost old_xs = xs@;
                proof {
                    lemma_dv_vals(old_xs);
                    lemma_all_sorted_objects(dv_vals(old_xs));
                }
                if i < xs.len() {
                    let child = xs.remove(i);
                    proof {
                        assert(sorted_objects(dv_vals(old_xs)[i as int]));
                    }
                    match modify_at(child, path, d + 1, e, a) {
                        Ok(c2) => {
                            xs.insert(i, c2);
                            proof {
                                assert(xs@ =~= old_xs.update(i as int, c2));
                                lemma_dv_vals(xs@);
                                assert(dv_vals(xs@) =~= dv_vals(old_xs).update(i as int, dv(c2)));
                                lemma_all_sorted_objects(dv_vals(xs@));
                            }
                            Ok(SxValue::Array(xs))
                        },
                        Err(f) => Err(f),
                    }
                } else {
                    Err(DeltaFailure::Error(missing_index(i)))
                }
            },
            SxPathSegment::Key(_) => fail(SxErrorCode::InvalidPath, "path segment does not match value type"),
        },
        _ => fail(SxErrorCode::InvalidPath, "path segment does not match value type"),
    }
}

/// A copy of the value that segments `d..` of `path` designate under `v`.
fn value_at_path(v: &SxValue, path: &SxPath, d: usize) -> (r: Result<SxValue, SxError>)
    requires
        d <= path@.len(),
        sorted_objects(dv(*v)),
    ensures
        match value_at(dv(*v), path@, d as int) {
            Ok(x) => r matches Ok(w) && dv(w) == x && sorted_objects(x),
            Err(c) => r matches Err(e) && e.code == c,
        },
    decreases path@.len() - d,
{
    if d >= path.segments.len() {
        return Ok(copy_value(v));
    }
    proof {
        assert(path@[d as int] == path.segments@[d as int].view_seg());
    }
    match v {
        SxValue::Object(fs) => match &path.segments[d] {
            SxPathSegment::Key(k) => {
                let ghost s = dv_fields(fs@);
                proof {
                    lemma_dv_fields(fs@);
                    lemma_entries_sorted_objects(s);
                }
                match find_key(fs, k.as_str()) {
                    None => {
                        proof {
                            assert forall|m: int| 0 <= m < s.len() implies (#[trigger] s[m]).0 != k@ by {
                                assert(s[m].0 == fs@[m].0@);
                            }
                            lemma_lookup_none(s, k@);
                        }
                        Err(missing_key(k.as_str()))
                    },
                    Some(j) => {
                        proof {
                            lemma_found_entry(s, k@, j as int, V::Null);
                            assert(sorted_objects(s[j as int].1));
                        }
                        value_at_path(&fs[j].1, path, d + 1)
                    },
                }
            },
            SxPathSegment::Index(_) => Err(SxError::msg(SxErrorCode::InvalidPath, "path segment does not match value type")),
        },
        SxValue::Array(xs) => match &path.segments[d] {
            SxPathSegment::Index(i) => {
                proof {
                    lemma_dv_vals(xs@);
                    lemma_all_sorted_objects(dv_vals(xs@));
                }
                if *i < xs.len() {
                    proof {
                        assert(sorted_objects(dv_vals(xs@)[*i as int]));
                    }
                    value_at_path(&xs[*i], path, d + 1)
                } else {
                    Err(missing_index(*i))
                }
            },
            SxPathSegment::Key(_) => Err(SxError::msg(SxErrorCode::InvalidPath, "path segment does not match value type")),
        },
        _ => Err(SxError::msg(SxErrorCode::InvalidPath, "path segment does not match value type")),
    }
}

/// Sets the value at `path`.
fn set_value_at(root: SxValue, path: &SxPath, x: SxValue) -> (r: Result<SxValue, DeltaFailure>)
    requires
        sorted_objects(dv(root)),
        sorted_objects(dv(x)),
    ensures
        agrees(r, set_at(dv(root), path@, dv(x))),
        keeps_sorted(r),
{
    let n = path.segments.len();
    if n == 0 {
        return Ok(x);
    }
    let last = path.segments[n - 1].copy_seg();
    proof {
        assert(path@.last() == path.segments@[n - 1].view_seg());
    }
    modify_at(root, path, 0, n - 1, Action::SetChild(last, x))
}

/// Removes the value at `path`.
fn remove_value_at(root: SxValue, path: &SxPath) -> (r: Result<SxValue, DeltaFailure>)
    requires
        sorted_objects(dv(root)),
    ensures
        agrees(r, remove_at(dv(root), path@)),
        keeps_sorted(r),
{
    let n = path.segments.len();
    if n == 0 {
        return Ok(SxValue::Null);
    }
    let last = path.segments[n - 1].copy_seg();
    proof {
        assert(path@.last() == path.segments@[n - 1].view_seg());
    }
    modify_at(root, path, 0, n - 1, Action::RemoveChild(last))
}

/// The amount an increment or decrement carries.
fn step_of(x: &Option<SxValue>) -> (r: Option<i64>)
    ensures
        r == step_amount(match x {
            Some(v) => Some(dv(*v)),
            None => None,
        }),
{
    match x {
        Some(SxValue::I64(n)) => Some(*n),
        Some(SxValue::U64(n)) => {
            if *n <= i64::MAX as u64 {
                Some(*n as i64)
            } else {
                None
            }
        },
        _ => None,
    }
}

/// Applies one delta operation.
fn apply_op(root: SxValue, op: &DeltaOp) -> (r: Result<SxValue, DeltaFailure>)
    requires
        sorted_objects(dv(root)),
        op_values_sorted(dv_op(*op)),
    ensures
        agrees(r, op_outcome(dv(root), dv_op(*op))),
        keeps_sorted(r),
{
    let n = op.path.segments.len();
    proof {
        assert(op.path@.len() == n);
    }
    match op.kind {
        DeltaOpKind::SetAt | DeltaOpKind::Replace => match &op.value {
            Some(x) => set_value_at(root, &op.path, copy_value(x)),
            None => fail(SxErrorCode::ValidationError, "set/replace requires value"),
        },
        DeltaOpKind::Remove => remove_value_at(root, &op.path),
        DeltaOpKind::Append => match &op.value {
            Some(x) => modify_at(root, &op.path, 0, n, Action::Append(copy_value(x))),
            None => fail(SxErrorCode::ValidationError, "append requires value"),
        },
        DeltaOpKind::Prepend => match &op.value {
            Some(x) => modify_at(root, &op.path, 0, n, Action::Prepend(copy_value(x))),
            None => fail(SxErrorCode::ValidationError, "prepend requires value"),
        },
        DeltaOpKind::Insert => match &op.value {
            Some(x) => match op.index {
                Some(i) => modify_at(root, &op.path, 0, n, Action::InsertAt(i, copy_value(x))),
                None => fail(SxErrorCode::ValidationError, "insert requires index"),
            },
            None => fail(SxErrorCode::ValidationError, "insert requires value"),
        },
        DeltaOpKind::Increment | DeltaOpKind::Decrement => match step_of(&op.value) {
            Some(by) => modify_at(root, &op.path, 0, n, Action::Add(op.kind == DeltaOpKind::Increment, by)),
            None => fail(SxErrorCode::TypeMismatch, "increment/decrement expects integer value"),
        },
        DeltaOpKind::Merge => match &op.value {
            Some(x) => modify_at(root, &op.path, 0, n, Action::Merge(copy_value(x))),
            None => fail(SxErrorCode::ValidationError, "merge requires value"),
        },
        DeltaOpKind::Move => match &op.from {
            Some(f) => match value_at_path(&root, f, 0) {
                Ok(val) => match remove_value_at(root, f) {
                    Ok(w) => set_value_at(w, &op.path, val),
                    Err(e) => Err(e),
                },
                Err(e) => Err(DeltaFailure::Error(e)),
            },
            None => fail(SxErrorCode::ValidationError, "move requires from"),
        },
        DeltaOpKind::Copy => match &op.from {
            Some(f) => match value_at_path(&root, f, 0) {
                Ok(val) => set_value_at(root, &op.path, val),
                Err(e) => Err(DeltaFailure::Error(e)),
            },
            None => fail(SxErrorCode::ValidationError, "copy requires from"),
        },
        DeltaOpKind::Clear => modify_at(root, &op.path, 0, n, Action::Clear),
    }
}

/// A failure stays the outcome of the whole sequence.
proof fn lemma_failure_persists(v: V, ops: Seq<VOp>, i: int)
    requires
        0 <= i <= ops.len(),
        ops_outcome(v, ops.take(i)) is Err,
    ensures
        ops_outcome(v, ops) == ops_outcome(v, ops.take(i)),
    decreases ops.len() - i,
{
    if i < ops.len() {
        assert(ops.take(i + 1).drop_last() =~= ops.take(i));
        lemma_failure_persists(v, ops, i + 1);
    } else {
        assert(ops.take(i) =~= ops);
    }
}

/// Applies the operations in order, stopping at the first failure.
fn run_ops(base: &SxValue, ops: &Vec<DeltaOp>) -> (r: Result<SxValue, DeltaFailure>)
    requires
        sorted_objects(dv(*base)),
        ops_values_sorted(dv_ops(ops@)),
    ensures
        agrees(r, ops_outcome(dv(*base), dv_ops(ops@))),
        keeps_sorted(r),
{
    let ghost sv = dv_ops(ops@);
    proof {
        lemma_dv_ops(ops@);
    }
    let mut cur = copy_value(base);
    let mut i: usize = 0;
    while i < ops.len()
        invariant
            i <= ops@.len(),
            sv == dv_ops(ops@),
            sv.len() == ops@.len(),
            forall|j: int| 0 <= j < sv.len() ==> #[trigger] sv[j] == dv_op(ops@[j]),
            ops_values_sorted(sv),
            ops_outcome(dv(*base), sv.take(i as int)) == Ok::<V, Fault>(dv(cur)),
            sorted_objects(dv(cur)),
        decreases ops.len() - i,
    {
        proof {
            assert(sv.take(i + 1).drop_last() =~= sv.take(i as int));
            assert(sv.take(i + 1).last() == sv[i as int]);
            assert(op_values_sorted(sv[i as int]));
        }
        match apply_op(cur, &ops[i]) {
            Ok(w) => {
                cur = w;
            },
            Err(f) => {
                proof {
                    lemma_failure_persists(dv(*base), sv, i + 1);
                }
                return Err(f);
            },
        }
        i += 1;
    }
    proof {
        assert(sv.take(i as int) =~= sv);
    }
    Ok(cur)
}

/// True when applying the operations to `v` stops on an `i64` overflow.
pub open spec fn overflows(v: V, ops: Seq<VOp>) -> bool {
    ops_outcome(v, ops) matches Err(Fault::Overflow)
}

/// Applies a delta document to a base value: each operation in turn, the
/// first failing one deciding the error.
pub fn apply_delta(base: &SxValue, delta: &DeltaDocument) -> (r: SxResult<SxValue>)
    requires
        sorted_objects(dv(*base)),
        ops_values_sorted(dv_ops(delta.ops@)),
        !overflows(dv(*base), dv_ops(delta.ops@)),
    ensures
        match ops_outcome(dv(*base), dv_ops(delta.ops@)) {
            Ok(x) => r matches Ok(w) && dv(w) == x,
            Err(Fault::Error(c)) => r matches Err(e) && e.code == c,
            Err(Fault::Overflow) => false,
        },
        r matches Ok(w) ==> sorted_objects(dv(w)),
{
    match run_ops(base, &delta.ops) {
        Ok(w) => Ok(w),
        Err(DeltaFailure::Error(e)) => Err(e),
        Err(DeltaFailure::Overflow) => Err(SxError::msg(SxErrorCode::Internal, "integer overflow in delta op")),
    }
}

/// True when applying the delta to `base` would carry an `i64` increment or
/// decrement out of range, the one input `apply_delta` does not take.
pub fn delta_overflows(base: &SxValue, delta: &DeltaDocument) -> (r: bool)
    requires
        sorted_objects(dv(*base)),
        ops_values_sorted(dv_ops(delta.ops@)),
    ensures
        r == overflows(dv(*base), dv_ops(delta.ops@)),
{
    match run_ops(base, &delta.ops) {
        Err(DeltaFailure::Overflow) => true,
        _ => false,
    }
}

// ---------------------------------------------------------------------------
// Diff
// ---------------------------------------------------------------------------

/// An operation without a carried value.
pub open spec fn bare_op(kind: DeltaOpKind, p: Seq<Seg>) -> VOp {
    VOp { kind, path: p, value: None, from: None, index: None }
}

/// An operation carrying a value.
pub open spec fn value_op(kind: DeltaOpKind, p: Seq<Seg>, x: V) -> VOp {
    VOp { kind, path: p, value: Some(x), from: None, index: None }
}

pub open spec fn cat(a: Option<Seq<VOp>>, b: Option<Seq<VOp>>) -> Option<Seq<VOp>> {
    match (a, b) {
        (Some(x), Some(y)) => Some(x + y),
        _ => None,
    }
}

/// `Remove` operations for the keys of `xs` that `ys` lacks, in key order.
pub open spec fn removals(p: Seq<Seg>, xs: Seq<(Seq<char>, V)>, ys: Seq<(Seq<char>, V)>) -> Seq<VOp>
    decreases xs.len(),
{
    if xs.len() == 0 {
        Seq::empty()
    } else {
        removals(p, xs.drop_last(), ys) + if lookup(ys, xs.last().0) is None {
            seq![bare_op(DeltaOpKind::Remove, p.push(Seg::Key(xs.last().0)))]
        } else {
            Seq::empty()
        }
    }
}

/// `Append` operations for the values of `ys`, in order.
pub open spec fn appends(p: Seq<Seg>, ys: Seq<V>) -> Seq<VOp> {
    Seq::new(ys.len(), |j: int| value_op(DeltaOpKind::Append, p, ys[j]))
}

/// `Remove` operations for the indexes `hi - 1` down to `lo`.
pub open spec fn removes_from_end(p: Seq<Seg>, lo: int, hi: int) -> Seq<VOp> {
    Seq::new(
        (hi - lo) as nat,
        |j: int| bare_op(DeltaOpKind::Remove, p.push(Seg::Index((hi - 1 - j) as usize))),
    )
}

pub proof fn lemma_lookup_member(s: Seq<(Seq<char>, V)>, k: Seq<char>)
    requires
        lookup(s, k) is Some,
    ensures
        exists|j: int| 0 <= j < s.len() && s[j].1 == lookup(s, k)->Some_0,
    decreases s.len(),
{
    if s[0].0 != k {
        lemma_lookup_member(s.drop_first(), k);
        let j = choose|j: int| 0 <= j < s.drop_first().len() && s.drop_first()[j].1 == lookup(s, k)->Some_0;
        assert(s[j + 1] == s.drop_first()[j]);
    } else {
        assert(s[0].1 == lookup(s, k)->Some_0);
    }
}

/// The operations that turn `a` into `b` at path `p`, or `None` when an
/// `i64` difference leaves the range of `i64`.
pub open spec fn diff_at(p: Seq<Seg>, a: V, b: V) -> Option<Seq<VOp>>
    decreases a, 0nat,
{
    match (a, b) {
        (V::Object(xs), V::Object(ys)) => cat(Some(removals(p, xs, ys)), diff_fields(p, xs, ys, ys.len())),
        (V::Array(xs), V::Array(ys)) => {
            let m = if xs.len() < ys.len() {
                xs.len()
            } else {
                ys.len()
            };
            cat(
                diff_items(p, xs, ys, m),
                Some(
                    if ys.len() > xs.len() {
                        appends(p, ys.subrange(xs.len() as int, ys.len() as int))
                    } else if xs.len() > ys.len() {
                        removes_from_end(p, ys.len() as int, xs.len() as int)
                    } else {
                        Seq::empty()
                    },
                ),
            )
        },
        (V::I64(x), V::I64(y)) => if y > x {
            if y - x <= i64::MAX {
                Some(seq![value_op(DeltaOpKind::Increment, p, V::I64((y - x) as i64))])
            } else {
                None
            }
        } else if y < x {
            if x - y <= i64::MAX {
                Some(seq![value_op(DeltaOpKind::Decrement, p, V::I64((x - y) as i64))])
            } else {
                None
            }
        } else {
            Some(Seq::empty())
        },
        _ => if veq(a, b) {
            Some(Seq::empty())
        } else {
            Some(seq![value_op(DeltaOpKind::Replace, p, b)])
        },
    }
}

/// The operations for the first `n` entries of `ys`: a diff for each key
/// that `xs` has too, a `SetAt` for each it lacks.
pub open spec fn diff_fields(p: Seq<Seg>, xs: Seq<(Seq<char>, V)>, ys: Seq<(Seq<char>, V)>, n: nat) -> Option<
    Seq<VOp>,
>
    decreases xs, n,
{
    if n == 0 || n > ys.len() {
        Some(Seq::empty())
    } else {
        let k = ys[n - 1].0;
        let step = match lookup(xs, k) {
            Some(c) => {
                proof {
                    lemma_lookup_member(xs, k);
                    let j = choose|j: int| 0 <= j < xs.len() && xs[j].1 == c;
                    assert(decreases_to!(xs => xs[j]));
                }
                diff_at(p.push(Seg::Key(k)), c, ys[n - 1].1)
            },
            None => Some(seq![value_op(DeltaOpKind::SetAt, p.push(Seg::Key(k)), ys[n - 1].1)]),
        };
        cat(diff_fields(p, xs, ys, (n - 1) as nat), step)
    }
}

/// The diffs of the first `n` positions of two arrays.
pub open spec fn diff_items(p: Seq<Seg>, xs: Seq<V>, ys: Seq<V>, n: nat) -> Option<Seq<VOp>>
    decreases xs, n,
{
    if n == 0 || n > xs.len() || n > ys.len() {
        Some(Seq::empty())
    } else {
        cat(
            diff_items(p, xs, ys, (n - 1) as nat),
            diff_at(p.push(Seg::Index((n - 1) as usize)), xs[n - 1], ys[n - 1]),
        )
    }
}

proof fn lemma_dv_ops_push(s: Seq<DeltaOp>, x: DeltaOp)
    ensures
        dv_ops(s.push(x)) == dv_ops(s).push(dv_op(x)),
{
    assert(s.push(x).drop_last() =~= s);
}

fn push_op(ops: &mut Vec<DeltaOp>, op: DeltaOp)
    ensures
        dv_ops(final(ops)@) == dv_ops(old(ops)@).push(dv_op(op)),
{
    proof {
        lemma_dv_ops_push(ops@, op);
    }
    ops.push(op);
}

proof fn lemma_diff_fields_none(p: Seq<Seg>, xs: Seq<(Seq<char>, V)>, ys: Seq<(Seq<char>, V)>, n: nat, m: nat)
    requires
        0 < n <= m <= ys.len(),
        diff_fields(p, xs, ys, n) is None,
    ensures
        diff_fields(p, xs, ys, m) is None,
    decreases m - n,
{
    if n < m {
        lemma_diff_fields_none(p, xs, ys, n + 1, m);
    }
}

proof fn lemma_diff_items_none(p: Seq<Seg>, xs: Seq<V>, ys: Seq<V>, n: nat, m: nat)
    requires
        0 < n <= m <= xs.len(),
        m <= ys.len(),
        diff_items(p, xs, ys, n) is None,
    ensures
        diff_items(p, xs, ys, m) is None,
    decreases m - n,
{
    if n < m {
        lemma_diff_items_none(p, xs, ys, n + 1, m);
    }
}

/// Appends to `ops` the operations that turn `a` into `b` at `path`; false
/// when an `i64` difference leaves the range of `i64`.
fn diff_into(path: &SxPath, a: &SxValue, b: &SxValue, ops: &mut Vec<DeltaOp>) -> (ok: bool)
    ensures
        ok == diff_at(path@, dv(*a), dv(*b)) is Some,
        ok ==> dv_ops(final(ops)@) == dv_ops(old(ops)@) + diff_at(path@, dv(*a), dv(*b))->Some_0,
    decreases a, 0nat,
{
    match (a, b) {
        (SxValue::Object(xs), SxValue::Object(ys)) => diff_objects(path, xs, ys, ops),
        (SxValue::Array(xs), SxValue::Array(ys)) => diff_arrays(path, xs, ys, ops),
        (SxValue::I64(x), SxValue::I64(y)) => {
            if *y > *x {
                let d: i128 = *y as i128 - *x as i128;
                if d > i64::MAX as i128 {
                    return false;
                }
                push_op(
                    ops,
                    DeltaOp {
                        kind: DeltaOpKind::Increment,
                        path: path.copy_path(),
                        value: Some(SxValue::I64(d as i64)),
                        from: None,
                        index: None,
                    },
                );
                proof {
                    assert(dv_ops(ops@) =~= dv_ops(old(ops)@) + diff_at(path@, dv(*a), dv(*b))->Some_0);
                }
                true
            } else if *y < *x {
                let d: i128 = *x as i128 - *y as i128;
                if d > i64::MAX as i128 {
                    return false;
                }
                push_op(
                    ops,
                    DeltaOp {
                        kind: DeltaOpKind::Decrement,
                        path: path.copy_path(),
                        value: Some(SxValue::I64(d as i64)),
                        from: None,
                        index: None,
                    },
                );
                proof {
                    assert(dv_ops(ops@) =~= dv_ops(old(ops)@) + diff_at(path@, dv(*a), dv(*b))->Some_0);
                }
                true
            } else {
                assert(dv_ops(ops@) =~= dv_ops(ops@) + Seq::<VOp>::empty());
                true
            }
        },
        _ => {
            if values_equal(a, b) {
                assert(dv_ops(ops@) =~= dv_ops(ops@) + Seq::<VOp>::empty());
                true
            } else {
                push_op(
                    ops,
                    DeltaOp {
                        kind: DeltaOpKind::Replace,
                        path: path.copy_path(),
                        value: Some(copy_value(b)),
                        from: None,
                        index: None,
                    },
                );
                proof {
                    assert(dv_ops(ops@) =~= dv_ops(old(ops)@) + diff_at(path@, dv(*a), dv(*b))->Some_0);
                }
                true
            }
        },
    }
}

fn diff_objects(path: &SxPath, xs: &Vec<(String, SxValue)>, ys: &Vec<(String, SxValue)>, ops: &mut Vec<DeltaOp>) -> (ok: bool)
    ensures
        ok == diff_at(path@, V::Object(dv_fields(xs@)), V::Object(dv_fields(ys@))) is Some,
        ok ==> dv_ops(final(ops)@) == dv_ops(old(ops)@) + diff_at(
            path@,
            V::Object(dv_fields(xs@)),
            V::Object(dv_fields(ys@)),
        )->Some_0,
    decreases xs, 1nat,
{
    let ghost xv = dv_fields(xs@);
    let ghost yv = dv_fields(ys@);
    let ghost start = dv_ops(ops@);
    proof {
        lemma_dv_fields(xs@);
        lemma_dv_fields(ys@);
    }
    let mut i: usize = 0;
    while i < xs.len()
        invariant
            i <= xs@.len(),
            xv == dv_fields(xs@),
            yv == dv_fields(ys@),
            xv.len() == xs@.len(),
            yv.len() == ys@.len(),
            forall|j: int| 0 <= j < xv.len() ==> #[trigger] xv[j] == (xs@[j].0@, dv(xs@[j].1)),
            forall|j: int| 0 <= j < yv.len() ==> #[trigger] yv[j] == (ys@[j].0@, dv(ys@[j].1)),
            dv_ops(ops@) == start + removals(path@, xv.take(i as int), yv),
        decreases xs.len() - i,
    {
        let ghost before = dv_ops(ops@);
        proof {
            assert(xv.take(i + 1).drop_last() =~= xv.take(i as int));
            assert(xv.take(i + 1).last() == xv[i as int]);
        }
        match find_key(ys, xs[i].0.as_str()) {
            None => {
                proof {
                    assert forall|m: int| 0 <= m < yv.len() implies (#[trigger] yv[m]).0 != xv[i as int].0 by {
                        assert(yv[m].0 == ys@[m].0@);
                    }
                    lemma_lookup_none(yv, xv[i as int].0);
                }
                push_op(
                    ops,
                    DeltaOp {
                        kind: DeltaOpKind::Remove,
                        path: path.key(xs[i].0.as_str()),
                        value: None,
                        from: None,
                        index: None,
                    },
                );
                proof {
                    assert(dv_ops(ops@) =~= start + removals(path@, xv.take(i + 1), yv));
                }
            },
            Some(j) => {
                proof {
                    assert forall|m: int| 0 <= m < j implies (#[trigger] yv[m]).0 != xv[i as int].0 by {
                        assert(yv[m].0 == ys@[m].0@);
                    }
                    lemma_lookup_first(yv, xv[i as int].0, j as int);
                    assert(dv_ops(ops@) =~= start + removals(path@, xv.take(i + 1), yv));
                }
            },
        }
        i += 1;
    }
    proof {
        assert(xv.take(i as int) =~= xv);
    }
    let ghost mid = dv_ops(ops@);
    let mut i: usize = 0;
    while i < ys.len()
        invariant
            i <= ys@.len(),
            xv == dv_fields(xs@),
            yv == dv_fields(ys@),
            xv.len() == xs@.len(),
            yv.len() == ys@.len(),
            forall|j: int| 0 <= j < xv.len() ==> #[trigger] xv[j] == (xs@[j].0@, dv(xs@[j].1)),
            forall|j: int| 0 <= j < yv.len() ==> #[trigger] yv[j] == (ys@[j].0@, dv(ys@[j].1)),
            mid == start + removals(path@, xv, yv),
            diff_fields(path@, xv, yv, i as nat) is Some,
            dv_ops(ops@) == mid + diff_fields(path@, xv, yv, i as nat)->Some_0,
        decreases ys.len() - i,
    {
        let ghost before = dv_ops(ops@);
        let child = path.key(ys[i].0.as_str());
        match find_key(xs, ys[i].0.as_str()) {
            Some(j) => {
                proof {
                    assert forall|m: int| 0 <= m < j implies (#[trigger] xv[m]).0 != yv[i as int].0 by {
                        assert(xv[m].0 == xs@[m].0@);
                    }
                    lemma_lookup_first(xv, yv[i as int].0, j as int);
                }
                assert(decreases_to!(xs => xs@[j as int].1));
                let ok = diff_into(&child, &xs[j].1, &ys[i].1, ops);
                if !ok {
                    proof {
                        lemma_diff_fields_none(path@, xv, yv, (i + 1) as nat, yv.len());
                    }
                    return false;
                }
                proof {
                    assert(dv_ops(ops@) =~= mid + diff_fields(path@, xv, yv, (i + 1) as nat)->Some_0);
                }
            },
            None => {
                proof {
                    assert forall|m: int| 0 <= m < xv.len() implies (#[trigger] xv[m]).0 != yv[i as int].0 by {
                        assert(xv[m].0 == xs@[m].0@);
                    }
                    lemma_lookup_none(xv, yv[i as int].0);
                }
                push_op(
                    ops,
                    DeltaOp {
                        kind: DeltaOpKind::SetAt,
                        path: child,
                        value: Some(copy_value(&ys[i].1)),
                        from: None,
                        index: None,
                    },
                );
                proof {
                    assert(dv_ops(ops@) =~= mid + diff_fields(path@, xv, yv, (i + 1) as nat)->Some_0);
                }
            },
        }
        i += 1;
    }
    proof {
        assert(dv_ops(ops@) =~= dv_ops(old(ops)@) + diff_at(path@, V::Object(xv), V::Object(yv))->Some_0);
    }
    true
}

fn diff_arrays(path: &SxPath, xs: &Vec<SxValue>, ys: &Vec<SxValue>, ops: &mut Vec<DeltaOp>) -> (ok: bool)
    ensures
        ok == diff_at(path@, V::Array(dv_vals(xs@)), V::Array(dv_vals(ys@))) is Some,
        ok ==> dv_ops(final(ops)@) == dv_ops(old(ops)@) + diff_at(
            path@,
            V::Array(dv_vals(xs@)),
            V::Array(dv_vals(ys@)),
        )->Some_0,
    decreases xs, 1nat,
{
    let ghost xv = dv_vals(xs@);
    let ghost yv = dv_vals(ys@);
    let ghost start = dv_ops(ops@);
    proof {
        lemma_dv_vals(xs@);
        lemma_dv_vals(ys@);
    }
    let m: usize = if xs.len() < ys.len() {
        xs.len()
    } else {
        ys.len()
    };
    let mut i: usize = 0;
    while i < m
        invariant
            i <= m,
            m <= xs@.len(),
            m <= ys@.len(),
            m == (if xs@.len() < ys@.len() {
                xs@.len()
            } else {
                ys@.len()
            }),
            xv == dv_vals(xs@),
            yv == dv_vals(ys@),
            xv.len() == xs@.len(),
            yv.len() == ys@.len(),
            forall|j: int| 0 <= j < xv.len() ==> #[trigger] xv[j] == dv(xs@[j]),
            forall|j: int| 0 <= j < yv.len() ==> #[trigger] yv[j] == dv(ys@[j]),
            diff_items(path@, xv, yv, i as nat) is Some,
            dv_ops(ops@) == start + diff_items(path@, xv, yv, i as nat)->Some_0,
        decreases m - i,
    {
        let child = path.index(i);
        assert(decreases_to!(xs => xs@[i as int]));
        let ok = diff_into(&child, &xs[i], &ys[i], ops);
        if !ok {
            proof {
                lemma_diff_items_none(path@, xv, yv, (i + 1) as nat, m as nat);
            }
            return false;
        }
        proof {
            assert(dv_ops(ops@) =~= start + diff_items(path@, xv, yv, (i + 1) as nat)->Some_0);
        }
        i += 1;
    }
    let ghost mid = dv_ops(ops@);
    if ys.len() > xs.len() {
        let mut j: usize = xs.len();
        while j < ys.len()
            invariant
                xs@.len() <= j <= ys@.len(),
                yv == dv_vals(ys@),
                yv.len() == ys@.len(),
                forall|q: int| 0 <= q < yv.len() ==> #[trigger] yv[q] == dv(ys@[q]),
                dv_ops(ops@) == mid + appends(path@, yv.subrange(xs@.len() as int, j as int)),
            decreases ys.len() - j,
        {
            push_op(
                ops,
                DeltaOp {
                    kind: DeltaOpKind::Append,
                    path: path.copy_path(),
                    value: Some(copy_value(&ys[j])),
                    from: None,
                    index: None,
                },
            );
            proof {
                assert(appends(path@, yv.subrange(xs@.len() as int, j + 1)) =~= appends(
                    path@,
                    yv.subrange(xs@.len() as int, j as int),
                ).push(value_op(DeltaOpKind::Append, path@, yv[j as int])));
                assert(dv_ops(ops@) =~= mid + appends(path@, yv.subrange(xs@.len() as int, j + 1)));
            }
            j += 1;
        }
    } else if xs.len() > ys.len() {
        let mut j: usize = xs.len();
        while j > ys.len()
            invariant
                ys@.len() <= j <= xs@.len(),
                dv_ops(ops@) == mid + removes_from_end(path@, j as int, xs@.len() as int),
            decreases j,
        {
            push_op(
                ops,
                DeltaOp {
                    kind: DeltaOpKind::Remove,
                    path: path.index(j - 1),
                    value: None,
                    from: None,
                    index: None,
                },
            );
            proof {
                assert(removes_from_end(path@, j - 1, xs@.len() as int) =~= removes_from_end(
                    path@,
                    j as int,
                    xs@.len() as int,
                ).push(bare_op(DeltaOpKind::Remove, path@.push(Seg::Index((j - 1) as usize)))));
                assert(dv_ops(ops@) =~= mid + removes_from_end(path@, j - 1, xs@.len() as int));
            }
            j -= 1;
        }
    } else {
        assert(dv_ops(ops@) =~= mid + Seq::<VOp>::empty());
    }
    proof {
        assert(dv_ops(ops@) =~= dv_ops(old(ops)@) + diff_at(path@, V::Array(xv), V::Array(yv))->Some_0);
    }
    true
}

/// Computes the operations that turn `base` into `target`: removals of the
/// keys `target` lacks, then per key of `target` a nested diff or a `SetAt`;
/// per array position a nested diff, then appends or removals from the end;
/// an increment or decrement between two `i64`; a replacement elsewhere when
/// the values differ.
pub fn diff(base: &SxValue, target: &SxValue) -> (d: DeltaDocument)
    requires
        diff_at(Seq::empty(), dv(*base), dv(*target)) is Some,
    ensures
        d.from_hash is None,
        dv_ops(d.ops@) == diff_at(Seq::empty(), dv(*base), dv(*target))->Some_0,
{
    let mut ops: Vec<DeltaOp> = Vec::new();
    let root = SxPath::root();
    proof {
        assert(dv_ops(ops@) =~= Seq::<VOp>::empty());
    }
    diff_into(&root, base, target, &mut ops);
    proof {
        assert(Seq::<VOp>::empty() + diff_at(Seq::empty(), dv(*base), dv(*target))->Some_0 =~= diff_at(
            Seq::empty(),
            dv(*base),
            dv(*target),
        )->Some_0);
    }
    DeltaDocument { from_hash: None, ops }
}

/// True when diffing `base` against `target` would need an `i64`
/// difference outside the range of `i64`, the one input `diff` does not
/// take.
pub fn diff_overflows(base: &SxValue, target: &SxValue) -> (r: bool)
    ensures
        r == diff_at(Seq::empty(), dv(*base), dv(*target)) is None,
{
    let mut ops: Vec<DeltaOp> = Vec::new();
    let root = SxPath::root();
    !diff_into(&root, base, target, &mut ops)
}


// ---------------------------------------------------------------------------
// Checks of the inputs the delta operations take
// ---------------------------------------------------------------------------

/// True when every object in the value has its keys in ascending order
/// (the order a key-ordered map keeps them in).
pub fn objects_sorted(v: &SxValue) -> (r: bool)
    ensures
        r == sorted_objects(dv(*v)),
    decreases v,
{
    match v {
        SxValue::Array(items) => {
            proof {
                lemma_dv_vals(items@);
                lemma_all_sorted_objects(dv_vals(items@));
            }
            let mut i: usize = 0;
            while i < items.len()
                invariant
                    i <= items@.len(),
                    *v == SxValue::Array(*items),
                    sorted_objects(dv(*v)) == forall|j: int| 0 <= j < items@.len() ==> #[trigger] sorted_objects(dv_vals(items@)[j]),
                    dv_vals(items@).len() == items@.len(),
                    forall|j: int| 0 <= j < items@.len() ==> #[trigger] dv_vals(items@)[j] == dv(items@[j]),
                    forall|j: int| 0 <= j < i ==> sorted_objects(#[trigger] dv_vals(items@)[j]),
                decreases items.len() - i,
            {
                assert(decreases_to!(v => items@[i as int]));
                if !objects_sorted(&items[i]) {
                    assert(!sorted_objects(dv_vals(items@)[i as int]));
                    return false;
                }
                i += 1;
            }
            true
        },
        SxValue::Object(fields) => {
            let ghost fs = dv_fields(fields@);
            proof {
                lemma_dv_fields(fields@);
                lemma_entries_sorted_objects(fs);
                assert(fs.subrange(0, 0) =~= Seq::<(Seq<char>, V)>::empty());
            }
            let mut i: usize = 0;
            while i < fields.len()
                invariant
                    i <= fields@.len(),
                    *v == SxValue::Object(*fields),
                    fs == dv_fields(fields@),
                    dv(*v) == V::Object(fs),
                    entries_sorted_objects(fs) == forall|j: int| 0 <= j < fs.len() ==> #[trigger] sorted_objects(fs[j].1),
                    fs.len() == fields@.len(),
                    forall|j: int| 0 <= j < fields@.len() ==> #[trigger] fs[j] == (fields@[j].0@, dv(fields@[j].1)),
                    sorted_keys(fs.subrange(0, i as int)),
                    forall|j: int| 0 <= j < i ==> sorted_objects(#[trigger] fs[j].1),
                decreases fields.len() - i,
            {
                if i > 0 && !crate::keys::key_less(fields[i - 1].0.as_str(), fields[i].0.as_str()) {
                    assert(!key_lt(fs[i - 1].0, fs[i as int].0));
                    assert(!sorted_keys(fs));
                    return false;
                }
                assert(decreases_to!(v => fields@[i as int].1));
                if !objects_sorted(&fields[i].1) {
                    assert(!sorted_objects(fs[i as int].1));
                    return false;
                }
                proof {
                    let t = fs.subrange(0, i + 1);
                    assert forall|a: int, b: int| 0 <= a < b < t.len() implies key_lt(#[trigger] t[a].0, #[trigger] t[b].0) by {
                        if b < i {
                            assert(fs.subrange(0, i as int)[a] == t[a] && fs.subrange(0, i as int)[b] == t[b]);
                        } else if a < i - 1 {
                            assert(fs.subrange(0, i as int)[a] == t[a] && fs.subrange(0, i as int)[i - 1] == t[i - 1]);
                            crate::keys::lemma_key_lt_transitive(t[a].0, t[i - 1].0, t[b].0);
                        }
                    }
                }
                i += 1;
            }
            assert(fs.subrange(0, i as int) =~= fs);
            true
        },
        _ => true,
    }
}

/// True when every value the operations carry has its object keys in
/// ascending order.
pub fn ops_sorted(delta: &DeltaDocument) -> (r: bool)
    ensures
        r == ops_values_sorted(dv_ops(delta.ops@)),
{
    proof {
        lemma_dv_ops(delta.ops@);
    }
    let mut i: usize = 0;
    while i < delta.ops.len()
        invariant
            i <= delta.ops@.len(),
            dv_ops(delta.ops@).len() == delta.ops@.len(),
            forall|j: int| 0 <= j < delta.ops@.len() ==> #[trigger] dv_ops(delta.ops@)[j] == dv_op(delta.ops@[j]),
            forall|j: int| 0 <= j < i ==> op_values_sorted(#[trigger] dv_ops(delta.ops@)[j]),
        decreases delta.ops.len() - i,
    {
        match &delta.ops[i].value {
            Some(x) => {
                if !objects_sorted(x) {
                    assert(!op_values_sorted(dv_ops(delta.ops@)[i as int]));
                    return false;
                }
            },
            None => {},
        }
        assert(op_values_sorted(dv_ops(delta.ops@)[i as int]));
        i += 1;
    }
    true
}

// ---------------------------------------------------------------------------
// Laws
// ---------------------------------------------------------------------------

/// Looking a key up right after inserting it finds the inserted value.
pub proof fn lemma_lookup_insert<T>(s: Seq<(Seq<char>, T)>, k: Seq<char>, x: T)
    ensures
        lookup(insert_entry(s, k, x), k) == Some(x),
    decreases s.len(),
{
    if s.len() > 0 && s[0].0 != k && !key_lt(k, s[0].0) {
        lemma_lookup_insert(s.drop_first(), k, x);
        assert((seq![s[0]] + insert_entry(s.drop_first(), k, x)).drop_first() =~= insert_entry(
            s.drop_first(),
            k,
            x,
        ));
    }
}

proof fn lemma_set_child_then_get(v: V, p: Seq<Seg>, d: int, x: V)
    requires
        0 <= d < p.len(),
        modify(v, p, d, p.len() - 1, Act::SetChild(p.last(), x)) is Ok,
    ensures
        value_at(modify(v, p, d, p.len() - 1, Act::SetChild(p.last(), x))->Ok_0, p, d) == Ok::<
            V,
            SxErrorCode,
        >(x),
    decreases p.len() - d,
{
    let e = p.len() - 1;
    let w = modify(v, p, d, e, Act::SetChild(p.last(), x))->Ok_0;
    if d == e {
        assert(value_at(x, p, d + 1) == Ok::<V, SxErrorCode>(x));
        match (v, p[d]) {
            (V::Object(fs), Seg::Key(k)) => {
                lemma_lookup_insert(fs, k, x);
            },
            (V::Array(xs), Seg::Index(i)) => {
                if i == xs.len() {
                    assert(xs.push(x)[i as int] == x);
                }
            },
            _ => {},
        }
    } else {
        match (v, p[d]) {
            (V::Object(fs), Seg::Key(k)) => {
                let c = lookup(fs, k)->Some_0;
                lemma_set_child_then_get(c, p, d + 1, x);
                let c2 = modify(c, p, d + 1, e, Act::SetChild(p.last(), x))->Ok_0;
                lemma_lookup_insert(fs, k, c2);
            },
            (V::Array(xs), Seg::Index(i)) => {
                lemma_set_child_then_get(xs[i as int], p, d + 1, x);
            },
            _ => {},
        }
    }
}

/// Reading a path right after a successful `SetAt` or `Replace` of `x` at
/// that path gives back `x`.
pub proof fn law_set_then_get(v: V, op: VOp)
    requires
        op.kind == DeltaOpKind::SetAt || op.kind == DeltaOpKind::Replace,
        op_outcome(v, op) is Ok,
    ensures
        value_at(op_outcome(v, op)->Ok_0, op.path, 0) == Ok::<V, SxErrorCode>(op.value->Some_0),
{
    let x = op.value->Some_0;
    if op.path.len() > 0 {
        lemma_set_child_then_get(v, op.path, 0, x);
    }
}


// ---------------------------------------------------------------------------
// Diff of a value with itself
// ---------------------------------------------------------------------------

/// Every part of the value equals itself and every object's keys are
/// distinct (ascending): no NaN float sits anywhere outside an `i64`,
/// array or object node.
pub open spec fn self_equal(v: V) -> bool
    decreases v, 0nat,
{
    match v {
        V::Object(xs) => sorted_keys(xs) && fields_self_equal(xs),
        V::Array(xs) => items_self_equal(xs),
        V::I64(_) => true,
        _ => veq(v, v),
    }
}

pub open spec fn items_self_equal(s: Seq<V>) -> bool
    decreases s, 0nat,
{
    if s.len() == 0 {
        true
    } else {
        items_self_equal(s.drop_last()) && self_equal(s.last())
    }
}

pub open spec fn fields_self_equal(s: Seq<(Seq<char>, V)>) -> bool
    decreases s, 0nat,
{
    if s.len() == 0 {
        true
    } else {
        fields_self_equal(s.drop_last()) && self_equal(s.last().1)
    }
}

proof fn lemma_items_self_equal(s: Seq<V>, i: int)
    requires
        items_self_equal(s),
        0 <= i < s.len(),
    ensures
        self_equal(s[i]),
    decreases s.len(),
{
    if i < s.len() - 1 {
        assert(s.drop_last()[i] == s[i]);
        lemma_items_self_equal(s.drop_last(), i);
    }
}

proof fn lemma_fields_self_equal(s: Seq<(Seq<char>, V)>, i: int)
    requires
        fields_self_equal(s),
        0 <= i < s.len(),
    ensures
        self_equal(s[i].1),
    decreases s.len(),
{
    if i < s.len() - 1 {
        assert(s.drop_last()[i] == s[i]);
        lemma_fields_self_equal(s.drop_last(), i);
    }
}

pub proof fn lemma_lookup_own_key(xs: Seq<(Seq<char>, V)>, i: int)
    requires
        sorted_keys(xs),
        0 <= i < xs.len(),
    ensures
        lookup(xs, xs[i].0) == Some(xs[i].1),
{
    assert forall|j: int| 0 <= j < i implies (#[trigger] xs[j]).0 != xs[i].0 by {
        assert(key_lt(xs[j].0, xs[i].0));
        if xs[j].0 == xs[i].0 {
            lemma_key_lt_irreflexive(xs[i].0);
        }
    }
    lemma_lookup_first(xs, xs[i].0, i);
}

proof fn lemma_removals_self(p: Seq<Seg>, s: Seq<(Seq<char>, V)>, ys: Seq<(Seq<char>, V)>)
    requires
        forall|i: int| 0 <= i < s.len() ==> lookup(ys, (#[trigger] s[i]).0) is Some,
    ensures
        removals(p, s, ys) == Seq::<VOp>::empty(),
    decreases s.len(),
{
    if s.len() > 0 {
        let t = s.drop_last();
        assert forall|i: int| 0 <= i < t.len() implies lookup(ys, (#[trigger] t[i]).0) is Some by {
            assert(t[i] == s[i]);
        }
        lemma_removals_self(p, t, ys);
        assert(lookup(ys, s[s.len() - 1].0) is Some);
        assert(Seq::<VOp>::empty() + Seq::<VOp>::empty() =~= Seq::<VOp>::empty());
    }
}

proof fn lemma_diff_self(p: Seq<Seg>, v: V)
    requires
        self_equal(v),
    ensures
        diff_at(p, v, v) == Some(Seq::<VOp>::empty()),
    decreases v, 0nat,
{
    match v {
        V::Object(xs) => {
            assert forall|i: int| 0 <= i < xs.len() implies lookup(xs, (#[trigger] xs[i]).0) is Some by {
                lemma_lookup_own_key(xs, i);
            }
            lemma_removals_self(p, xs, xs);
            lemma_diff_fields_self(p, xs, xs.len());
            assert(Seq::<VOp>::empty() + Seq::<VOp>::empty() =~= Seq::<VOp>::empty());
        },
        V::Array(xs) => {
            lemma_diff_items_self(p, xs, xs.len());
            assert(Seq::<VOp>::empty() + Seq::<VOp>::empty() =~= Seq::<VOp>::empty());
        },
        V::I64(_) => {},
        _ => {},
    }
}

proof fn lemma_diff_fields_self(p: Seq<Seg>, xs: Seq<(Seq<char>, V)>, n: nat)
    requires
        sorted_keys(xs),
        fields_self_equal(xs),
        n <= xs.len(),
    ensures
        diff_fields(p, xs, xs, n) == Some(Seq::<VOp>::empty()),
    decreases xs, n,
{
    if n > 0 {
        lemma_diff_fields_self(p, xs, (n - 1) as nat);
        let j = n - 1;
        lemma_lookup_own_key(xs, j);
        lemma_fields_self_equal(xs, j);
        assert(decreases_to!(xs => xs[j]));
        lemma_diff_self(p.push(Seg::Key(xs[j].0)), xs[j].1);
        assert(Seq::<VOp>::empty() + Seq::<VOp>::empty() =~= Seq::<VOp>::empty());
    }
}

proof fn lemma_diff_items_self(p: Seq<Seg>, xs: Seq<V>, n: nat)
    requires
        items_self_equal(xs),
        n <= xs.len(),
    ensures
        diff_items(p, xs, xs, n) == Some(Seq::<VOp>::empty()),
    decreases xs, n,
{
    if n > 0 {
        lemma_diff_items_self(p, xs, (n - 1) as nat);
        let j = n - 1;
        lemma_items_self_equal(xs, j);
        assert(decreases_to!(xs => xs[j]));
        lemma_diff_self(p.push(Seg::Index(j as usize)), xs[j]);
        assert(Seq::<VOp>::empty() + Seq::<VOp>::empty() =~= Seq::<VOp>::empty());
    }
}

/// The diff of a value with itself is empty, when every part of it equals
/// itself and its objects' keys are distinct.
pub proof fn law_diff_self_empty(v: V)
    requires
        self_equal(v),
    ensures
        diff_at(Seq::empty(), v, v) == Some(Seq::<VOp>::empty()),
{
    lemma_diff_self(Seq::empty(), v);
}



} // verus!
