//! Applying a computed diff: the operations that `diff` produces, applied in
//! order to the first value, rebuild the second.
use crate::delta::{
    act_on, appends, bare_op, diff_at, diff_fields, diff_items, lemma_all_sorted_objects, lemma_entries_sorted_objects,
    lemma_lookup_member, lemma_lookup_own_key, modify, op_outcome, ops_outcome, removals, removes_from_end, set_at,
    sorted_objects, value_at, value_op, Act, Fault,
};
use crate::equality::veq;
use crate::error::SxErrorCode;
use crate::fields::{insert_entry, lookup};
use crate::fields::{has_key, lemma_lookup_index, lemma_sorted_tail, remove_entry};
use crate::keys::{key_lt, lemma_key_lt_asym, lemma_key_lt_irreflexive, lemma_key_lt_total, sorted_keys};
use crate::value_ops::lemma_lookup_none;
use crate::path::Seg;
use crate::value::{DeltaOpKind, V, VOp};
use vstd::prelude::*;

verus! {

// ---------------------------------------------------------------------------
// Replacing the part of a value at a path
// ---------------------------------------------------------------------------

/// The value `v` with the part that `p[d..]` designates replaced by `x`;
/// `v` itself where the path leads nowhere.
pub open spec fn put_at(v: V, p: Seq<Seg>, d: int, x: V) -> V
    decreases p.len() - d,
{
    if d >= p.len() {
        x
    } else {
        match (v, p[d]) {
            (V::Object(fs), Seg::Key(k)) => match lookup(fs, k) {
                Some(c) => V::Object(insert_entry(fs, k, put_at(c, p, d + 1, x))),
                None => v,
            },
            (V::Array(xs), Seg::Index(i)) => if i < xs.len() {
                V::Array(xs.update(i as int, put_at(xs[i as int], p, d + 1, x)))
            } else {
                v
            },
            _ => v,
        }
    }
}

/// The child of `t` that one segment designates.
pub open spec fn child(t: V, s: Seg) -> Result<V, SxErrorCode> {
    match (t, s) {
        (V::Object(fs), Seg::Key(k)) => match lookup(fs, k) {
            Some(c) => Ok(c),
            None => Err(SxErrorCode::InvalidPath),
        },
        (V::Array(xs), Seg::Index(i)) => if i < xs.len() {
            Ok(xs[i as int])
        } else {
            Err(SxErrorCode::InvalidPath)
        },
        _ => Err(SxErrorCode::InvalidPath),
    }
}

/// Inserting twice under one key keeps the second value only.
pub proof fn lemma_insert_twice<T>(s: Seq<(Seq<char>, T)>, k: Seq<char>, x: T, y: T)
    ensures
        insert_entry(insert_entry(s, k, x), k, y) == insert_entry(s, k, y),
    decreases s.len(),
{
    if s.len() == 0 {
        assert(seq![(k, x)].update(0, (k, y)) =~= seq![(k, y)]);
    } else if s[0].0 == k {
        assert(s.update(0, (k, x)).update(0, (k, y)) =~= s.update(0, (k, y)));
    } else if key_lt(k, s[0].0) {
        let r = seq![(k, x)] + s;
        assert(r[0].0 == k);
        assert(r.update(0, (k, y)) =~= seq![(k, y)] + s);
    } else {
        let t = s.drop_first();
        lemma_insert_twice(t, k, x, y);
        let r = seq![s[0]] + insert_entry(t, k, x);
        assert(r[0] == s[0]);
        assert(r.drop_first() =~= insert_entry(t, k, x));
    }
}

/// Reading one segment further down a path.
pub proof fn lemma_value_push(v: V, p: Seq<Seg>, s: Seg, d: int)
    requires
        0 <= d <= p.len(),
    ensures
        value_at(v, p.push(s), d) == match value_at(v, p, d) {
            Ok(t) => child(t, s),
            Err(c) => Err(c),
        },
    decreases p.len() - d,
{
    let q = p.push(s);
    if d < p.len() {
        assert(q[d] == p[d]);
        match (v, p[d]) {
            (V::Object(fs), Seg::Key(k)) => match lookup(fs, k) {
                Some(c) => lemma_value_push(c, p, s, d + 1),
                None => {},
            },
            (V::Array(xs), Seg::Index(i)) => if i < xs.len() {
                lemma_value_push(xs[i as int], p, s, d + 1);
            },
            _ => {},
        }
    } else {
        assert(q[d] == s);
        match (v, s) {
            (V::Object(fs), Seg::Key(k)) => match lookup(fs, k) {
                Some(c) => assert(value_at(c, q, d + 1) == Ok::<V, SxErrorCode>(c)),
                None => {},
            },
            (V::Array(xs), Seg::Index(i)) => if i < xs.len() {
                assert(value_at(xs[i as int], q, d + 1) == Ok::<V, SxErrorCode>(xs[i as int]));
            },
            _ => {},
        }
    }
}

/// Reading back what was put at a path.
pub proof fn lemma_value_put(v: V, p: Seq<Seg>, d: int, x: V)
    requires
        0 <= d,
        value_at(v, p, d) is Ok,
    ensures
        value_at(put_at(v, p, d, x), p, d) == Ok::<V, SxErrorCode>(x),
    decreases p.len() - d,
{
    if d < p.len() {
        match (v, p[d]) {
            (V::Object(fs), Seg::Key(k)) => {
                let c = lookup(fs, k)->Some_0;
                lemma_value_put(c, p, d + 1, x);
                crate::delta::lemma_lookup_insert(fs, k, put_at(c, p, d + 1, x));
            },
            (V::Array(xs), Seg::Index(i)) => {
                lemma_value_put(xs[i as int], p, d + 1, x);
            },
            _ => {},
        }
    }
}

/// Putting twice at one path keeps the second value only.
pub proof fn lemma_put_put(v: V, p: Seq<Seg>, d: int, x: V, y: V)
    requires
        0 <= d,
        value_at(v, p, d) is Ok,
    ensures
        put_at(put_at(v, p, d, x), p, d, y) == put_at(v, p, d, y),
    decreases p.len() - d,
{
    if d < p.len() {
        match (v, p[d]) {
            (V::Object(fs), Seg::Key(k)) => {
                let c = lookup(fs, k)->Some_0;
                let c1 = put_at(c, p, d + 1, x);
                lemma_put_put(c, p, d + 1, x, y);
                crate::delta::lemma_lookup_insert(fs, k, c1);
                lemma_insert_twice(fs, k, c1, put_at(c1, p, d + 1, y));
            },
            (V::Array(xs), Seg::Index(i)) => {
                lemma_put_put(xs[i as int], p, d + 1, x, y);
                let c1 = put_at(xs[i as int], p, d + 1, x);
                assert(xs.update(i as int, c1).update(i as int, put_at(c1, p, d + 1, y)) =~= xs.update(
                    i as int,
                    put_at(xs[i as int], p, d + 1, y),
                ));
            },
            _ => {},
        }
    }
}

/// Modifying along a path acts on the part the path designates and puts the
/// result back.
pub proof fn lemma_modify_frame(v: V, q: Seq<Seg>, d: int, e: int, a: Act)
    requires
        0 <= d <= e <= q.len(),
        value_at(v, q.take(e), d) is Ok,
    ensures
        modify(v, q, d, e, a) == match act_on(value_at(v, q.take(e), d)->Ok_0, a) {
            Ok(t) => Ok::<V, Fault>(put_at(v, q.take(e), d, t)),
            Err(f) => Err(f),
        },
    decreases e - d,
{
    if d < e {
        let p = q.take(e);
        assert(p[d] == q[d]);
        match (v, q[d]) {
            (V::Object(fs), Seg::Key(k)) => {
                let c = lookup(fs, k)->Some_0;
                lemma_modify_frame(c, q, d + 1, e, a);
            },
            (V::Array(xs), Seg::Index(i)) => {
                lemma_modify_frame(xs[i as int], q, d + 1, e, a);
            },
            _ => {},
        }
    }
}

/// Putting one segment further down a path sets a child of the part the
/// shorter path designates.
pub proof fn lemma_put_push(v: V, p: Seq<Seg>, s: Seg, d: int, x: V)
    requires
        0 <= d <= p.len(),
        value_at(v, p.push(s), d) is Ok,
    ensures
        value_at(v, p, d) is Ok,
        act_on(value_at(v, p, d)->Ok_0, Act::SetChild(s, x)) is Ok,
        put_at(v, p.push(s), d, x) == put_at(
            v,
            p,
            d,
            act_on(value_at(v, p, d)->Ok_0, Act::SetChild(s, x))->Ok_0,
        ),
    decreases p.len() - d,
{
    let q = p.push(s);
    lemma_value_push(v, p, s, d);
    if d < p.len() {
        assert(q[d] == p[d]);
        match (v, p[d]) {
            (V::Object(fs), Seg::Key(k)) => {
                let c = lookup(fs, k)->Some_0;
                lemma_put_push(c, p, s, d + 1, x);
            },
            (V::Array(xs), Seg::Index(i)) => {
                lemma_put_push(xs[i as int], p, s, d + 1, x);
            },
            _ => {},
        }
    } else {
        assert(q[d] == s);
        assert(put_at(x, q, d + 1, x) == x);
        match (v, s) {
            (V::Object(fs), Seg::Key(k)) => {
                let c = lookup(fs, k)->Some_0;
                assert(put_at(c, q, d + 1, x) == x);
            },
            (V::Array(xs), Seg::Index(i)) => {
                assert(put_at(xs[i as int], q, d + 1, x) == x);
            },
            _ => {},
        }
    }
}

/// Setting the value at a path that leads somewhere puts it there.
pub proof fn lemma_set_at_put(v: V, q: Seq<Seg>, x: V)
    requires
        value_at(v, q, 0) is Ok,
    ensures
        set_at(v, q, x) == Ok::<V, Fault>(put_at(v, q, 0, x)),
{
    if q.len() > 0 {
        let p = q.drop_last();
        let s = q.last();
        assert(p.push(s) =~= q);
        assert(q.take(p.len() as int) =~= p);
        lemma_put_push(v, p, s, 0, x);
        lemma_modify_frame(v, q, 0, p.len() as int, Act::SetChild(s, x));
    }
}

/// Applying two runs of operations one after the other.
pub proof fn lemma_ops_concat(v: V, a: Seq<VOp>, b: Seq<VOp>)
    ensures
        ops_outcome(v, a + b) == match ops_outcome(v, a) {
            Ok(w) => ops_outcome(w, b),
            Err(f) => Err(f),
        },
    decreases b.len(),
{
    if b.len() == 0 {
        assert(a + b =~= a);
    } else {
        lemma_ops_concat(v, a, b.drop_last());
        assert((a + b).drop_last() =~= a + b.drop_last());
        assert((a + b).last() == b.last());
    }
}


// ---------------------------------------------------------------------------
// Keyed entries
// ---------------------------------------------------------------------------

/// In sorted entries no key below the first is present.
pub proof fn lemma_lookup_below_first<T>(s: Seq<(Seq<char>, T)>, k: Seq<char>)
    requires
        sorted_keys(s),
        s.len() > 0,
        key_lt(k, s[0].0),
    ensures
        lookup(s, k) is None,
{
    assert forall|j: int| 0 <= j < s.len() implies (#[trigger] s[j]).0 != k by {
        if s[j].0 == k {
            if j == 0 {
                lemma_key_lt_irreflexive(k);
            } else {
                assert(key_lt(s[0].0, s[j].0));
                lemma_key_lt_asym(k, s[0].0);
            }
        }
    }
    lemma_lookup_none(s, k);
}

/// Inserting the value a key already has changes nothing.
pub proof fn lemma_insert_same<T>(s: Seq<(Seq<char>, T)>, k: Seq<char>, c: T)
    requires
        sorted_keys(s),
        lookup(s, k) == Some(c),
    ensures
        insert_entry(s, k, c) == s,
    decreases s.len(),
{
    if s[0].0 == k {
        assert(s.update(0, (k, c)) =~= s);
    } else if key_lt(k, s[0].0) {
        lemma_lookup_below_first(s, k);
    } else {
        let t = s.drop_first();
        lemma_sorted_tail(s);
        lemma_insert_same(t, k, c);
        assert(seq![s[0]] + t =~= s);
    }
}

/// Inserting under one key leaves the lookup of another as it was.
pub proof fn lemma_lookup_insert_other<T>(s: Seq<(Seq<char>, T)>, k: Seq<char>, x: T, j: Seq<char>)
    requires
        j != k,
    ensures
        lookup(insert_entry(s, k, x), j) == lookup(s, j),
    decreases s.len(),
{
    if s.len() > 0 && s[0].0 != k && !key_lt(k, s[0].0) {
        lemma_lookup_insert_other(s.drop_first(), k, x, j);
        assert((seq![s[0]] + insert_entry(s.drop_first(), k, x)).drop_first() =~= insert_entry(
            s.drop_first(),
            k,
            x,
        ));
    } else if s.len() > 0 && s[0].0 == k {
        assert(s.update(0, (k, x)).drop_first() =~= s.drop_first());
    } else if s.len() > 0 {
        assert((seq![(k, x)] + s).drop_first() =~= s);
    } else {
        assert(seq![(k, x)].drop_first() =~= s);
    }
}

/// Removing a key from sorted entries keeps them sorted, drops that key and
/// keeps the others.
pub proof fn lemma_remove_sorted<T>(s: Seq<(Seq<char>, T)>, k: Seq<char>)
    requires
        sorted_keys(s),
    ensures
        sorted_keys(remove_entry(s, k)),
        lookup(remove_entry(s, k), k) is None,
        forall|j: Seq<char>| j != k ==> #[trigger] lookup(remove_entry(s, k), j) == lookup(s, j),
    decreases s.len(),
{
    if s.len() > 0 {
        let t = s.drop_first();
        lemma_sorted_tail(s);
        lemma_remove_sorted(t, k);
        if s[0].0 == k {
            if t.len() > 0 {
                assert(key_lt(s[0].0, s[1].0));
                assert(t[0] == s[1]);
                lemma_lookup_below_first(t, k);
            }
        } else {
            let r = remove_entry(t, k);
            let q = seq![s[0]] + r;
            assert(q.drop_first() =~= r);
            assert forall|j: Seq<char>| j != k implies #[trigger] lookup(q, j) == lookup(s, j) by {
                assert(lookup(r, j) == lookup(t, j));
            }
            assert forall|a: int, b: int| 0 <= a < b < q.len() implies key_lt(#[trigger] q[a].0, #[trigger] q[b].0) by {
                lemma_lookup_index(r, q[b].0);
                lemma_lookup_index(t, q[b].0);
                if a == 0 {
                    assert(r[b - 1] == q[b]);
                    if q[b].0 == k {
                        assert(lookup(r, k) is Some);
                    }
                    assert(lookup(r, q[b].0) == lookup(t, q[b].0));
                    assert(has_key(t, q[b].0));
                    let m = choose|m: int| 0 <= m < t.len() && #[trigger] t[m].0 == q[b].0;
                    assert(s[m + 1].0 == q[b].0);
                    assert(key_lt(s[0].0, s[m + 1].0));
                } else {
                    assert(q[a] == r[a - 1] && q[b] == r[b - 1]);
                }
            }
        }
    }
}

/// Sorted entries are determined by their lookups.
pub proof fn lemma_sorted_ext<T>(s: Seq<(Seq<char>, T)>, t: Seq<(Seq<char>, T)>)
    requires
        sorted_keys(s),
        sorted_keys(t),
        forall|k: Seq<char>| #[trigger] lookup(s, k) == lookup(t, k),
    ensures
        s == t,
    decreases s.len(),
{
    if s.len() == 0 {
        if t.len() > 0 {
            assert(lookup(t, t[0].0) is Some);
            assert(lookup(s, t[0].0) is None);
        }
        assert(s =~= t);
    } else if t.len() == 0 {
        assert(lookup(s, s[0].0) is Some);
        assert(lookup(t, s[0].0) is None);
    } else {
        let a = s[0].0;
        let b = t[0].0;
        lemma_key_lt_total(a, b);
        if key_lt(a, b) {
            lemma_lookup_below_first(t, a);
            assert(lookup(s, a) is Some);
        } else if key_lt(b, a) {
            lemma_lookup_below_first(s, b);
            assert(lookup(t, b) is Some);
        } else {
            assert(a == b);
            assert(lookup(s, a) == Some(s[0].1));
            assert(lookup(t, a) == Some(t[0].1));
            let s2 = s.drop_first();
            let t2 = t.drop_first();
            lemma_sorted_tail(s);
            lemma_sorted_tail(t);
            assert forall|k: Seq<char>| #[trigger] lookup(s2, k) == lookup(t2, k) by {
                if k == a {
                    if s2.len() > 0 {
                        assert(key_lt(s[0].0, s[1].0) && s2[0] == s[1]);
                        lemma_lookup_below_first(s2, k);
                    }
                    if t2.len() > 0 {
                        assert(key_lt(t[0].0, t[1].0) && t2[0] == t[1]);
                        lemma_lookup_below_first(t2, k);
                    }
                } else {
                    assert(lookup(s, k) == lookup(s2, k));
                    assert(lookup(t, k) == lookup(t2, k));
                }
            }
            lemma_sorted_ext(s2, t2);
            assert(s =~= seq![s[0]] + s2);
            assert(t =~= seq![t[0]] + t2);
        }
    }
}


// ---------------------------------------------------------------------------
// Single operations on a value put at a path
// ---------------------------------------------------------------------------

/// One operation run alone.
pub proof fn lemma_ops_single(v: V, op: VOp)
    ensures
        ops_outcome(v, seq![op]) == op_outcome(v, op),
{
    assert(seq![op].drop_last() =~= Seq::<VOp>::empty());
    assert(ops_outcome(v, Seq::<VOp>::empty()) == Ok::<V, Fault>(v));
}

/// Acting at `p`, or at a child of `p`, on the value put at `p`.
pub proof fn lemma_act_put(w: V, p: Seq<Seg>, q: Seq<Seg>, t: V, a: Act)
    requires
        value_at(w, p, 0) is Ok,
        p.len() <= q.len(),
        q.take(p.len() as int) == p,
    ensures
        modify(put_at(w, p, 0, t), q, 0, p.len() as int, a) == match act_on(t, a) {
            Ok(t2) => Ok::<V, Fault>(put_at(w, p, 0, t2)),
            Err(f) => Err(f),
        },
{
    let v = put_at(w, p, 0, t);
    lemma_value_put(w, p, 0, t);
    lemma_modify_frame(v, q, 0, p.len() as int, a);
    match act_on(t, a) {
        Ok(t2) => lemma_put_put(w, p, 0, t, t2),
        Err(_) => {},
    }
}

/// The entries left after removing, for each entry of `it` in order, its
/// key when `ys` lacks it.
pub open spec fn kept(fs: Seq<(Seq<char>, V)>, it: Seq<(Seq<char>, V)>, ys: Seq<(Seq<char>, V)>) -> Seq<
    (Seq<char>, V),
>
    decreases it.len(),
{
    if it.len() == 0 {
        fs
    } else {
        let c = kept(fs, it.drop_last(), ys);
        if lookup(ys, it.last().0) is None {
            remove_entry(c, it.last().0)
        } else {
            c
        }
    }
}

/// The removals of a diff remove the keys the target lacks.
pub proof fn lemma_removals_apply(
    w: V,
    p: Seq<Seg>,
    fs: Seq<(Seq<char>, V)>,
    it: Seq<(Seq<char>, V)>,
    ys: Seq<(Seq<char>, V)>,
)
    requires
        value_at(w, p, 0) is Ok,
    ensures
        ops_outcome(put_at(w, p, 0, V::Object(fs)), removals(p, it, ys)) == Ok::<V, Fault>(
            put_at(w, p, 0, V::Object(kept(fs, it, ys))),
        ),
    decreases it.len(),
{
    if it.len() > 0 {
        let v0 = put_at(w, p, 0, V::Object(fs));
        let k = it.last().0;
        let c = kept(fs, it.drop_last(), ys);
        lemma_removals_apply(w, p, fs, it.drop_last(), ys);
        if lookup(ys, k) is None {
            let op = bare_op(DeltaOpKind::Remove, p.push(Seg::Key(k)));
            lemma_ops_concat(v0, removals(p, it.drop_last(), ys), seq![op]);
            lemma_ops_single(put_at(w, p, 0, V::Object(c)), op);
            let q = p.push(Seg::Key(k));
            assert(q.take(p.len() as int) =~= p);
            assert(q.last() == Seg::Key(k));
            lemma_act_put(w, p, q, V::Object(c), Act::RemoveChild(Seg::Key(k)));
        } else {
            lemma_ops_concat(v0, removals(p, it.drop_last(), ys), Seq::<VOp>::empty());
            assert(removals(p, it.drop_last(), ys) + Seq::<VOp>::empty() =~= removals(p, it.drop_last(), ys));
        }
    }
}

/// What stays after the removals: sorted entries, the source's value for
/// every key the target has, none for a removed key.
pub proof fn lemma_kept(xs: Seq<(Seq<char>, V)>, ys: Seq<(Seq<char>, V)>, m: int)
    requires
        sorted_keys(xs),
        0 <= m <= xs.len(),
    ensures
        sorted_keys(kept(xs, xs.take(m), ys)),
        forall|k: Seq<char>| (#[trigger] lookup(kept(xs, xs.take(m), ys), k)) is Some ==> lookup(kept(xs, xs.take(m), ys), k) == lookup(xs, k),
        forall|k: Seq<char>| (#[trigger] lookup(ys, k)) is Some ==> lookup(kept(xs, xs.take(m), ys), k) == lookup(xs, k),
        forall|i: int| 0 <= i < m && lookup(ys, (#[trigger] xs[i]).0) is None ==> lookup(kept(xs, xs.take(m), ys), xs[i].0) is None,
    decreases m,
{
    let it = xs.take(m);
    if m == 0 {
        assert(kept(xs, it, ys) == xs);
    } else {
        lemma_kept(xs, ys, m - 1);
        assert(it.drop_last() =~= xs.take(m - 1));
        assert(it.last() == xs[m - 1]);
        let c = kept(xs, xs.take(m - 1), ys);
        let k = xs[m - 1].0;
        if lookup(ys, k) is None {
            lemma_remove_sorted(c, k);
            let r = remove_entry(c, k);
            assert forall|j: Seq<char>| (#[trigger] lookup(r, j)) is Some implies lookup(r, j) == lookup(xs, j) by {
                if j != k {
                    assert(lookup(r, j) == lookup(c, j));
                }
            }
            assert forall|j: Seq<char>| (#[trigger] lookup(ys, j)) is Some implies lookup(r, j) == lookup(xs, j) by {
                assert(j != k);
                assert(lookup(r, j) == lookup(c, j));
            }
            assert forall|i: int| 0 <= i < m && lookup(ys, (#[trigger] xs[i]).0) is None implies lookup(r, xs[i].0) is None by {
                if i < m - 1 {
                    assert(key_lt(xs[i].0, xs[m - 1].0));
                    if xs[i].0 == k {
                        lemma_key_lt_irreflexive(k);
                    }
                    assert(lookup(r, xs[i].0) == lookup(c, xs[i].0));
                }
            }
        } else {
            assert forall|i: int| 0 <= i < m && lookup(ys, (#[trigger] xs[i]).0) is None implies lookup(c, xs[i].0) is None by {
                if i == m - 1 {
                    assert(false);
                }
            }
        }
    }
}

/// The entries after inserting the first `n` entries of `ys`, in order.
pub open spec fn filled(start: Seq<(Seq<char>, V)>, ys: Seq<(Seq<char>, V)>, n: nat) -> Seq<(Seq<char>, V)>
    decreases n,
{
    if n == 0 || n > ys.len() {
        start
    } else {
        insert_entry(filled(start, ys, (n - 1) as nat), ys[n - 1].0, ys[n - 1].1)
    }
}

/// After the insertions: sorted, the inserted keys hold their values, the
/// others hold what they held.
pub proof fn lemma_filled(start: Seq<(Seq<char>, V)>, ys: Seq<(Seq<char>, V)>, n: nat)
    requires
        sorted_keys(start),
        sorted_keys(ys),
        n <= ys.len(),
    ensures
        sorted_keys(filled(start, ys, n)),
        forall|i: int| 0 <= i < n ==> lookup(filled(start, ys, n), (#[trigger] ys[i]).0) == Some(ys[i].1),
        forall|k: Seq<char>| (forall|i: int| 0 <= i < n ==> (#[trigger] ys[i]).0 != k) ==> #[trigger] lookup(filled(start, ys, n), k) == lookup(start, k),
    decreases n,
{
    if n > 0 {
        let f = filled(start, ys, (n - 1) as nat);
        let k = ys[n - 1].0;
        lemma_filled(start, ys, (n - 1) as nat);
        crate::parser::lemma_insert_keeps_keys_sorted(f, k, ys[n - 1].1);
        crate::delta::lemma_lookup_insert(f, k, ys[n - 1].1);
        assert forall|i: int| 0 <= i < n implies lookup(filled(start, ys, n), (#[trigger] ys[i]).0) == Some(ys[i].1) by {
            if i < n - 1 {
                assert(key_lt(ys[i].0, k));
                if ys[i].0 == k {
                    lemma_key_lt_irreflexive(k);
                }
                lemma_lookup_insert_other(f, k, ys[n - 1].1, ys[i].0);
            }
        }
        assert forall|j: Seq<char>| (forall|i: int| 0 <= i < n ==> (#[trigger] ys[i]).0 != j) implies #[trigger] lookup(filled(start, ys, n), j) == lookup(start, j) by {
            assert(ys[n - 1].0 != j);
            lemma_lookup_insert_other(f, k, ys[n - 1].1, j);
            assert forall|i: int| 0 <= i < n - 1 implies (#[trigger] ys[i]).0 != j by {
                assert(ys[i].0 != j);
            }
        }
    }
}

/// Appending values one at a time.
pub proof fn lemma_appends_apply(w: V, p: Seq<Seg>, s: Seq<V>, zs: Seq<V>)
    requires
        value_at(w, p, 0) is Ok,
    ensures
        ops_outcome(put_at(w, p, 0, V::Array(s)), appends(p, zs)) == Ok::<V, Fault>(put_at(w, p, 0, V::Array(s + zs))),
    decreases zs.len(),
{
    if zs.len() == 0 {
        assert(appends(p, zs) =~= Seq::<VOp>::empty());
        assert(s + zs =~= s);
    } else {
        let z0 = zs.drop_last();
        lemma_appends_apply(w, p, s, z0);
        let op = value_op(DeltaOpKind::Append, p, zs.last());
        assert(appends(p, zs) =~= appends(p, z0) + seq![op]);
        lemma_ops_concat(put_at(w, p, 0, V::Array(s)), appends(p, z0), seq![op]);
        lemma_ops_single(put_at(w, p, 0, V::Array(s + z0)), op);
        assert(p.take(p.len() as int) =~= p);
        lemma_act_put(w, p, p, V::Array(s + z0), Act::Append(zs.last()));
        assert((s + z0).push(zs.last()) =~= s + zs);
    }
}

/// Removing the positions from the end down to `lo`.
pub proof fn lemma_removes_apply(w: V, p: Seq<Seg>, s: Seq<V>, lo: int, hi: int)
    requires
        value_at(w, p, 0) is Ok,
        0 <= lo <= hi <= usize::MAX,
        s.len() == hi,
    ensures
        ops_outcome(put_at(w, p, 0, V::Array(s)), removes_from_end(p, lo, hi)) == Ok::<V, Fault>(
            put_at(w, p, 0, V::Array(s.take(lo))),
        ),
    decreases hi - lo,
{
    if lo == hi {
        assert(removes_from_end(p, lo, hi) =~= Seq::<VOp>::empty());
        assert(s.take(lo) =~= s);
    } else {
        lemma_removes_apply(w, p, s, lo + 1, hi);
        let q = p.push(Seg::Index(lo as usize));
        let op = bare_op(DeltaOpKind::Remove, q);
        assert(removes_from_end(p, lo, hi) =~= removes_from_end(p, lo + 1, hi) + seq![op]);
        lemma_ops_concat(put_at(w, p, 0, V::Array(s)), removes_from_end(p, lo + 1, hi), seq![op]);
        lemma_ops_single(put_at(w, p, 0, V::Array(s.take(lo + 1))), op);
        assert(q.take(p.len() as int) =~= p);
        assert(q.last() == Seg::Index(lo as usize));
        lemma_act_put(w, p, q, V::Array(s.take(lo + 1)), Act::RemoveChild(Seg::Index(lo as usize)));
        assert(s.take(lo + 1).remove(lo) =~= s.take(lo));
    }
}


// ---------------------------------------------------------------------------
// Diff, then apply
// ---------------------------------------------------------------------------

/// The pairs of parts that a diff of `a` against `b` compares are such that
/// two leaves that compare equal are identical, and every array of `a` that
/// is compared with an array has a length that fits in `usize`.
pub open spec fn diff_exact(a: V, b: V) -> bool
    decreases a, 0nat,
{
    match (a, b) {
        (V::Object(xs), V::Object(ys)) => fields_exact(xs, ys, ys.len()),
        (V::Array(xs), V::Array(ys)) => xs.len() <= usize::MAX && items_exact(
            xs,
            ys,
            if xs.len() < ys.len() {
                xs.len()
            } else {
                ys.len()
            },
        ),
        (V::I64(_), V::I64(_)) => true,
        _ => veq(a, b) ==> a == b,
    }
}

/// `diff_exact` for the values under the first `n` keys of `ys` that `xs`
/// has too.
pub open spec fn fields_exact(xs: Seq<(Seq<char>, V)>, ys: Seq<(Seq<char>, V)>, n: nat) -> bool
    decreases xs, n,
{
    if n == 0 || n > ys.len() {
        true
    } else {
        fields_exact(xs, ys, (n - 1) as nat) && match lookup(xs, ys[n - 1].0) {
            Some(c) => {
                proof {
                    lemma_lookup_member(xs, ys[n - 1].0);
                    let j = choose|j: int| 0 <= j < xs.len() && xs[j].1 == c;
                    assert(decreases_to!(xs => xs[j]));
                }
                diff_exact(c, ys[n - 1].1)
            },
            None => true,
        }
    }
}

/// `diff_exact` for the first `n` positions of two arrays.
pub open spec fn items_exact(xs: Seq<V>, ys: Seq<V>, n: nat) -> bool
    decreases xs, n,
{
    if n == 0 || n > xs.len() || n > ys.len() {
        true
    } else {
        items_exact(xs, ys, (n - 1) as nat) && diff_exact(xs[n - 1], ys[n - 1])
    }
}


/// Removing the keys the target lacks, then inserting the target's entries,
/// gives the target's entries.
proof fn lemma_object_rebuilt(xs: Seq<(Seq<char>, V)>, ys: Seq<(Seq<char>, V)>)
    requires
        sorted_keys(xs),
        sorted_keys(ys),
    ensures
        filled(kept(xs, xs, ys), ys, ys.len()) == ys,
{
    assert(xs.take(xs.len() as int) =~= xs);
    lemma_kept(xs, ys, xs.len() as int);
    let kk = kept(xs, xs, ys);
    lemma_filled(kk, ys, ys.len());
    let f = filled(kk, ys, ys.len());
    assert forall|k: Seq<char>| #[trigger] lookup(f, k) == lookup(ys, k) by {
        lemma_lookup_index(ys, k);
        if has_key(ys, k) {
            let i = choose|i: int| 0 <= i < ys.len() && #[trigger] ys[i].0 == k;
            assert(lookup(f, ys[i].0) == Some(ys[i].1));
        } else {
            assert forall|i: int| 0 <= i < ys.len() implies (#[trigger] ys[i]).0 != k by {
                if ys[i].0 == k {
                    assert(has_key(ys, k));
                }
            }
            assert(lookup(f, k) == lookup(kk, k));
            lemma_lookup_index(xs, k);
            if has_key(xs, k) {
                let i = choose|i: int| 0 <= i < xs.len() && #[trigger] xs[i].0 == k;
                assert(lookup(kk, xs[i].0) is None);
            } else if lookup(kk, k) is Some {
                assert(lookup(kk, k) == lookup(xs, k));
            }
        }
    }
    lemma_sorted_ext(f, ys);
}

#[verifier::spinoff_prover]
#[verifier::rlimit(40)]
proof fn lemma_diff_apply_at(w: V, p: Seq<Seg>, a: V, b: V)
    requires
        value_at(w, p, 0) is Ok,
        sorted_objects(a),
        sorted_objects(b),
        diff_exact(a, b),
        diff_at(p, a, b) is Some,
    ensures
        ops_outcome(put_at(w, p, 0, a), diff_at(p, a, b)->Some_0) == Ok::<V, Fault>(put_at(w, p, 0, b)),
    decreases a, 0nat,
{
    let v = put_at(w, p, 0, a);
    let ops = diff_at(p, a, b)->Some_0;
    lemma_value_put(w, p, 0, a);
    assert(ops_outcome(v, Seq::<VOp>::empty()) == Ok::<V, Fault>(v));
    match (a, b) {
        (V::Object(xs), V::Object(ys)) => {
            let rm = removals(p, xs, ys);
            assert(diff_fields(p, xs, ys, ys.len()) is Some);
            let fd = diff_fields(p, xs, ys, ys.len())->Some_0;
            assert(ops == rm + fd);
            lemma_ops_concat(v, rm, fd);
            lemma_removals_apply(w, p, xs, xs, ys);
            assert(xs.take(xs.len() as int) =~= xs);
            let kk = kept(xs, xs, ys);
            lemma_kept(xs, ys, xs.len() as int);
            lemma_entries_sorted_objects(xs);
            lemma_entries_sorted_objects(ys);
            lemma_diff_apply_fields(w, p, xs, ys, ys.len(), kk);
            lemma_object_rebuilt(xs, ys);
        },
        (V::Array(xs), V::Array(ys)) => {
            let m: nat = if xs.len() < ys.len() {
                xs.len()
            } else {
                ys.len()
            };
            assert(diff_items(p, xs, ys, m) is Some);
            let it = diff_items(p, xs, ys, m)->Some_0;
            lemma_all_sorted_objects(xs);
            lemma_all_sorted_objects(ys);
            lemma_diff_apply_items(w, p, xs, ys, m);
            let cur = ys.take(m as int) + xs.skip(m as int);
            if ys.len() > xs.len() {
                let zs = ys.subrange(xs.len() as int, ys.len() as int);
                lemma_ops_concat(v, it, appends(p, zs));
                lemma_appends_apply(w, p, cur, zs);
                assert(cur + zs =~= ys);
            } else if xs.len() > ys.len() {
                lemma_ops_concat(v, it, removes_from_end(p, ys.len() as int, xs.len() as int));
                lemma_removes_apply(w, p, cur, ys.len() as int, xs.len() as int);
                assert(cur.take(ys.len() as int) =~= ys);
            } else {
                lemma_ops_concat(v, it, Seq::<VOp>::empty());
                assert(it + Seq::<VOp>::empty() =~= it);
                assert(cur =~= ys);
            }
        },
        (V::I64(x), V::I64(y)) => {
            assert(p.take(p.len() as int) =~= p);
            if y > x {
                let op = value_op(DeltaOpKind::Increment, p, V::I64((y - x) as i64));
                lemma_ops_single(v, op);
                lemma_act_put(w, p, p, a, Act::Add(true, (y - x) as i64));
            } else if y < x {
                let op = value_op(DeltaOpKind::Decrement, p, V::I64((x - y) as i64));
                lemma_ops_single(v, op);
                lemma_act_put(w, p, p, a, Act::Add(false, (x - y) as i64));
            }
        },
        _ => {
            if !veq(a, b) {
                let op = value_op(DeltaOpKind::Replace, p, b);
                lemma_ops_single(v, op);
                lemma_set_at_put(v, p, b);
                lemma_put_put(w, p, 0, a, b);
            }
        },
    }
}

proof fn lemma_diff_apply_fields(
    w: V,
    p: Seq<Seg>,
    xs: Seq<(Seq<char>, V)>,
    ys: Seq<(Seq<char>, V)>,
    n: nat,
    kk: Seq<(Seq<char>, V)>,
)
    requires
        value_at(w, p, 0) is Ok,
        sorted_keys(xs),
        sorted_keys(ys),
        forall|i: int| 0 <= i < xs.len() ==> #[trigger] sorted_objects(xs[i].1),
        forall|i: int| 0 <= i < ys.len() ==> #[trigger] sorted_objects(ys[i].1),
        fields_exact(xs, ys, n),
        diff_fields(p, xs, ys, n) is Some,
        n <= ys.len(),
        sorted_keys(kk),
        forall|k: Seq<char>| (#[trigger] lookup(ys, k)) is Some ==> lookup(kk, k) == lookup(xs, k),
    ensures
        ops_outcome(put_at(w, p, 0, V::Object(kk)), diff_fields(p, xs, ys, n)->Some_0) == Ok::<V, Fault>(
            put_at(w, p, 0, V::Object(filled(kk, ys, n))),
        ),
    decreases xs, n,
{
    let v0 = put_at(w, p, 0, V::Object(kk));
    if n == 0 {
        assert(ops_outcome(v0, Seq::<VOp>::empty()) == Ok::<V, Fault>(v0));
    } else {
        let k = ys[n - 1].0;
        let y = ys[n - 1].1;
        let i0 = n - 1;
        lemma_diff_apply_fields(w, p, xs, ys, (n - 1) as nat, kk);
        let f = filled(kk, ys, (n - 1) as nat);
        lemma_filled(kk, ys, (n - 1) as nat);
        assert forall|i: int| 0 <= i < n - 1 implies (#[trigger] ys[i]).0 != k by {
            assert(key_lt(ys[i].0, ys[i0].0));
            if ys[i].0 == k {
                lemma_key_lt_irreflexive(k);
            }
        }
        assert(lookup(f, k) == lookup(kk, k));
        lemma_lookup_own_key(ys, i0);
        assert(lookup(kk, k) == lookup(xs, k));
        let prev = diff_fields(p, xs, ys, (n - 1) as nat)->Some_0;
        let q = p.push(Seg::Key(k));
        let w2 = put_at(w, p, 0, V::Object(f));
        lemma_value_put(w, p, 0, V::Object(f));
        lemma_put_put(w, p, 0, V::Object(f), V::Object(f));
        assert(sorted_objects(y));
        match lookup(xs, k) {
            Some(c) => {
                let step = diff_at(q, c, y)->Some_0;
                assert(diff_fields(p, xs, ys, n)->Some_0 == prev + step);
                lemma_ops_concat(v0, prev, step);
                lemma_value_push(w2, p, Seg::Key(k), 0);
                lemma_put_push(w2, p, Seg::Key(k), 0, c);
                lemma_insert_same(f, k, c);
                lemma_lookup_member(xs, k);
                let j = choose|j: int| 0 <= j < xs.len() && xs[j].1 == c;
                assert(sorted_objects(xs[j].1));
                assert(decreases_to!(xs => xs[j]));
                lemma_diff_apply_at(w2, q, c, y);
                lemma_put_push(w2, p, Seg::Key(k), 0, y);
                lemma_put_put(w, p, 0, V::Object(f), V::Object(insert_entry(f, k, y)));
            },
            None => {
                let op = value_op(DeltaOpKind::SetAt, q, y);
                assert(diff_fields(p, xs, ys, n)->Some_0 == prev + seq![op]);
                lemma_ops_concat(v0, prev, seq![op]);
                lemma_ops_single(w2, op);
                assert(q.take(p.len() as int) =~= p);
                assert(q.last() == Seg::Key(k));
                lemma_act_put(w, p, q, V::Object(f), Act::SetChild(Seg::Key(k), y));
            },
        }
    }
}

proof fn lemma_diff_apply_items(w: V, p: Seq<Seg>, xs: Seq<V>, ys: Seq<V>, n: nat)
    requires
        value_at(w, p, 0) is Ok,
        forall|i: int| 0 <= i < xs.len() ==> #[trigger] sorted_objects(xs[i]),
        forall|i: int| 0 <= i < ys.len() ==> #[trigger] sorted_objects(ys[i]),
        items_exact(xs, ys, n),
        diff_items(p, xs, ys, n) is Some,
        n <= xs.len(),
        n <= ys.len(),
        xs.len() <= usize::MAX,
    ensures
        ops_outcome(put_at(w, p, 0, V::Array(xs)), diff_items(p, xs, ys, n)->Some_0) == Ok::<V, Fault>(
            put_at(w, p, 0, V::Array(ys.take(n as int) + xs.skip(n as int))),
        ),
    decreases xs, n,
{
    let v0 = put_at(w, p, 0, V::Array(xs));
    if n == 0 {
        assert(ops_outcome(v0, Seq::<VOp>::empty()) == Ok::<V, Fault>(v0));
        assert(ys.take(0) + xs.skip(0) =~= xs);
    } else {
        let i: int = n - 1;
        lemma_diff_apply_items(w, p, xs, ys, (n - 1) as nat);
        let cur = ys.take(i) + xs.skip(i);
        let prev = diff_items(p, xs, ys, (n - 1) as nat)->Some_0;
        let q = p.push(Seg::Index(i as usize));
        let step = diff_at(q, xs[i], ys[i])->Some_0;
        assert(diff_items(p, xs, ys, n)->Some_0 == prev + step);
        lemma_ops_concat(v0, prev, step);
        let w2 = put_at(w, p, 0, V::Array(cur));
        lemma_value_put(w, p, 0, V::Array(cur));
        lemma_value_push(w2, p, Seg::Index(i as usize), 0);
        assert(cur[i] == xs[i]);
        lemma_put_push(w2, p, Seg::Index(i as usize), 0, xs[i]);
        assert(cur.update(i, xs[i]) =~= cur);
        lemma_put_put(w, p, 0, V::Array(cur), V::Array(cur));
        lemma_diff_apply_at(w2, q, xs[i], ys[i]);
        lemma_put_push(w2, p, Seg::Index(i as usize), 0, ys[i]);
        lemma_put_put(w, p, 0, V::Array(cur), V::Array(cur.update(i, ys[i])));
        assert(cur.update(i, ys[i]) =~= ys.take(n as int) + xs.skip(n as int));
    }
}

/// Applying the diff of two values to the first gives the second: for
/// values whose objects keep their keys sorted, where the diff is defined
/// (no `i64` difference leaves the range of `i64`) and the pairs it
/// compares meet `diff_exact`.
pub proof fn law_diff_then_apply(a: V, b: V)
    requires
        sorted_objects(a),
        sorted_objects(b),
        diff_exact(a, b),
        diff_at(Seq::empty(), a, b) is Some,
    ensures
        ops_outcome(a, diff_at(Seq::empty(), a, b)->Some_0) == Ok::<V, Fault>(b),
{
    let p = Seq::<Seg>::empty();
    assert(value_at(a, p, 0) == Ok::<V, SxErrorCode>(a));
    assert(put_at(a, p, 0, a) == a);
    assert(put_at(a, p, 0, b) == b);
    lemma_diff_apply_at(a, p, a, b);
}

} // verus!
