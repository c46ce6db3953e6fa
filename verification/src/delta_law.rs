//! What single delta operations do to the value they are applied to.
use crate::delta::{lemma_lookup_own_key, merge_entries, modify, op_outcome, value_at, Act, Fault};
use crate::diff_law::{lemma_lookup_insert_other, lemma_modify_frame, lemma_value_push, lemma_value_put, put_at};
use crate::fields::lookup;
use crate::keys::sorted_keys;
use crate::path::Seg;
use crate::value::{DeltaOpKind, V, VOp};
use vstd::prelude::*;

verus! {

/// A modification that succeeds ran along a path that leads somewhere.
pub proof fn lemma_modify_ok_reaches(v: V, q: Seq<Seg>, d: int, e: int, a: Act)
    requires
        0 <= d <= e <= q.len(),
        modify(v, q, d, e, a) is Ok,
    ensures
        value_at(v, q.take(e), d) is Ok,
    decreases e - d,
{
    if d < e {
        let p = q.take(e);
        assert(p[d] == q[d]);
        match (v, q[d]) {
            (V::Object(fs), Seg::Key(k)) => {
                lemma_modify_ok_reaches(lookup(fs, k)->Some_0, q, d + 1, e, a);
            },
            (V::Array(xs), Seg::Index(i)) => {
                lemma_modify_ok_reaches(xs[i as int], q, d + 1, e, a);
            },
            _ => {},
        }
    }
}

/// Looking past the last entry when its key is another.
pub proof fn lemma_lookup_drop_last<T>(s: Seq<(Seq<char>, T)>, k: Seq<char>)
    requires
        s.len() > 0,
        s.last().0 != k,
    ensures
        lookup(s, k) == lookup(s.drop_last(), k),
    decreases s.len(),
{
    if s.len() == 1 {
        assert(s.drop_first().len() == 0);
    } else if s[0].0 != k {
        let t = s.drop_first();
        lemma_lookup_drop_last(t, k);
        assert(t.drop_last() =~= s.drop_last().drop_first());
        assert(s.drop_last()[0] == s[0]);
    } else {
        assert(s.drop_last()[0] == s[0]);
    }
}

/// After merging `src` into `dst`, a key of `src` holds the value `src`
/// gives it; any other key holds what it held in `dst`.
pub proof fn lemma_merge_lookup(dst: Seq<(Seq<char>, V)>, src: Seq<(Seq<char>, V)>, k: Seq<char>)
    requires
        sorted_keys(src),
    ensures
        lookup(merge_entries(dst, src), k) == (if lookup(src, k) is Some {
            lookup(src, k)
        } else {
            lookup(dst, k)
        }),
    decreases src.len(),
{
    if src.len() > 0 {
        let t = src.drop_last();
        assert(sorted_keys(t)) by {
            assert forall|i: int, j: int| 0 <= i < j < t.len() implies crate::keys::key_lt(
                #[trigger] t[i].0,
                #[trigger] t[j].0,
            ) by {
                assert(t[i] == src[i] && t[j] == src[j]);
            }
        }
        lemma_merge_lookup(dst, t, k);
        let last = src.last();
        if last.0 == k {
            crate::delta::lemma_lookup_insert(merge_entries(dst, t), k, last.1);
            lemma_lookup_own_key(src, src.len() - 1);
        } else {
            lemma_lookup_insert_other(merge_entries(dst, t), last.0, last.1, k);
            lemma_lookup_drop_last(src, k);
        }
    }
}

/// After a `Merge` of the object `xs` at path `p` succeeds, every key of
/// `xs` holds, under `p`, the value `xs` gives it, and every other key under
/// `p` holds what it held before.
pub proof fn law_merge_sets_keys(v: V, op: VOp, xs: Seq<(Seq<char>, V)>)
    requires
        op.kind == DeltaOpKind::Merge,
        op.value == Some(V::Object(xs)),
        sorted_keys(xs),
        op_outcome(v, op) is Ok,
    ensures
        forall|k: Seq<char>|
            (#[trigger] lookup(xs, k)) is Some ==> value_at(
                op_outcome(v, op)->Ok_0,
                op.path.push(Seg::Key(k)),
                0,
            ) == Ok::<V, crate::error::SxErrorCode>(lookup(xs, k)->Some_0),
        forall|k: Seq<char>|
            (#[trigger] lookup(xs, k)) is None ==> value_at(op_outcome(v, op)->Ok_0, op.path.push(Seg::Key(k)), 0)
                == value_at(v, op.path.push(Seg::Key(k)), 0),
{
    let p = op.path;
    let a = Act::Merge(V::Object(xs));
    assert(p.take(p.len() as int) =~= p);
    lemma_modify_ok_reaches(v, p, 0, p.len() as int, a);
    lemma_modify_frame(v, p, 0, p.len() as int, a);
    let t = value_at(v, p, 0)->Ok_0;
    let dst = t->Object_0;
    let t2 = V::Object(merge_entries(dst, xs));
    let w = put_at(v, p, 0, t2);
    assert(op_outcome(v, op) == Ok::<V, Fault>(w));
    lemma_value_put(v, p, 0, t2);
    assert forall|k: Seq<char>| (#[trigger] lookup(xs, k)) is Some implies value_at(w, p.push(Seg::Key(k)), 0)
        == Ok::<V, crate::error::SxErrorCode>(lookup(xs, k)->Some_0) by {
        lemma_value_push(w, p, Seg::Key(k), 0);
        lemma_merge_lookup(dst, xs, k);
    }
    assert forall|k: Seq<char>| (#[trigger] lookup(xs, k)) is None implies value_at(w, p.push(Seg::Key(k)), 0)
        == value_at(v, p.push(Seg::Key(k)), 0) by {
        lemma_value_push(w, p, Seg::Key(k), 0);
        lemma_value_push(v, p, Seg::Key(k), 0);
        lemma_merge_lookup(dst, xs, k);
    }
}

} // verus!
