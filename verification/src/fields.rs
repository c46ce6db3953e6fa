//! Keyed entries in ascending key order: the representation of objects,
//! message fields and table columns.
use crate::keys::{key_less, key_lt, sorted_str_keys, str_equal, lemma_key_lt_asym, lemma_key_lt_irreflexive, lemma_key_lt_total, lemma_key_lt_transitive, sorted_keys};
use crate::value::{dv, dv_fields, dv_vals, SxValue, V};
use vstd::prelude::*;

verus! {

pub proof fn lemma_dv_vals(s: Seq<SxValue>)
    ensures
        dv_vals(s).len() == s.len(),
        forall|i: int| 0 <= i < s.len() ==> #[trigger] dv_vals(s)[i] == dv(s[i]),
    decreases s.len(),
{
    if s.len() > 0 {
        lemma_dv_vals(s.drop_last());
    }
}

pub proof fn lemma_dv_fields(s: Seq<(String, SxValue)>)
    ensures
        dv_fields(s).len() == s.len(),
        forall|i: int| 0 <= i < s.len() ==> #[trigger] dv_fields(s)[i] == (s[i].0@, dv(s[i].1)),
    decreases s.len(),
{
    if s.len() > 0 {
        lemma_dv_fields(s.drop_last());
    }
}

/// Two sequences of values with pointwise equal views have equal views.
pub proof fn lemma_dv_vals_ext(a: Seq<SxValue>, b: Seq<SxValue>)
    requires
        a.len() == b.len(),
        forall|i: int| 0 <= i < a.len() ==> dv(#[trigger] a[i]) == dv(b[i]),
    ensures
        dv_vals(a) == dv_vals(b),
{
    lemma_dv_vals(a);
    lemma_dv_vals(b);
    assert(dv_vals(a) =~= dv_vals(b));
}

pub proof fn lemma_dv_fields_ext(a: Seq<(String, SxValue)>, b: Seq<(String, SxValue)>)
    requires
        a.len() == b.len(),
        forall|i: int| 0 <= i < a.len() ==> (#[trigger] a[i]).0@ == b[i].0@ && dv(a[i].1) == dv(b[i].1),
    ensures
        dv_fields(a) == dv_fields(b),
{
    lemma_dv_fields(a);
    lemma_dv_fields(b);
    assert(dv_fields(a) =~= dv_fields(b));
}

/// The entry for `k` in sorted entries, if any.
pub open spec fn lookup<T>(s: Seq<(Seq<char>, T)>, k: Seq<char>) -> Option<T>
    decreases s.len(),
{
    if s.len() == 0 {
        None
    } else if s[0].0 == k {
        Some(s[0].1)
    } else {
        lookup(s.drop_first(), k)
    }
}

/// Inserting `(k, v)` into sorted entries: replaces the entry for `k` when
/// there is one, else places it before the first larger key.
pub open spec fn insert_entry<T>(s: Seq<(Seq<char>, T)>, k: Seq<char>, v: T) -> Seq<(Seq<char>, T)>
    decreases s.len(),
{
    if s.len() == 0 {
        seq![(k, v)]
    } else if s[0].0 == k {
        s.update(0, (k, v))
    } else if key_lt(k, s[0].0) {
        seq![(k, v)] + s
    } else {
        seq![s[0]] + insert_entry(s.drop_first(), k, v)
    }
}

/// Removing the entry for `k` from sorted entries.
pub open spec fn remove_entry<T>(s: Seq<(Seq<char>, T)>, k: Seq<char>) -> Seq<(Seq<char>, T)>
    decreases s.len(),
{
    if s.len() == 0 {
        s
    } else if s[0].0 == k {
        s.drop_first()
    } else {
        seq![s[0]] + remove_entry(s.drop_first(), k)
    }
}

/// True when some entry has key `k`.
pub open spec fn has_key<T>(s: Seq<(Seq<char>, T)>, k: Seq<char>) -> bool {
    exists|i: int| 0 <= i < s.len() && #[trigger] s[i].0 == k
}

/// Entries built one pair at a time, `None` when a key repeats: what a map
/// that refuses duplicate keys holds after the pairs are inserted in order.
pub open spec fn build_entries<T>(pairs: Seq<(Seq<char>, T)>) -> Option<Seq<(Seq<char>, T)>>
    decreases pairs.len(),
{
    if pairs.len() == 0 {
        Some(Seq::empty())
    } else {
        match build_entries(pairs.drop_last()) {
            None => None,
            Some(s) => if has_key(s, pairs.last().0) {
                None
            } else {
                Some(insert_entry(s, pairs.last().0, pairs.last().1))
            },
        }
    }
}

pub proof fn lemma_lookup_index<T>(s: Seq<(Seq<char>, T)>, k: Seq<char>)
    requires
        sorted_keys(s),
    ensures
        lookup(s, k) is Some <==> has_key(s, k),
        forall|i: int| 0 <= i < s.len() && #[trigger] s[i].0 == k ==> lookup(s, k) == Some(s[i].1),
    decreases s.len(),
{
    if s.len() > 0 {
        let t = s.drop_first();
        assert(sorted_keys(t)) by {
            assert forall|i: int, j: int| 0 <= i < j < t.len() implies key_lt(#[trigger] t[i].0, #[trigger] t[j].0) by {
                assert(t[i] == s[i + 1] && t[j] == s[j + 1]);
            }
        }
        lemma_lookup_index(t, k);
        assert forall|i: int| 0 <= i < s.len() && #[trigger] s[i].0 == k implies lookup(s, k) == Some(s[i].1) by {
            if i > 0 {
                if s[0].0 == k {
                    assert(key_lt(s[0].0, s[i].0));
                    lemma_key_lt_irreflexive(k);
                }
                assert(t[i - 1] == s[i]);
            }
        }
        if has_key(t, k) {
            let i = choose|i: int| 0 <= i < t.len() && #[trigger] t[i].0 == k;
            assert(s[i + 1].0 == k);
        }
        if has_key(s, k) && s[0].0 != k {
            let i = choose|i: int| 0 <= i < s.len() && #[trigger] s[i].0 == k;
            assert(t[i - 1].0 == k);
        }
    }
}

/// Finds the position of key `k`.
pub fn find_key<T>(s: &Vec<(String, T)>, k: &str) -> (r: Option<usize>)
    ensures
        r matches Some(i) ==> i < s@.len() && s@[i as int].0@ == k@
            && forall|j: int| 0 <= j < i ==> (#[trigger] s@[j]).0@ != k@,
        r is None ==> forall|i: int| 0 <= i < s@.len() ==> (#[trigger] s@[i]).0@ != k@,
{
    let mut i: usize = 0;
    while i < s.len()
        invariant
            i <= s.len(),
            forall|j: int| 0 <= j < i ==> (#[trigger] s@[j]).0@ != k@,
        decreases s.len() - i,
    {
        if str_equal(s[i].0.as_str(), k) {
            return Some(i);
        }
        i += 1;
    }
    None
}

} // verus!

verus! {

pub proof fn lemma_sorted_tail<T>(s: Seq<(Seq<char>, T)>)
    requires
        sorted_keys(s),
        s.len() > 0,
    ensures
        sorted_keys(s.drop_first()),
{
    let t = s.drop_first();
    assert forall|i: int, j: int| 0 <= i < j < t.len() implies key_lt(#[trigger] t[i].0, #[trigger] t[j].0) by {
        assert(t[i] == s[i + 1] && t[j] == s[j + 1]);
    }
}

/// `insert_entry` at the first position whose key is not below `k`.
pub proof fn lemma_insert_at<T>(s: Seq<(Seq<char>, T)>, k: Seq<char>, v: T, p: int)
    requires
        sorted_keys(s),
        0 <= p <= s.len(),
        forall|j: int| 0 <= j < p ==> key_lt(#[trigger] s[j].0, k),
        p < s.len() ==> !key_lt(s[p].0, k),
    ensures
        insert_entry(s, k, v) == (if p < s.len() && s[p].0 == k {
            s.update(p, (k, v))
        } else {
            s.insert(p, (k, v))
        }),
    decreases p,
{
    if s.len() == 0 {
        assert(s.insert(p, (k, v)) =~= seq![(k, v)]);
    } else if p == 0 {
        lemma_key_lt_total(k, s[0].0);
        if s[0].0 != k {
            assert(seq![(k, v)] + s =~= s.insert(0, (k, v)));
        }
    } else {
        lemma_key_lt_irreflexive(k);
        assert(key_lt(s[0].0, k));
        lemma_key_lt_asym(s[0].0, k);
        let t = s.drop_first();
        lemma_sorted_tail(s);
        assert forall|j: int| 0 <= j < p - 1 implies key_lt(#[trigger] t[j].0, k) by {
            assert(t[j] == s[j + 1]);
        }
        lemma_insert_at(t, k, v, p - 1);
        if p < s.len() && s[p].0 == k {
            assert(seq![s[0]] + t.update(p - 1, (k, v)) =~= s.update(p, (k, v)));
        } else {
            assert(seq![s[0]] + t.insert(p - 1, (k, v)) =~= s.insert(p, (k, v)));
        }
    }
}

/// Insertion keeps entries sorted.
pub proof fn lemma_insert_sorted<T>(s: Seq<(Seq<char>, T)>, k: Seq<char>, v: T, p: int)
    requires
        sorted_keys(s),
        0 <= p <= s.len(),
        forall|j: int| 0 <= j < p ==> key_lt(#[trigger] s[j].0, k),
        p < s.len() ==> !key_lt(s[p].0, k),
    ensures
        sorted_keys(insert_entry(s, k, v)),
        has_key(insert_entry(s, k, v), k),
{
    lemma_insert_at(s, k, v, p);
    let r = insert_entry(s, k, v);
    if p < s.len() && s[p].0 == k {
        assert(r[p].0 == k);
        assert forall|i: int, j: int| 0 <= i < j < r.len() implies key_lt(#[trigger] r[i].0, #[trigger] r[j].0) by {
            assert(r[i].0 == s[i].0 && r[j].0 == s[j].0);
        }
    } else {
        assert(r[p].0 == k);
        if p < s.len() {
            lemma_key_lt_total(k, s[p].0);
        }
        assert forall|i: int, j: int| 0 <= i < j < r.len() implies key_lt(#[trigger] r[i].0, #[trigger] r[j].0) by {
            if j < p {
                assert(r[i] == s[i] && r[j] == s[j]);
            } else if j == p {
                assert(r[i] == s[i]);
            } else if i < p {
                assert(r[i] == s[i] && r[j] == s[j - 1]);
                if p < s.len() {
                    if j - 1 > p {
                        assert(key_lt(s[p].0, s[j - 1].0));
                        lemma_key_lt_transitive(k, s[p].0, s[j - 1].0);
                    }
                    lemma_key_lt_transitive(s[i].0, k, s[j - 1].0);
                }
            } else if i == p {
                assert(r[j] == s[j - 1]);
                if j - 1 > p {
                    assert(key_lt(s[p].0, s[j - 1].0));
                    lemma_key_lt_transitive(k, s[p].0, s[j - 1].0);
                }
            } else {
                assert(r[i] == s[i - 1] && r[j] == s[j - 1]);
            }
        }
    }
}

/// Finds where key `k` belongs: the first position whose key is not below `k`.
pub fn key_position<T>(s: &Vec<(String, T)>, k: &str) -> (p: usize)
    requires
        sorted_str_keys(s@),
    ensures
        p <= s@.len(),
        forall|j: int| 0 <= j < p ==> key_lt(#[trigger] s@[j].0@, k@),
        p < s@.len() ==> !key_lt(s@[p as int].0@, k@),
{
    let mut p: usize = 0;
    while p < s.len() && key_less(s[p].0.as_str(), k)
        invariant
            p <= s@.len(),
            forall|j: int| 0 <= j < p ==> key_lt(#[trigger] s@[j].0@, k@),
        decreases s.len() - p,
    {
        p += 1;
    }
    p
}

/// Inserts or replaces the entry for `k` in sorted entries.
pub fn insert_field(s: &mut Vec<(String, SxValue)>, k: String, v: SxValue)
    requires
        sorted_keys(dv_fields(old(s)@)),
    ensures
        dv_fields(final(s)@) == insert_entry(dv_fields(old(s)@), k@, dv(v)),
        sorted_keys(dv_fields(final(s)@)),
        has_key(dv_fields(final(s)@), k@),
{
    let ghost ks = dv_fields(old(s)@);
    let ghost kv = k@;
    let ghost vv = dv(v);
    proof {
        lemma_dv_fields(old(s)@);
        assert(sorted_str_keys(s@)) by {
            assert forall|i: int, j: int| 0 <= i < j < s@.len() implies key_lt(#[trigger] s@[i].0@, #[trigger] s@[j].0@) by {
                assert(ks[i].0 == s@[i].0@ && ks[j].0 == s@[j].0@);
            }
        }
    }
    let p = key_position(s, k.as_str());
    proof {
        lemma_insert_at(ks, kv, vv, p as int);
        lemma_insert_sorted(ks, kv, vv, p as int);
    }
    if p < s.len() && str_equal(s[p].0.as_str(), k.as_str()) {
        s.set(p, (k, v));
        proof {
            lemma_dv_fields(s@);
            assert(dv_fields(s@) =~= ks.update(p as int, (kv, vv)));
        }
    } else {
        s.insert(p, (k, v));
        proof {
            lemma_dv_fields(s@);
            assert(dv_fields(s@) =~= ks.insert(p as int, (kv, vv)));
        }
    }
}

} // verus!
