//! Sets kept as strictly ascending sequences: the distinct items of a list in
//! order, as a sort followed by a dedup gives them.
use crate::keys::{key_less, key_lt, lemma_key_lt_irreflexive, lemma_key_lt_total, lemma_key_lt_transitive, str_equal};
use vstd::prelude::*;

verus! {

/// `lt` is a strict total order.
pub open spec fn strict_total<T>(lt: spec_fn(T, T) -> bool) -> bool {
    &&& forall|a: T| !#[trigger] lt(a, a)
    &&& forall|a: T, b: T, c: T| #[trigger] lt(a, b) && #[trigger] lt(b, c) ==> lt(a, c)
    &&& forall|a: T, b: T| a == b || #[trigger] lt(a, b) || lt(b, a)
}

/// Items strictly ascending under `lt`.
pub open spec fn sorted_by<T>(s: Seq<T>, lt: spec_fn(T, T) -> bool) -> bool {
    forall|i: int, j: int| 0 <= i < j < s.len() ==> lt(#[trigger] s[i], #[trigger] s[j])
}

/// `x` added to an ascending set: nothing changes when it is there already,
/// else it goes before the first larger item.
pub open spec fn insert_unique<T>(s: Seq<T>, x: T, lt: spec_fn(T, T) -> bool) -> Seq<T>
    decreases s.len(),
{
    if s.len() == 0 {
        seq![x]
    } else if s[0] == x {
        s
    } else if lt(x, s[0]) {
        seq![x] + s
    } else {
        seq![s[0]] + insert_unique(s.drop_first(), x, lt)
    }
}

/// The items of `xs` added in order to the ascending set `s`.
pub open spec fn fold_unique<T>(s: Seq<T>, xs: Seq<T>, lt: spec_fn(T, T) -> bool) -> Seq<T>
    decreases xs.len(),
{
    if xs.len() == 0 {
        s
    } else {
        fold_unique(insert_unique(s, xs[0], lt), xs.drop_first(), lt)
    }
}

/// The distinct items of a list, ascending.
pub open spec fn sorted_distinct<T>(xs: Seq<T>, lt: spec_fn(T, T) -> bool) -> Seq<T> {
    fold_unique(Seq::empty(), xs, lt)
}

/// Inserting at the first position whose item is not below `x`.
pub proof fn lemma_insert_unique_at<T>(s: Seq<T>, x: T, lt: spec_fn(T, T) -> bool, p: int)
    requires
        strict_total(lt),
        sorted_by(s, lt),
        0 <= p <= s.len(),
        forall|j: int| 0 <= j < p ==> lt(#[trigger] s[j], x),
        p < s.len() ==> !lt(s[p], x),
    ensures
        insert_unique(s, x, lt) == (if p < s.len() && s[p] == x {
            s
        } else {
            s.insert(p, x)
        }),
        sorted_by(insert_unique(s, x, lt), lt),
    decreases p,
{
    if s.len() == 0 {
        assert(s.insert(p, x) =~= seq![x]);
    } else if p == 0 {
        if s[0] != x {
            assert(lt(x, s[0]));
            assert(seq![x] + s =~= s.insert(0, x));
            let r = s.insert(0, x);
            assert forall|i: int, j: int| 0 <= i < j < r.len() implies lt(#[trigger] r[i], #[trigger] r[j]) by {
                if i == 0 {
                    if j > 1 {
                        assert(lt(s[0], s[j - 1]));
                    }
                } else {
                    assert(r[i] == s[i - 1] && r[j] == s[j - 1]);
                }
            }
        }
    } else {
        assert(lt(s[0], x));
        assert(s[0] != x);
        assert(!lt(x, s[0]));
        let t = s.drop_first();
        assert forall|i: int, j: int| 0 <= i < j < t.len() implies lt(#[trigger] t[i], #[trigger] t[j]) by {
            assert(t[i] == s[i + 1] && t[j] == s[j + 1]);
        }
        assert forall|j: int| 0 <= j < p - 1 implies lt(#[trigger] t[j], x) by {
            assert(t[j] == s[j + 1]);
        }
        lemma_insert_unique_at(t, x, lt, p - 1);
        let rt = insert_unique(t, x, lt);
        let r = seq![s[0]] + rt;
        if p < s.len() && s[p] == x {
            assert(seq![s[0]] + t =~= s);
        } else {
            assert(seq![s[0]] + t.insert(p - 1, x) =~= s.insert(p, x));
        }
        assert forall|i: int, j: int| 0 <= i < j < r.len() implies lt(#[trigger] r[i], #[trigger] r[j]) by {
            if i == 0 {
                assert(r[j] == rt[j - 1]);
                if p < s.len() && s[p] == x {
                    assert(rt[j - 1] == s[j]);
                } else {
                    let q = j - 1;
                    if q < p - 1 {
                        assert(rt[q] == t[q]);
                        assert(t[q] == s[q + 1]);
                    } else if q == p - 1 {
                        assert(rt[q] == x);
                    } else {
                        assert(rt[q] == t[q - 1]);
                        assert(t[q - 1] == s[q]);
                    }
                }
            } else {
                assert(r[i] == rt[i - 1] && r[j] == rt[j - 1]);
            }
        }
    }
}

/// Folding a concatenation is folding its parts in turn.
pub proof fn lemma_fold_concat<T>(s: Seq<T>, a: Seq<T>, b: Seq<T>, lt: spec_fn(T, T) -> bool)
    ensures
        fold_unique(s, a + b, lt) == fold_unique(fold_unique(s, a, lt), b, lt),
    decreases a.len(),
{
    if a.len() == 0 {
        assert(a + b =~= b);
    } else {
        assert((a + b).drop_first() =~= a.drop_first() + b);
        assert((a + b)[0] == a[0]);
        lemma_fold_concat(insert_unique(s, a[0], lt), a.drop_first(), b, lt);
    }
}

/// Folding one more item at the end.
pub proof fn lemma_fold_push<T>(s: Seq<T>, a: Seq<T>, x: T, lt: spec_fn(T, T) -> bool)
    ensures
        fold_unique(s, a.push(x), lt) == insert_unique(fold_unique(s, a, lt), x, lt),
{
    lemma_fold_concat(s, a, seq![x], lt);
    assert(a + seq![x] =~= a.push(x));
    let f = fold_unique(s, a, lt);
    assert(seq![x].drop_first() =~= Seq::<T>::empty());
    assert(seq![x][0] == x);
    assert(fold_unique(f, seq![x], lt) == fold_unique(insert_unique(f, x, lt), Seq::<T>::empty(), lt));
}

/// Every item of an insertion is the inserted item or an old one.
pub proof fn lemma_insert_unique_contains<T>(s: Seq<T>, x: T, lt: spec_fn(T, T) -> bool, y: T)
    requires
        insert_unique(s, x, lt).contains(y),
    ensures
        y == x || s.contains(y),
    decreases s.len(),
{
    if s.len() > 0 && s[0] != x && !lt(x, s[0]) {
        let r = insert_unique(s, x, lt);
        let i = choose|i: int| 0 <= i < r.len() && r[i] == y;
        if i > 0 {
            let t = insert_unique(s.drop_first(), x, lt);
            assert(r[i] == t[i - 1]);
            lemma_insert_unique_contains(s.drop_first(), x, lt, y);
            if y != x {
                let k = choose|k: int| 0 <= k < s.drop_first().len() && s.drop_first()[k] == y;
                assert(s[k + 1] == y);
            }
        } else {
            assert(s[0] == y);
        }
    } else if s.len() > 0 && s[0] != x && lt(x, s[0]) {
        let r = insert_unique(s, x, lt);
        let i = choose|i: int| 0 <= i < r.len() && r[i] == y;
        if i > 0 {
            assert(r[i] == s[i - 1]);
        }
    }
}

/// Every item of a fold is an item of the start set or of the list.
pub proof fn lemma_fold_unique_contains<T>(s: Seq<T>, xs: Seq<T>, lt: spec_fn(T, T) -> bool, y: T)
    requires
        fold_unique(s, xs, lt).contains(y),
    ensures
        s.contains(y) || xs.contains(y),
    decreases xs.len(),
{
    if xs.len() > 0 {
        let s2 = insert_unique(s, xs[0], lt);
        lemma_fold_unique_contains(s2, xs.drop_first(), lt, y);
        if s2.contains(y) {
            lemma_insert_unique_contains(s, xs[0], lt, y);
            if y == xs[0] {
                assert(xs[0] == y);
            }
        } else {
            let k = choose|k: int| 0 <= k < xs.drop_first().len() && xs.drop_first()[k] == y;
            assert(xs[k + 1] == y);
        }
    }
}

/// The order of numeric ids as a function value.
pub open spec fn id_order() -> spec_fn(u32, u32) -> bool {
    |a: u32, b: u32| a < b
}

pub proof fn lemma_id_order()
    ensures
        strict_total(id_order()),
{
}

/// Adds an id to an ascending set of ids.
pub fn insert_id(set: &mut Vec<u32>, x: u32)
    requires
        sorted_by(old(set)@, id_order()),
    ensures
        final(set)@ == insert_unique(old(set)@, x, id_order()),
        sorted_by(final(set)@, id_order()),
{
    let ghost s = set@;
    proof {
        lemma_id_order();
    }
    let mut p: usize = 0;
    while p < set.len() && set[p] < x
        invariant
            p <= set@.len(),
            s == set@,
            forall|j: int| 0 <= j < p ==> id_order()(#[trigger] s[j], x),
        decreases set.len() - p,
    {
        p += 1;
    }
    proof {
        lemma_insert_unique_at(s, x, id_order(), p as int);
    }
    if p < set.len() && set[p] == x {
        return;
    }
    set.insert(p, x);
}

/// The order of keys as a function value.
pub open spec fn key_order() -> spec_fn(Seq<char>, Seq<char>) -> bool {
    |a: Seq<char>, b: Seq<char>| key_lt(a, b)
}

pub proof fn lemma_key_order()
    ensures
        strict_total(key_order()),
{
    let lt = key_order();
    assert forall|a: Seq<char>| !#[trigger] lt(a, a) by {
        lemma_key_lt_irreflexive(a);
    }
    assert forall|a: Seq<char>, b: Seq<char>, c: Seq<char>| #[trigger] lt(a, b) && #[trigger] lt(b, c) implies lt(
        a,
        c,
    ) by {
        lemma_key_lt_transitive(a, b, c);
    }
    assert forall|a: Seq<char>, b: Seq<char>| a == b || #[trigger] lt(a, b) || lt(b, a) by {
        lemma_key_lt_total(a, b);
    }
}

pub open spec fn strs_view(s: Seq<String>) -> Seq<Seq<char>> {
    s.map_values(|x: String| x@)
}

/// Adds a string to an ascending set of strings.
pub fn insert_string(set: &mut Vec<String>, x: &String)
    requires
        sorted_by(strs_view(old(set)@), key_order()),
    ensures
        strs_view(final(set)@) == insert_unique(strs_view(old(set)@), x@, key_order()),
        sorted_by(strs_view(final(set)@), key_order()),
{
    let ghost s = strs_view(set@);
    proof {
        lemma_key_order();
    }
    let mut p: usize = 0;
    while p < set.len() && key_less(set[p].as_str(), x.as_str())
        invariant
            p <= set@.len(),
            s == strs_view(set@),
            forall|j: int| 0 <= j < p ==> key_order()(#[trigger] s[j], x@),
        decreases set.len() - p,
    {
        p += 1;
    }
    proof {
        lemma_insert_unique_at(s, x@, key_order(), p as int);
    }
    if p < set.len() && str_equal(set[p].as_str(), x.as_str()) {
        return;
    }
    set.insert(p, x.clone());
    proof {
        assert(strs_view(set@) =~= s.insert(p as int, x@));
    }
}

/// Lexicographic order on lists of keys.
pub open spec fn shape_lt(a: Seq<Seq<char>>, b: Seq<Seq<char>>) -> bool
    decreases a.len(),
{
    if a.len() == 0 {
        b.len() > 0
    } else if b.len() == 0 {
        false
    } else if a[0] == b[0] {
        shape_lt(a.drop_first(), b.drop_first())
    } else {
        key_lt(a[0], b[0])
    }
}

pub proof fn lemma_shape_lt_irreflexive(a: Seq<Seq<char>>)
    ensures
        !shape_lt(a, a),
    decreases a.len(),
{
    if a.len() > 0 {
        lemma_shape_lt_irreflexive(a.drop_first());
    }
}

pub proof fn lemma_shape_lt_transitive(a: Seq<Seq<char>>, b: Seq<Seq<char>>, c: Seq<Seq<char>>)
    requires
        shape_lt(a, b),
        shape_lt(b, c),
    ensures
        shape_lt(a, c),
    decreases a.len(),
{
    if a.len() > 0 && b.len() > 0 && c.len() > 0 {
        if a[0] == b[0] && b[0] == c[0] {
            lemma_shape_lt_transitive(a.drop_first(), b.drop_first(), c.drop_first());
        } else if a[0] == b[0] {
            assert(key_lt(b[0], c[0]));
        } else if b[0] == c[0] {
            assert(key_lt(a[0], b[0]));
        } else {
            lemma_key_lt_transitive(a[0], b[0], c[0]);
            if a[0] == c[0] {
                lemma_key_lt_irreflexive(a[0]);
            }
        }
        if a[0] == c[0] && !(a[0] == b[0]) {
            lemma_key_lt_transitive(a[0], b[0], c[0]);
            lemma_key_lt_irreflexive(a[0]);
        }
    }
}

pub proof fn lemma_shape_lt_total(a: Seq<Seq<char>>, b: Seq<Seq<char>>)
    ensures
        a == b || shape_lt(a, b) || shape_lt(b, a),
    decreases a.len(),
{
    if a.len() > 0 && b.len() > 0 {
        if a[0] == b[0] {
            lemma_shape_lt_total(a.drop_first(), b.drop_first());
            if a.drop_first() == b.drop_first() {
                assert(a =~= seq![a[0]] + a.drop_first());
                assert(b =~= seq![b[0]] + b.drop_first());
            }
        } else {
            lemma_key_lt_total(a[0], b[0]);
        }
    } else if a.len() == 0 && b.len() == 0 {
        assert(a =~= b);
    }
}

/// The order of key lists as a function value.
pub open spec fn shape_order() -> spec_fn(Seq<Seq<char>>, Seq<Seq<char>>) -> bool {
    |a: Seq<Seq<char>>, b: Seq<Seq<char>>| shape_lt(a, b)
}

pub proof fn lemma_shape_order()
    ensures
        strict_total(shape_order()),
{
    let lt = shape_order();
    assert forall|a: Seq<Seq<char>>| !#[trigger] lt(a, a) by {
        lemma_shape_lt_irreflexive(a);
    }
    assert forall|a: Seq<Seq<char>>, b: Seq<Seq<char>>, c: Seq<Seq<char>>|
        #[trigger] lt(a, b) && #[trigger] lt(b, c) implies lt(a, c) by {
        lemma_shape_lt_transitive(a, b, c);
    }
    assert forall|a: Seq<Seq<char>>, b: Seq<Seq<char>>| a == b || #[trigger] lt(a, b) || lt(b, a) by {
        lemma_shape_lt_total(a, b);
    }
}

pub open spec fn shape_view(s: Vec<String>) -> Seq<Seq<char>> {
    s@.map_values(|x: String| x@)
}

pub open spec fn shapes_view(s: Seq<Vec<String>>) -> Seq<Seq<Seq<char>>> {
    s.map_values(|x: Vec<String>| shape_view(x))
}

/// Compares two key lists: `Less`, `Equal` or `Greater` as -1, 0, 1.
pub fn shape_compare(a: &Vec<String>, b: &Vec<String>) -> (r: i8)
    ensures
        r == 0 <==> shape_view(*a) == shape_view(*b),
        r < 0 <==> shape_lt(shape_view(*a), shape_view(*b)),
        -1 <= r <= 1,
{
    let ghost av = shape_view(*a);
    let ghost bv = shape_view(*b);
    let mut i: usize = 0;
    assert(av.subrange(0, av.len() as int) =~= av);
    assert(bv.subrange(0, bv.len() as int) =~= bv);
    assert(av.subrange(0, 0) =~= bv.subrange(0, 0));
    while i < a.len() && i < b.len() && str_equal(a[i].as_str(), b[i].as_str())
        invariant
            i <= a@.len(),
            i <= b@.len(),
            av == shape_view(*a),
            bv == shape_view(*b),
            av.subrange(0, i as int) == bv.subrange(0, i as int),
            shape_lt(av, bv) == shape_lt(av.subrange(i as int, av.len() as int), bv.subrange(i as int, bv.len() as int)),
        decreases a.len() - i,
    {
        proof {
            let ra = av.subrange(i as int, av.len() as int);
            let rb = bv.subrange(i as int, bv.len() as int);
            assert(ra[0] == av[i as int] && rb[0] == bv[i as int]);
            assert(ra.drop_first() =~= av.subrange(i + 1, av.len() as int));
            assert(rb.drop_first() =~= bv.subrange(i + 1, bv.len() as int));
            assert(av.subrange(0, i + 1) =~= av.subrange(0, i as int).push(av[i as int]));
            assert(bv.subrange(0, i + 1) =~= bv.subrange(0, i as int).push(bv[i as int]));
        }
        i += 1;
    }
    let ghost ra = av.subrange(i as int, av.len() as int);
    let ghost rb = bv.subrange(i as int, bv.len() as int);
    if i == a.len() && i == b.len() {
        assert(av =~= av.subrange(0, i as int));
        assert(bv =~= bv.subrange(0, i as int));
        proof {
            lemma_shape_lt_irreflexive(av);
        }
        0
    } else if i == a.len() {
        assert(ra.len() == 0 && rb.len() > 0);
        proof {
            if av == bv {
                assert(av.len() == bv.len());
            }
        }
        -1
    } else if i == b.len() {
        assert(rb.len() == 0 && ra.len() > 0);
        proof {
            if av == bv {
                assert(av.len() == bv.len());
            }
        }
        1
    } else {
        assert(ra[0] == av[i as int] && rb[0] == bv[i as int]);
        proof {
            if av == bv {
                assert(av[i as int] == bv[i as int]);
            }
        }
        if key_less(a[i].as_str(), b[i].as_str()) {
            -1
        } else {
            proof {
                lemma_key_lt_total(av[i as int], bv[i as int]);
            }
            1
        }
    }
}

/// Adds a key list to an ascending set of key lists.
pub fn insert_shape(set: &mut Vec<Vec<String>>, x: Vec<String>)
    requires
        sorted_by(shapes_view(old(set)@), shape_order()),
    ensures
        shapes_view(final(set)@) == insert_unique(shapes_view(old(set)@), shape_view(x), shape_order()),
        sorted_by(shapes_view(final(set)@), shape_order()),
{
    let ghost s = shapes_view(set@);
    let ghost xv = shape_view(x);
    proof {
        lemma_shape_order();
    }
    let mut p: usize = 0;
    while p < set.len() && shape_compare(&set[p], &x) < 0
        invariant
            p <= set@.len(),
            s == shapes_view(set@),
            xv == shape_view(x),
            forall|j: int| 0 <= j < p ==> shape_order()(#[trigger] s[j], xv),
        decreases set.len() - p,
    {
        p += 1;
    }
    proof {
        lemma_insert_unique_at(s, xv, shape_order(), p as int);
    }
    if p < set.len() && shape_compare(&set[p], &x) == 0 {
        return;
    }
    set.insert(p, x);
    proof {
        assert(shapes_view(set@) =~= s.insert(p as int, xv));
    }
}

} // verus!
