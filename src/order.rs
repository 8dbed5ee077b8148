//! Stable insertion sort, stated and executed.
use vstd::prelude::*;

verus! {

/// `x` placed into `s` before the first element that it is `lt`; after all
/// others.
pub open spec fn insert_sorted<T>(s: Seq<T>, x: T, lt: spec_fn(T, T) -> bool) -> Seq<T>
    decreases s.len(),
{
    if s.len() == 0 {
        seq![x]
    } else if lt(x, s[0]) {
        seq![x] + s
    } else {
        seq![s[0]] + insert_sorted(s.drop_first(), x, lt)
    }
}

/// `s` sorted by `lt`, elements that neither precedes keeping their order.
pub open spec fn stable_sort<T>(s: Seq<T>, lt: spec_fn(T, T) -> bool) -> Seq<T>
    decreases s.len(),
{
    if s.len() == 0 {
        s
    } else {
        insert_sorted(stable_sort(s.drop_last(), lt), s.last(), lt)
    }
}

proof fn lemma_insert_at<T>(s: Seq<T>, x: T, lt: spec_fn(T, T) -> bool, p: int)
    requires
        0 <= p <= s.len(),
        forall|q: int| 0 <= q < p ==> !lt(x, #[trigger] s[q]),
        p == s.len() || lt(x, s[p]),
    ensures
        insert_sorted(s, x, lt) == s.insert(p, x),
    decreases p,
{
    if p == 0 {
        if s.len() == 0 {
            assert(s.insert(0, x) =~= seq![x]);
        } else {
            assert(s.insert(0, x) =~= seq![x] + s);
        }
    } else {
        let t = s.drop_first();
        assert forall|q: int| 0 <= q < p - 1 implies !lt(x, #[trigger] t[q]) by {
            assert(t[q] == s[q + 1]);
        }
        lemma_insert_at(t, x, lt, p - 1);
        assert(s.insert(p, x) =~= seq![s[0]] + t.insert(p - 1, x));
    }
}

/// Sorts `v` stably by the order that `before` decides.
pub fn sort_with<T, F: Fn(&T, &T) -> bool>(v: Vec<T>, before: &F, Ghost(lt): Ghost<spec_fn(T, T) -> bool>) -> (r: Vec<T>)
    requires
        forall|a: &T, b: &T| #[trigger] before.requires((a, b)),
        forall|a: &T, b: &T, r: bool| #[trigger] before.ensures((a, b), r) ==> r == lt(*a, *b),
    ensures
        r@ == stable_sort(v@, lt),
{
    let ghost all = v@;
    let n = v.len();
    let mut rest = v;
    let mut out: Vec<T> = Vec::new();
    let mut k: usize = 0;
    assert(all.take(0) =~= Seq::<T>::empty());
    assert(all.skip(0) =~= all);
    while rest.len() > 0
        invariant
            k <= all.len(),
            all.len() == n,
            rest@ == all.skip(k as int),
            rest@.len() == all.len() - k,
            out@ == stable_sort(all.take(k as int), lt),
            forall|a: &T, b: &T| #[trigger] before.requires((a, b)),
            forall|a: &T, b: &T, r: bool| #[trigger] before.ensures((a, b), r) ==> r == lt(*a, *b),
        decreases rest@.len(),
    {
        let x = rest.remove(0);
        let mut p: usize = 0;
        while p < out.len() && !before(&x, &out[p])
            invariant
                p <= out@.len(),
                forall|q: int| 0 <= q < p ==> !lt(x, #[trigger] out@[q]),
                forall|a: &T, b: &T| #[trigger] before.requires((a, b)),
                forall|a: &T, b: &T, r: bool| #[trigger] before.ensures((a, b), r) ==> r == lt(*a, *b),
            decreases out@.len() - p,
        {
            p = p + 1;
        }
        proof {
            lemma_insert_at(out@, x, lt, p as int);
            let t = all.take(k as int + 1);
            assert(t.drop_last() =~= all.take(k as int));
            assert(t.last() == x);
            assert(all.skip(k as int + 1) =~= all.skip(k as int).drop_first());
        }
        out.insert(p, x);
        k = k + 1;
    }
    assert(all.take(k as int) =~= all);
    out
}


/// The elements behind a sequence of references.
pub open spec fn derefs<T>(s: Seq<&T>) -> Seq<T> {
    Seq::new(s.len(), |i: int| *s[i])
}

proof fn lemma_insert_map<A, B>(
    s: Seq<A>,
    x: A,
    f: spec_fn(A) -> B,
    lta: spec_fn(A, A) -> bool,
    ltb: spec_fn(B, B) -> bool,
)
    requires
        forall|a: A, b: A| #[trigger] lta(a, b) == ltb(f(a), f(b)),
    ensures
        insert_sorted(s, x, lta).map_values(f) == insert_sorted(s.map_values(f), f(x), ltb),
    decreases s.len(),
{
    let t = s.map_values(f);
    if s.len() == 0 {
        assert(seq![x].map_values(f) =~= seq![f(x)]);
    } else {
        assert(t[0] == f(s[0]));
        assert(lta(x, s[0]) == ltb(f(x), f(s[0])));
        if lta(x, s[0]) {
            assert((seq![x] + s).map_values(f) =~= seq![f(x)] + t);
        } else {
            lemma_insert_map(s.drop_first(), x, f, lta, ltb);
            assert(s.drop_first().map_values(f) =~= t.drop_first());
            let r = insert_sorted(s.drop_first(), x, lta);
            assert((seq![s[0]] + r).map_values(f) =~= seq![f(s[0])] + r.map_values(f));
        }
    }
}

/// Sorting commutes with a map that carries the order over.
pub proof fn lemma_sort_map<A, B>(
    s: Seq<A>,
    f: spec_fn(A) -> B,
    lta: spec_fn(A, A) -> bool,
    ltb: spec_fn(B, B) -> bool,
)
    requires
        forall|a: A, b: A| #[trigger] lta(a, b) == ltb(f(a), f(b)),
    ensures
        stable_sort(s, lta).map_values(f) == stable_sort(s.map_values(f), ltb),
    decreases s.len(),
{
    if s.len() > 0 {
        lemma_sort_map(s.drop_last(), f, lta, ltb);
        assert(s.drop_last().map_values(f) =~= s.map_values(f).drop_last());
        lemma_insert_map(stable_sort(s.drop_last(), lta), s.last(), f, lta, ltb);
    } else {
        assert(s.map_values(f) =~= Seq::<B>::empty());
        assert(s.map_values(f).len() == 0);
    }
}

/// Sorting references, then following them, sorts the elements.
pub proof fn lemma_sort_derefs<T>(s: Seq<&T>, lt: spec_fn(T, T) -> bool)
    ensures
        derefs(stable_sort(s, |a: &T, b: &T| lt(*a, *b))) == stable_sort(derefs(s), lt),
{
    let f = |r: &T| *r;
    let lta = |a: &T, b: &T| lt(*a, *b);
    lemma_sort_map(s, f, lta, lt);
    assert(derefs(s) =~= s.map_values(f));
    assert(derefs(stable_sort(s, lta)) =~= stable_sort(s, lta).map_values(f));
}


/// Placing one item adds exactly that item.
pub proof fn lemma_insert_sorted_multiset<T>(s: Seq<T>, x: T, lt: spec_fn(T, T) -> bool)
    ensures
        insert_sorted(s, x, lt).to_multiset() == s.to_multiset().insert(x),
    decreases s.len(),
{
    broadcast use vstd::seq_lib::to_multiset_insert, vstd::multiset::group_multiset_axioms;

    if s.len() == 0 {
        assert(seq![x] =~= s.insert(0, x));
    } else if lt(x, s[0]) {
        assert(seq![x] + s =~= s.insert(0, x));
    } else {
        let t = s.drop_first();
        lemma_insert_sorted_multiset(t, x, lt);
        let r = insert_sorted(t, x, lt);
        assert(seq![s[0]] + r =~= r.insert(0, s[0]));
        assert(s =~= t.insert(0, s[0]));
        assert(r.insert(0, s[0]).to_multiset() =~= s.to_multiset().insert(x));
    }
}

/// Sorting keeps every element, as often as it occurs.
pub proof fn lemma_sort_multiset<T>(s: Seq<T>, lt: spec_fn(T, T) -> bool)
    ensures
        stable_sort(s, lt).to_multiset() == s.to_multiset(),
    decreases s.len(),
{
    broadcast use vstd::seq_lib::to_multiset_build;

    if s.len() > 0 {
        lemma_sort_multiset(s.drop_last(), lt);
        lemma_insert_sorted_multiset(stable_sort(s.drop_last(), lt), s.last(), lt);
        assert(s =~= s.drop_last().push(s.last()));
    }
}

/// An element of a sorted sequence is an element of the input.
pub proof fn lemma_sort_contains<T>(s: Seq<T>, lt: spec_fn(T, T) -> bool, i: int)
    requires
        0 <= i < stable_sort(s, lt).len(),
    ensures
        s.contains(stable_sort(s, lt)[i]),
{
    broadcast use vstd::seq_lib::to_multiset_contains;

    lemma_sort_multiset(s, lt);
    let t = stable_sort(s, lt);
    assert(t.contains(t[i]));
    assert(t.to_multiset().count(t[i]) > 0);
}

} // verus!
