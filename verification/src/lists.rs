//! Facts on lists that laws of several modules rest on.

use vstd::prelude::*;

verus! {

/// Joining lists one after the other, the last one is at the end.
pub proof fn lemma_flatten_push<A>(s: Seq<Seq<A>>, x: Seq<A>)
    ensures
        s.push(x).flatten() == s.flatten() + x,
    decreases s.len(),
{
    if s.len() == 0 {
        let one = s.push(x);
        assert(one.drop_first() =~= Seq::<Seq<A>>::empty());
        assert(one.drop_first().flatten() =~= Seq::<A>::empty());
        assert(one.flatten() =~= s.flatten() + x);
    } else {
        let t = s.drop_first();
        lemma_flatten_push(t, x);
        assert(s.push(x).drop_first() =~= t.push(x));
        assert(s.push(x).flatten() =~= s.flatten() + x);
    }
}

/// What stands in one of several lists stands in them joined.
pub proof fn lemma_flatten_holds<A>(s: Seq<Seq<A>>, i: int, j: int) -> (k: int)
    requires
        0 <= i < s.len(),
        0 <= j < s[i].len(),
    ensures
        0 <= k < s.flatten().len(),
        s.flatten()[k] == s[i][j],
    decreases s.len(),
{
    let t = s.drop_first();
    if i == 0 {
        assert(s.flatten()[j] == s[0][j]);
        j
    } else {
        let k = lemma_flatten_holds(t, i - 1, j);
        assert(s.flatten()[s[0].len() + k] == t.flatten()[k]);
        s[0].len() + k
    }
}

/// What stands in several lists joined stands in one of them.
pub proof fn lemma_flatten_source<A>(s: Seq<Seq<A>>, k: int) -> (r: (int, int))
    requires
        0 <= k < s.flatten().len(),
    ensures
        0 <= r.0 < s.len(),
        0 <= r.1 < s[r.0].len(),
        s[r.0][r.1] == s.flatten()[k],
    decreases s.len(),
{
    let t = s.drop_first();
    if k < s[0].len() {
        (0, k)
    } else {
        let r = lemma_flatten_source(t, k - s[0].len());
        (r.0 + 1, r.1)
    }
}

/// One entry is kept where it meets the condition.
pub proof fn lemma_filter_one<A>(x: A, pred: spec_fn(A) -> bool)
    ensures
        seq![x].filter(pred) == (if pred(x) {
            seq![x]
        } else {
            Seq::empty()
        }),
{
    reveal(Seq::filter);
    let one = seq![x];
    assert(one.drop_last() =~= Seq::<A>::empty());
    assert(one.drop_last().filter(pred) =~= Seq::<A>::empty());
    assert(one.filter(pred) =~= (if pred(x) {
        seq![x]
    } else {
        Seq::empty()
    }));
}

/// An entry that does not meet the condition makes no difference to a filter.
pub proof fn lemma_filter_remove<A>(s: Seq<A>, pred: spec_fn(A) -> bool, i: int)
    requires
        0 <= i < s.len(),
        !pred(s[i]),
    ensures
        s.remove(i).filter(pred) == s.filter(pred),
{
    let a = s.take(i);
    let b = s.skip(i + 1);
    assert(s =~= a + seq![s[i]] + b);
    assert(s.remove(i) =~= a + b);
    Seq::filter_distributes_over_add(a + seq![s[i]], b, pred);
    Seq::filter_distributes_over_add(a, seq![s[i]], pred);
    Seq::filter_distributes_over_add(a, b, pred);
    lemma_filter_one(s[i], pred);
    assert(a.filter(pred) + Seq::<A>::empty() =~= a.filter(pred));
}

/// Filtering and mapping a list with one more entry at its end.
pub proof fn lemma_filter_map_push<A, B>(
    s: Seq<A>,
    x: A,
    pred: spec_fn(A) -> bool,
    f: spec_fn(A) -> B,
)
    ensures
        s.push(x).filter(pred).map_values(f) == (if pred(x) {
            s.filter(pred).map_values(f).push(f(x))
        } else {
            s.filter(pred).map_values(f)
        }),
{
    assert(s.push(x) =~= s + seq![x]);
    Seq::filter_distributes_over_add(s, seq![x], pred);
    lemma_filter_one(x, pred);
    if pred(x) {
        assert((s.filter(pred) + seq![x]).map_values(f) =~= s.filter(pred).map_values(f).push(f(x)));
    } else {
        assert(s.filter(pred) + Seq::<A>::empty() =~= s.filter(pred));
    }
}

/// The places below `n`, in order.
pub open spec fn places(n: nat) -> Seq<int> {
    Seq::new(n, |i: int| i)
}

/// One place more, at the end.
pub proof fn lemma_places_push(n: nat)
    ensures
        places(n + 1) == places(n).push(n as int),
{
    assert(places(n + 1) =~= places(n).push(n as int));
}

/// Filtering and mapping places, with one place more.
pub proof fn lemma_places_filter_map<B>(n: nat, pred: spec_fn(int) -> bool, f: spec_fn(int) -> B)
    ensures
        places(n + 1).filter(pred).map_values(f) == (if pred(n as int) {
            places(n).filter(pred).map_values(f).push(f(n as int))
        } else {
            places(n).filter(pred).map_values(f)
        }),
        places(0).filter(pred).map_values(f) == Seq::<B>::empty(),
{
    lemma_places_push(n);
    lemma_filter_map_push(places(n), n as int, pred, f);
    reveal(Seq::filter);
    assert(places(0).filter(pred).map_values(f) =~= Seq::<B>::empty());
}

/// Filtering and mapping nothing gives nothing.
pub proof fn lemma_filter_map_none<A, B>(s: Seq<A>, pred: spec_fn(A) -> bool, f: spec_fn(A) -> B)
    requires
        s.len() == 0,
    ensures
        s.filter(pred).map_values(f) == Seq::<B>::empty(),
{
    reveal(Seq::filter);
    assert(s.filter(pred).map_values(f) =~= Seq::<B>::empty());
}

/// Where two conditions and two maps agree on the entries of a list, filtering
/// and mapping by them agree.
pub proof fn lemma_filter_alike<A>(s: Seq<A>, p: spec_fn(A) -> bool, q: spec_fn(A) -> bool)
    requires
        forall|k: int| 0 <= k < s.len() ==> p(#[trigger] s[k]) == q(s[k]),
    ensures
        s.filter(p) == s.filter(q),
    decreases s.len(),
{
    reveal(Seq::filter);
    if s.len() > 0 {
        let t = s.drop_last();
        assert forall|k: int| 0 <= k < t.len() implies p(#[trigger] t[k]) == q(t[k]) by {
            assert(t[k] == s[k]);
        }
        lemma_filter_alike(t, p, q);
        assert(p(s[s.len() - 1]) == q(s[s.len() - 1]));
    }
}

/// What a list with one entry more gives, entry by entry, and what an empty one
/// does.
pub proof fn lemma_map_flatten_last<A, B>(s: Seq<A>, f: spec_fn(A) -> Seq<B>)
    ensures
        s.len() == 0 ==> s.map_values(f).flatten() == Seq::<B>::empty(),
        s.len() > 0 ==> s.map_values(f).flatten() == s.drop_last().map_values(f).flatten() + f(
            s.last(),
        ),
{
    if s.len() == 0 {
        assert(s.map_values(f).flatten() =~= Seq::<B>::empty());
    } else {
        let t = s.drop_last();
        assert(s.map_values(f) =~= t.map_values(f).push(f(s.last())));
        lemma_flatten_push(t.map_values(f), f(s.last()));
    }
}

} // verus!
