//! A stable sort of places `0, 1, ..` by what stands at them.

use crate::text;
use vstd::prelude::*;

verus! {

/// Things at places `0, 1, ..` that can be told apart by rank.
pub trait Ranked {
    /// How many places there are.
    spec fn count(&self) -> nat;

    /// Whether what stands at `i` may come before what stands at `j`.
    spec fn upto(&self, i: int, j: int) -> bool;

    proof fn upto_total(&self, i: int, j: int)
        ensures
            self.upto(i, j) || self.upto(j, i),
    ;

    proof fn upto_transitive(&self, i: int, j: int, k: int)
        requires
            self.upto(i, j),
            self.upto(j, k),
        ensures
            self.upto(i, k),
    ;

    fn is_upto(&self, i: usize, j: usize) -> (r: bool)
        requires
            i < self.count(),
            j < self.count(),
        ensures
            r == self.upto(i as int, j as int),
    ;
}

/// Whether place `i` comes before place `j`: by rank, and among equals by
/// number.
pub open spec fn comes_before<R: Ranked>(r: &R, i: int, j: int) -> bool {
    r.upto(i, j) && (r.upto(j, i) ==> i < j)
}

/// Whether `places` lists every place once, by rank and among equals by number.
pub open spec fn is_sorting<R: Ranked>(r: &R, places: Seq<usize>) -> bool {
    &&& places.len() == r.count()
    &&& places.no_duplicates()
    &&& forall|k: int| 0 <= k < places.len() ==> #[trigger] places[k] < r.count()
    &&& in_order(r, places)
}

/// Whether each of `places` comes before those that follow it.
pub open spec fn in_order<R: Ranked>(r: &R, places: Seq<usize>) -> bool {
    forall|a: int, b: int|
        0 <= a < b < places.len() ==> #[trigger] comes_before(
            r,
            places[a] as int,
            places[b] as int,
        )
}

spec fn between(places: Seq<usize>, lo: int, hi: int) -> bool {
    forall|k: int| 0 <= k < places.len() ==> lo <= #[trigger] places[k] < hi
}

proof fn lemma_comes_before_transitive<R: Ranked>(r: &R, i: int, j: int, k: int)
    requires
        comes_before(r, i, j),
        comes_before(r, j, k),
    ensures
        comes_before(r, i, k),
{
    r.upto_transitive(i, j, k);
    if r.upto(k, i) {
        r.upto_transitive(j, k, i);
        r.upto_transitive(k, i, j);
    }
}

proof fn lemma_push_in_order<R: Ranked>(r: &R, places: Seq<usize>, x: usize)
    requires
        in_order(r, places),
        places.len() > 0 ==> comes_before(r, places.last() as int, x as int),
    ensures
        in_order(r, places.push(x)),
{
    let p = places.push(x);
    assert forall|a: int, b: int| 0 <= a < b < p.len() implies #[trigger] comes_before(
        r,
        p[a] as int,
        p[b] as int,
    ) by {
        if b < places.len() {
            assert(comes_before(r, places[a] as int, places[b] as int));
        } else if a < places.len() - 1 {
            assert(comes_before(r, places[a] as int, places[places.len() - 1] as int));
            lemma_comes_before_transitive(r, places[a] as int, places.last() as int, x as int);
        }
    }
}

fn merge<R: Ranked>(
    r: &R,
    left: &Vec<usize>,
    right: &Vec<usize>,
    lo: Ghost<int>,
    mid: Ghost<int>,
    hi: Ghost<int>,
) -> (out: Vec<usize>)
    requires
        lo@ <= mid@ <= hi@ <= r.count(),
        0 <= lo@,
        in_order(r, left@),
        in_order(r, right@),
        between(left@, lo@, mid@),
        between(right@, mid@, hi@),
        left@.len() == mid@ - lo@,
        right@.len() == hi@ - mid@,
    ensures
        in_order(r, out@),
        between(out@, lo@, hi@),
        out@.len() == hi@ - lo@,
{
    let mut out: Vec<usize> = Vec::new();
    let mut i: usize = 0;
    let mut j: usize = 0;
    while i < left.len() || j < right.len()
        invariant
            i <= left@.len(),
            j <= right@.len(),
            out@.len() == i + j,
            0 <= lo@ <= mid@ <= hi@ <= r.count(),
            in_order(r, left@),
            in_order(r, right@),
            between(left@, lo@, mid@),
            between(right@, mid@, hi@),
            between(out@, lo@, hi@),
            in_order(r, out@),
            out@.len() > 0 && i < left@.len() ==> comes_before(
                r,
                out@.last() as int,
                left@[i as int] as int,
            ),
            out@.len() > 0 && j < right@.len() ==> comes_before(
                r,
                out@.last() as int,
                right@[j as int] as int,
            ),
        decreases left.len() - i + right.len() - j,
    {
        let ghost before = out@;
        if i < left.len() && (j >= right.len() || r.is_upto(left[i], right[j])) {
            let x: usize = left[i];
            proof {
                lemma_push_in_order(r, out@, x);
                if i + 1 < left@.len() {
                    assert(comes_before(r, left@[i as int] as int, left@[i + 1] as int));
                }
                if j < right@.len() {
                    assert(left@[i as int] < mid@ <= right@[j as int]);
                    assert(comes_before(r, x as int, right@[j as int] as int));
                }
            }
            out.push(x);
            i += 1;
        } else {
            let x: usize = right[j];
            proof {
                lemma_push_in_order(r, out@, x);
                if j + 1 < right@.len() {
                    assert(comes_before(r, right@[j as int] as int, right@[j + 1] as int));
                }
                if i < left@.len() {
                    r.upto_total(left@[i as int] as int, x as int);
                    assert(comes_before(r, x as int, left@[i as int] as int));
                }
            }
            out.push(x);
            j += 1;
        }
        assert(between(out@, lo@, hi@)) by {
            assert forall|k: int| 0 <= k < out@.len() implies lo@ <= #[trigger] out@[k] < hi@ by {
                if k < before.len() {
                    assert(out@[k] == before[k]);
                }
            }
        }
    }
    out
}

fn sort_between<R: Ranked>(r: &R, lo: usize, hi: usize) -> (out: Vec<usize>)
    requires
        lo <= hi <= r.count(),
    ensures
        in_order(r, out@),
        between(out@, lo as int, hi as int),
        out@.len() == hi - lo,
    decreases hi - lo,
{
    if hi - lo <= 1 {
        let mut out: Vec<usize> = Vec::new();
        if lo < hi {
            out.push(lo);
        }
        return out;
    }
    let mid: usize = lo + (hi - lo) / 2;
    let left = sort_between(r, lo, mid);
    let right = sort_between(r, mid, hi);
    merge(r, &left, &right, Ghost(lo as int), Ghost(mid as int), Ghost(hi as int))
}

/// The places sorted by rank, equals in the order in which they stand.
pub fn sorted_places<R: Ranked>(r: &R, count: usize) -> (out: Vec<usize>)
    requires
        count == r.count(),
    ensures
        is_sorting(r, out@),
{
    let out = sort_between(r, 0, count);
    proof {
        assert forall|a: int, b: int| 0 <= a < b < out@.len() implies out@[a] != out@[b] by {
            assert(comes_before(r, out@[a] as int, out@[b] as int));
        }
    }
    out
}

/// Every place is listed in a sorting.
pub proof fn lemma_sorting_covers<R: Ranked>(r: &R, places: Seq<usize>, v: usize)
    requires
        is_sorting(r, places),
        v < r.count(),
    ensures
        places.contains(v),
{
    if !places.contains(v) {
        let t = places.push(v);
        assert(t.no_duplicates());
        crate::graph::lemma_distinct_below(t, r.count() as int);
    }
}

/// Where the entries of `s` that meet a condition stand at these places, in
/// order, they are what filtering leaves of `s`.
pub proof fn lemma_filter_by_places<A>(s: Seq<A>, pred: spec_fn(A) -> bool, places: Seq<usize>)
    requires
        s.len() <= usize::MAX,
        forall|a: int, b: int| 0 <= a < b < places.len() ==> places[a] < places[b],
        forall|k: int| 0 <= k < places.len() ==> #[trigger] places[k] < s.len() && pred(
            s[places[k] as int],
        ),
        forall|i: usize| i < s.len() && pred(s[i as int]) ==> #[trigger] places.contains(i),
    ensures
        s.filter(pred) == places.map_values(|i: usize| s[i as int]),
    decreases s.len(),
{
    reveal(Seq::filter);
    let f = |i: usize| s[i as int];
    if s.len() == 0 {
        if places.len() > 0 {
            assert(places[0] < s.len());
        }
        assert(s.filter(pred) =~= places.map_values(f));
    } else {
        let t = s.drop_last();
        let g = |i: usize| t[i as int];
        let last = (s.len() - 1) as usize;
        if pred(s.last()) {
            assert(places.contains(last));
            let k = choose|k: int| 0 <= k < places.len() && places[k] == last;
            if k < places.len() - 1 {
                assert(places[k] < places[k + 1]);
            }
            let q = places.drop_last();
            assert forall|j: int| 0 <= j < q.len() implies #[trigger] q[j] < t.len() && pred(
                t[q[j] as int],
            ) by {
                assert(q[j] == places[j]);
                assert(places[j] < places[places.len() - 1]);
            }
            assert forall|i: usize| i < t.len() && pred(t[i as int]) implies #[trigger] q.contains(
                i,
            ) by {
                assert(places.contains(i));
                let j = choose|j: int| 0 <= j < places.len() && places[j] == i;
                assert(q[j] == i);
            }
            lemma_filter_by_places(t, pred, q);
            assert(places.map_values(f) =~= q.map_values(g).push(s.last()));
        } else {
            assert forall|j: int| 0 <= j < places.len() implies #[trigger] places[j] < t.len()
                && pred(t[places[j] as int]) by {
                assert(places[j] < s.len() && pred(s[places[j] as int]));
            }
            assert forall|i: usize| i < t.len() && pred(t[i as int]) implies #[trigger] places.contains(
                i,
            ) by {
                assert(pred(s[i as int]));
            }
            lemma_filter_by_places(t, pred, places);
            assert(places.map_values(f) =~= places.map_values(g));
        }
    }
}

/// Texts, ranked in the order of strings.
pub struct TextKeys<'a> {
    pub keys: &'a Vec<String>,
}

impl<'a> Ranked for TextKeys<'a> {
    open spec fn count(&self) -> nat {
        self.keys@.len()
    }

    open spec fn upto(&self, i: int, j: int) -> bool {
        !text::text_less(self.keys@[j]@, self.keys@[i]@)
    }

    proof fn upto_total(&self, i: int, j: int) {
        let a = self.keys@[i]@;
        let b = self.keys@[j]@;
        if text::text_less(a, b) && text::text_less(b, a) {
            text::lemma_text_less_transitive(a, b, a);
            text::lemma_text_less_irreflexive(a);
        }
    }

    proof fn upto_transitive(&self, i: int, j: int, k: int) {
        let a = self.keys@[i]@;
        let b = self.keys@[j]@;
        let c = self.keys@[k]@;
        text::lemma_text_less_total(a, b);
        text::lemma_text_less_total(b, c);
        if text::text_less(c, a) {
            if text::text_less(a, b) {
                text::lemma_text_less_transitive(c, a, b);
            }
        }
    }

    fn is_upto(&self, i: usize, j: usize) -> (r: bool) {
        !text::less(self.keys[j].as_str(), self.keys[i].as_str())
    }
}

/// Whether `group` is not empty and lists, in order, places with one key.
pub open spec fn is_group(keys: Seq<Seq<char>>, group: Seq<usize>) -> bool {
    &&& group.len() > 0
    &&& forall|k: int|
        0 <= k < group.len() ==> #[trigger] group[k] < keys.len() && keys[group[k] as int]
            == keys[group[0] as int]
    &&& forall|a: int, b: int| 0 <= a < b < group.len() ==> group[a] < group[b]
}

/// The key of a group.
pub open spec fn key_of(keys: Seq<Seq<char>>, group: Seq<usize>) -> Seq<char> {
    keys[group[0] as int]
}

/// Whether `groups` gathers every place with those of the same key, in the
/// order of the keys.
pub open spec fn is_grouping(keys: Seq<Seq<char>>, groups: Seq<Seq<usize>>) -> bool {
    &&& forall|g: int| 0 <= g < groups.len() ==> is_group(keys, #[trigger] groups[g])
    &&& forall|a: int, b: int|
        0 <= a < b < groups.len() ==> text::text_less(
            key_of(keys, #[trigger] groups[a]),
            key_of(keys, #[trigger] groups[b]),
        )
    &&& forall|i: usize| i < keys.len() ==> #[trigger] is_grouped(groups, i)
}

/// Whether some group lists place `i`.
pub open spec fn is_grouped(groups: Seq<Seq<usize>>, i: usize) -> bool {
    exists|g: int| 0 <= g < groups.len() && (#[trigger] groups[g]).contains(i)
}

/// A group lists every place with its key.
pub proof fn lemma_group_complete(keys: Seq<Seq<char>>, groups: Seq<Seq<usize>>, g: int, i: usize)
    requires
        is_grouping(keys, groups),
        0 <= g < groups.len(),
        i < keys.len(),
        keys[i as int] == key_of(keys, groups[g]),
    ensures
        groups[g].contains(i),
{
    assert(is_grouped(groups, i));
    let h = choose|h: int| 0 <= h < groups.len() && (#[trigger] groups[h]).contains(i);
    let k = choose|k: int| 0 <= k < groups[h].len() && groups[h][k] == i;
    assert(is_group(keys, groups[h]));
    assert(key_of(keys, groups[h]) == keys[i as int]);
    if g != h {
        text::lemma_text_less_irreflexive(keys[i as int]);
        if g < h {
            assert(text::text_less(key_of(keys, groups[g]), key_of(keys, groups[h])));
        } else {
            assert(text::text_less(key_of(keys, groups[h]), key_of(keys, groups[g])));
        }
    }
}

/// Every key is that of some group.
pub proof fn lemma_key_grouped(keys: Seq<Seq<char>>, groups: Seq<Seq<usize>>, i: usize) -> (g: int)
    requires
        is_grouping(keys, groups),
        i < keys.len(),
    ensures
        0 <= g < groups.len(),
        key_of(keys, groups[g]) == keys[i as int],
{
    assert(is_grouped(groups, i));
    let h = choose|h: int| 0 <= h < groups.len() && (#[trigger] groups[h]).contains(i);
    let k = choose|k: int| 0 <= k < groups[h].len() && groups[h][k] == i;
    assert(is_group(keys, groups[h]));
    h
}

/// Where a condition picks the entries with the key of a group, filtering
/// leaves what stands at the group's places.
pub proof fn lemma_group_is_filter<A>(
    s: Seq<A>,
    pred: spec_fn(A) -> bool,
    keys: Seq<Seq<char>>,
    groups: Seq<Seq<usize>>,
    g: int,
)
    requires
        s.len() <= usize::MAX,
        keys.len() == s.len(),
        is_grouping(keys, groups),
        0 <= g < groups.len(),
        forall|i: int|
            0 <= i < s.len() ==> pred(#[trigger] s[i]) == (keys[i] == key_of(keys, groups[g])),
    ensures
        s.filter(pred) == groups[g].map_values(|i: usize| s[i as int]),
{
    let group = groups[g];
    assert(is_group(keys, group));
    assert forall|k: int| 0 <= k < group.len() implies #[trigger] group[k] < s.len() && pred(
        s[group[k] as int],
    ) by {
        assert(keys[group[k] as int] == key_of(keys, group));
    }
    assert forall|i: usize| i < s.len() && pred(s[i as int]) implies #[trigger] group.contains(i) by {
        lemma_group_complete(keys, groups, g, i);
    }
    lemma_filter_by_places(s, pred, group);
}

/// Gathers the places of equal keys, in the order of the keys.
pub fn group_places(keys: &Vec<String>) -> (r: Vec<Vec<usize>>)
    ensures
        is_grouping(keys.deep_view(), r.deep_view()),
{
    let ranked = TextKeys { keys };
    let places = sorted_places(&ranked, keys.len());
    let ghost kv = keys.deep_view();
    let mut out: Vec<Vec<usize>> = Vec::new();
    let mut i: usize = 0;
    while i < places.len()
        invariant
            i <= places@.len(),
            kv == keys.deep_view(),
            ranked.keys == keys,
            is_sorting(&ranked, places@),
            forall|g: int| 0 <= g < out@.len() ==> is_group(kv, #[trigger] out.deep_view()[g]),
            forall|a: int, b: int|
                0 <= a < b < out@.len() ==> text::text_less(
                    key_of(kv, #[trigger] out.deep_view()[a]),
                    key_of(kv, #[trigger] out.deep_view()[b]),
                ),
            forall|j: int| 0 <= j < i ==> is_grouped(out.deep_view(), #[trigger] places@[j]),
            i > 0 ==> out@.len() > 0 && kv[places@[i - 1] as int] == key_of(
                kv,
                out.deep_view()[out@.len() - 1],
            ),
            0 < i < places@.len() ==> kv[places@[i - 1] as int] != kv[places@[i as int] as int],
            i == 0 ==> out@.len() == 0,
        decreases places.len() - i,
    {
        let mut group: Vec<usize> = Vec::new();
        let first: usize = places[i];
        let start: usize = i;
        assert(places@[start as int] < ranked.count());
        group.push(first);
        i += 1;
        while i < places.len() && text::same_text(keys[places[i]].as_str(), keys[first].as_str())
            invariant
                start < i <= places@.len(),
                kv == keys.deep_view(),
                ranked.keys == keys,
                is_sorting(&ranked, places@),
                first == places@[start as int],
                first < keys@.len(),
                group@ == places@.subrange(start as int, i as int),
                forall|k: int|
                    start <= k < i ==> kv[#[trigger] places@[k] as int] == kv[first as int],
            decreases places.len() - i,
        {
            assert(places@[i as int] < ranked.count());
            group.push(places[i]);
            i += 1;
            assert(group@ =~= places@.subrange(start as int, i as int));
        }
        let ghost before = out.deep_view();
        let ghost gv = group@;
        proof {
            if i < places@.len() {
                assert(places@[i as int] < ranked.count());
            }
            assert(is_group(kv, gv)) by {
                assert forall|k: int| 0 <= k < gv.len() implies #[trigger] gv[k] < kv.len()
                    && kv[gv[k] as int] == kv[gv[0] as int] by {
                    assert(gv[k] == places@[start + k]);
                    assert(places@[start + k] < ranked.count());
                    assert(kv[places@[start + k] as int] == kv[first as int]);
                }
                assert forall|a: int, b: int| 0 <= a < b < gv.len() implies gv[a] < gv[b] by {
                    assert(comes_before(
                        &ranked,
                        places@[start + a] as int,
                        places@[start + b] as int,
                    ));
                    assert(kv[places@[start + a] as int] == kv[places@[start + b] as int]);
                    text::lemma_text_less_irreflexive(kv[first as int]);
                }
            }
            if start > 0 {
                let u = kv[places@[start - 1] as int];
                let v = kv[first as int];
                assert(places@[start - 1] < ranked.count());
                assert(comes_before(&ranked, places@[start - 1] as int, first as int));
                text::lemma_text_less_total(u, v);
                assert(text::text_less(u, v));
            }
        }
        out.push(group);
        proof {
            assert(out@.last().deep_view() =~= gv);
            let now = out.deep_view();
            assert(now =~= before.push(gv));
            assert forall|g: int| 0 <= g < out@.len() implies is_group(kv, #[trigger] now[g]) by {
                if g < before.len() {
                    assert(now[g] == before[g]);
                }
            }
            assert forall|a: int, b: int| 0 <= a < b < out@.len() implies text::text_less(
                key_of(kv, #[trigger] now[a]),
                key_of(kv, #[trigger] now[b]),
            ) by {
                assert(now[a] == before[a]);
                if b < before.len() {
                    assert(now[b] == before[b]);
                } else {
                    let l = before.len() - 1;
                    if a < l {
                        assert(text::text_less(key_of(kv, before[a]), key_of(kv, before[l])));
                        text::lemma_text_less_transitive(
                            key_of(kv, before[a]),
                            key_of(kv, before[l]),
                            key_of(kv, gv),
                        );
                    }
                }
            }
            assert forall|j: int| 0 <= j < i implies is_grouped(now, #[trigger] places@[j]) by {
                if j < start {
                    assert(is_grouped(before, places@[j]));
                    let g = choose|g: int|
                        0 <= g < before.len() && (#[trigger] before[g]).contains(places@[j]);
                    assert(now[g].contains(places@[j]));
                } else {
                    assert(gv[j - start] == places@[j]);
                    assert(now[before.len() as int].contains(places@[j]));
                }
            }
            assert(kv[places@[i - 1] as int] == key_of(kv, gv)) by {
                assert(kv[places@[i - 1] as int] == kv[first as int]);
                assert(gv[0] == first);
            }
        }
    }
    proof {
        assert forall|v: usize| v < kv.len() implies #[trigger] is_grouped(out.deep_view(), v) by {
            lemma_sorting_covers(&ranked, places@, v);
            let j = choose|j: int| 0 <= j < places@.len() && places@[j] == v;
            assert(is_grouped(out.deep_view(), places@[j]));
        }
        assert(out.deep_view().len() == out@.len());
    }
    out
}

} // verus!
