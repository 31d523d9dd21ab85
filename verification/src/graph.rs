//! Directed graphs over the nodes `0, 1, ..`: a search for loops, and an order
//! in which each node comes after the nodes that it points to.
//!
//! A graph is the list of each node's successors. The search can take nodes of
//! one class for one node; a class is a number, that of one of its nodes.

use vstd::prelude::*;

verus! {

/// Whether `a` points to `b`.
pub open spec fn edge(g: Seq<Seq<usize>>, a: usize, b: usize) -> bool {
    a < g.len() && g[a as int].contains(b)
}

/// Whether every successor is a node.
pub open spec fn closed_graph(g: Seq<Seq<usize>>) -> bool {
    forall|a: usize, b: usize| edge(g, a, b) ==> b < g.len()
}

/// Whether each node of `w` points to the next.
pub open spec fn is_walk(g: Seq<Seq<usize>>, w: Seq<usize>) -> bool {
    &&& w.len() > 0
    &&& forall|k: int| 0 <= k < w.len() - 1 ==> #[trigger] edge_at(g, w, k)
}

pub open spec fn edge_at(g: Seq<Seq<usize>>, w: Seq<usize>, k: int) -> bool {
    edge(g, w[k], w[k + 1])
}

/// Whether `w` is a walk that ends where it began.
pub open spec fn is_loop(g: Seq<Seq<usize>>, w: Seq<usize>) -> bool {
    is_walk(g, w) && w.len() >= 2 && w[0] == w.last()
}

pub open spec fn has_loop(g: Seq<Seq<usize>>) -> bool {
    exists|w: Seq<usize>| is_loop(g, w)
}

/// Whether every node of `order` comes after all its successors.
pub open spec fn successors_first(g: Seq<Seq<usize>>, order: Seq<usize>) -> bool {
    forall|k: int, d: usize|
        0 <= k < order.len() && #[trigger] edge(g, order[k], d) ==> #[trigger] order.take(
            k,
        ).contains(d)
}

// ---------------------------------------------------------------------------
// The search for loops
// ---------------------------------------------------------------------------

/// How far a search has come: which classes of nodes it has entered, and the
/// loops that it has met.
#[verifier::ext_equal]
pub struct Search {
    pub visited: Seq<bool>,
    pub cycles: Seq<Seq<usize>>,
}

/// The classes of the nodes of `path`.
pub open spec fn along(class: Seq<usize>, path: Seq<usize>) -> Seq<usize> {
    path.map_values(|v: usize| class[v as int])
}

/// Whether every one of `n` nodes has a class below `n`.
pub open spec fn are_classes(class: Seq<usize>, n: int) -> bool {
    class.len() == n && forall|i: int| 0 <= i < n ==> #[trigger] class[i] < n
}

/// Whether one of `cycles` goes through the classes of `c`.
pub open spec fn already_met(class: Seq<usize>, cycles: Seq<Seq<usize>>, c: Seq<usize>) -> bool {
    exists|k: int| 0 <= k < cycles.len() && along(class, #[trigger] cycles[k]) == along(class, c)
}

/// `cycles` with `c`, unless one through the same classes is there.
pub open spec fn with_cycle(class: Seq<usize>, cycles: Seq<Seq<usize>>, c: Seq<usize>) -> Seq<
    Seq<usize>,
> {
    if already_met(class, cycles, c) {
        cycles
    } else {
        cycles.push(c)
    }
}

/// Where `node` first stands in `path`, or the length of `path`.
pub open spec fn place(path: Seq<usize>, node: usize) -> int
    decreases path.len(),
{
    if path.len() == 0 || path[0] == node {
        0
    } else {
        1 + place(path.drop_first(), node)
    }
}

/// The part of `path` from the first node of `node`'s class on, closed with
/// `node`.
pub open spec fn loop_back(class: Seq<usize>, path: Seq<usize>, node: usize) -> Seq<usize> {
    path.skip(place(along(class, path), class[node as int])).push(node)
}

/// A depth-first search that enters `node` after the nodes of `path`. It enters
/// each class of `one` once. Where it comes to a class that it is in, it has met
/// a loop, if the path holds a node of the same class of `kin`.
pub open spec fn visit(
    g: Seq<Seq<usize>>,
    one: Seq<usize>,
    kin: Seq<usize>,
    node: usize,
    path: Seq<usize>,
    st: Search,
) -> Search
    decreases g.len() - path.len(), 0nat,
{
    if node >= g.len() {
        st
    } else if along(one, path).contains(one[node as int]) {
        if along(kin, path).contains(kin[node as int]) {
            Search {
                visited: st.visited,
                cycles: with_cycle(one, st.cycles, loop_back(kin, path, node)),
            }
        } else {
            st
        }
    } else if path.len() >= g.len() || st.visited[one[node as int] as int] {
        st
    } else {
        visit_all(
            g,
            one,
            kin,
            g[node as int],
            path.push(node),
            Search {
                visited: st.visited.update(one[node as int] as int, true),
                cycles: st.cycles,
            },
        )
    }
}

/// A depth-first search that enters each of `nodes` in turn.
pub open spec fn visit_all(
    g: Seq<Seq<usize>>,
    one: Seq<usize>,
    kin: Seq<usize>,
    nodes: Seq<usize>,
    path: Seq<usize>,
    st: Search,
) -> Search
    decreases g.len() - path.len(), nodes.len() + 1,
{
    if nodes.len() == 0 {
        st
    } else {
        visit_all(
            g,
            one,
            kin,
            nodes.drop_first(),
            path,
            visit(g, one, kin, nodes[0], path, st),
        )
    }
}

/// The nodes of `g` in order.
pub open spec fn all_nodes(g: Seq<Seq<usize>>) -> Seq<usize> {
    Seq::new(g.len(), |i: int| i as usize)
}

/// A search that has entered nothing.
pub open spec fn fresh_search(n: nat) -> Search {
    Search { visited: Seq::new(n, |i: int| false), cycles: Seq::empty() }
}

/// The loops that a depth-first search from each node in order meets, where the
/// nodes of a class of `one` count as one node.
pub open spec fn loops_met(g: Seq<Seq<usize>>, one: Seq<usize>, kin: Seq<usize>) -> Seq<Seq<usize>> {
    visit_all(g, one, kin, all_nodes(g), Seq::empty(), fresh_search(g.len())).cycles
}

proof fn lemma_place(path: Seq<usize>, node: usize, i: int)
    requires
        0 <= i <= path.len(),
        forall|j: int| 0 <= j < i ==> #[trigger] path[j] != node,
        i < path.len() ==> path[i] == node,
    ensures
        place(path, node) == i,
    decreases path.len(),
{
    if path.len() > 0 && path[0] != node {
        let t = path.drop_first();
        assert(i > 0);
        assert forall|j: int| 0 <= j < i - 1 implies #[trigger] t[j] != node by {
            assert(t[j] == path[j + 1]);
        }
        lemma_place(t, node, i - 1);
    } else if path.len() > 0 && i > 0 {
        assert(path[0] != node);
    }
}

proof fn lemma_place_is(path: Seq<usize>, node: usize)
    requires
        path.contains(node),
    ensures
        0 <= place(path, node) < path.len(),
        path[place(path, node)] == node,
    decreases path.len(),
{
    if path[0] != node {
        let k = choose|k: int| 0 <= k < path.len() && path[k] == node;
        assert(path.drop_first()[k - 1] == node);
        lemma_place_is(path.drop_first(), node);
    }
}

/// Where the class `c` first stands along `path`.
fn find_in(class: &Vec<usize>, path: &Vec<usize>, c: usize) -> (i: usize)
    requires
        forall|k: int| 0 <= k < path@.len() ==> #[trigger] path@[k] < class@.len(),
    ensures
        i <= path@.len(),
        i == place(along(class@, path@), c),
        (i < path@.len()) == along(class@, path@).contains(c),
{
    let ghost p = along(class@, path@);
    let mut i: usize = 0;
    while i < path.len() && class[path[i]] != c
        invariant
            i <= path@.len(),
            p == along(class@, path@),
            forall|k: int| 0 <= k < path@.len() ==> #[trigger] path@[k] < class@.len(),
            forall|j: int| 0 <= j < i ==> #[trigger] p[j] != c,
        decreases path.len() - i,
    {
        i += 1;
    }
    proof {
        if i < path@.len() {
            assert(p[i as int] == c);
        }
        lemma_place(p, c, i as int);
    }
    i
}

/// Whether the two lists go through the same classes.
fn same_classes(class: &Vec<usize>, a: &Vec<usize>, b: &Vec<usize>) -> (r: bool)
    requires
        forall|k: int| 0 <= k < a@.len() ==> #[trigger] a@[k] < class@.len(),
        forall|k: int| 0 <= k < b@.len() ==> #[trigger] b@[k] < class@.len(),
    ensures
        r == (along(class@, a@) == along(class@, b@)),
{
    let ghost x = along(class@, a@);
    let ghost y = along(class@, b@);
    if a.len() != b.len() {
        assert(x.len() != y.len());
        return false;
    }
    let mut i: usize = 0;
    while i < a.len()
        invariant
            i <= a@.len(),
            a@.len() == b@.len(),
            x == along(class@, a@),
            y == along(class@, b@),
            forall|k: int| 0 <= k < a@.len() ==> #[trigger] a@[k] < class@.len(),
            forall|k: int| 0 <= k < b@.len() ==> #[trigger] b@[k] < class@.len(),
            forall|k: int| 0 <= k < i ==> #[trigger] x[k] == y[k],
        decreases a.len() - i,
    {
        if class[a[i]] != class[b[i]] {
            assert(x[i as int] != y[i as int]);
            return false;
        }
        assert(x[i as int] == y[i as int]);
        i += 1;
    }
    assert(x =~= y);
    true
}

/// Whether all nodes of all lists are below `n`.
pub open spec fn nodes_below(lists: Seq<Vec<usize>>, n: int) -> bool {
    forall|k: int, j: int|
        0 <= k < lists.len() && 0 <= j < lists[k]@.len() ==> #[trigger] lists[k]@[j] < n
}

fn met_before(class: &Vec<usize>, cycles: &Vec<Vec<usize>>, c: &Vec<usize>) -> (r: bool)
    requires
        nodes_below(cycles@, class@.len() as int),
        forall|k: int| 0 <= k < c@.len() ==> #[trigger] c@[k] < class@.len(),
    ensures
        r == already_met(class@, cycles.deep_view(), c@),
{
    let ghost met = cycles.deep_view();
    let mut i: usize = 0;
    while i < cycles.len()
        invariant
            i <= cycles@.len(),
            met == cycles.deep_view(),
            nodes_below(cycles@, class@.len() as int),
            forall|k: int| 0 <= k < c@.len() ==> #[trigger] c@[k] < class@.len(),
            forall|k: int|
                0 <= k < i ==> along(class@, #[trigger] met[k]) != along(class@, c@),
        decreases cycles.len() - i,
    {
        assert(met[i as int] =~= cycles@[i as int]@);
        if same_classes(class, &cycles[i], c) {
            return true;
        }
        i += 1;
    }
    false
}

/// Enters `node` after the nodes of `path`.
fn search_from(
    g: &Vec<Vec<usize>>,
    one: &Vec<usize>,
    kin: &Vec<usize>,
    node: usize,
    path: &mut Vec<usize>,
    visited: &mut Vec<bool>,
    cycles: &mut Vec<Vec<usize>>,
)
    requires
        old(visited)@.len() == g@.len(),
        are_classes(one@, g@.len() as int),
        are_classes(kin@, g@.len() as int),
        nodes_below(old(cycles)@, g@.len() as int),
        forall|k: int| 0 <= k < old(path)@.len() ==> #[trigger] old(path)@[k] < g@.len(),
    ensures
        final(path)@ == old(path)@,
        final(visited)@.len() == g@.len(),
        nodes_below(final(cycles)@, g@.len() as int),
        (Search { visited: final(visited)@, cycles: final(cycles).deep_view() }) == visit(
            g.deep_view(),
            one@,
            kin@,
            node,
            old(path)@,
            Search { visited: old(visited)@, cycles: old(cycles).deep_view() },
        ),
    decreases g@.len() - old(path)@.len(), 0nat,
{
    let ghost gv = g.deep_view();
    let ghost path0 = path@;
    if node >= g.len() {
        return ;
    }
    if find_in(one, path, one[node]) < path.len() {
        let at: usize = find_in(kin, path, kin[node]);
        if at >= path.len() {
            return ;
        }
        let mut c: Vec<usize> = Vec::new();
        let mut k: usize = at;
        while k < path.len()
            invariant
                at <= k <= path@.len(),
                path@ == path0,
                c@ == path@.subrange(at as int, k as int),
            decreases path.len() - k,
        {
            c.push(path[k]);
            k += 1;
            assert(c@ =~= path@.subrange(at as int, k as int));
        }
        assert(c@ =~= path0.skip(at as int));
        c.push(node);
        assert forall|k: int| 0 <= k < c@.len() implies #[trigger] c@[k] < g@.len() by {
            if k < c@.len() - 1 {
                assert(c@[k] == path0[at + k]);
            }
        }
        if !met_before(one, cycles, &c) {
            let ghost before = cycles.deep_view();
            let ghost before_raw = cycles@;
            let ghost cv = c@;
            cycles.push(c);
            assert(cycles.deep_view() =~= before.push(cv)) by {
                assert(cycles@.last().deep_view() =~= cv);
            }
            assert forall|k: int, j: int|
                0 <= k < cycles@.len() && 0 <= j < cycles@[k]@.len() implies #[trigger] cycles@[k]@[j]
                < g@.len() by {
                if k < before_raw.len() {
                    assert(cycles@[k] == before_raw[k]);
                    assert(before_raw[k]@[j] < g@.len());
                }
            }
        }
        return ;
    }
    if path.len() >= g.len() || visited[one[node]] {
        return ;
    }
    visited.set(one[node], true);
    path.push(node);
    let ghost path1 = path@;
    let ghost st1 = Search { visited: visited@, cycles: cycles.deep_view() };
    let ghost deps = gv[node as int];
    assert(deps =~= g@[node as int]@);
    let mut k: usize = 0;
    assert(deps.skip(0) =~= deps);
    while k < g[node].len()
        invariant
            k <= deps.len(),
            node < g@.len(),
            gv == g.deep_view(),
            deps == gv[node as int],
            deps == g@[node as int]@,
            path@ == path1,
            path1 == path0.push(node),
            path0 == old(path)@,
            path0.len() < g@.len(),
            forall|k: int| 0 <= k < path1.len() ==> #[trigger] path1[k] < g@.len(),
            visited@.len() == g@.len(),
            are_classes(one@, g@.len() as int),
            are_classes(kin@, g@.len() as int),
            nodes_below(cycles@, g@.len() as int),
            visit_all(gv, one@, kin@, deps, path1, st1) == visit_all(
                gv,
                one@,
                kin@,
                deps.skip(k as int),
                path1,
                Search { visited: visited@, cycles: cycles.deep_view() },
            ),
        decreases deps.len() - k,
    {
        let ghost rest = deps.skip(k as int);
        assert(rest[0] == deps[k as int]);
        assert(rest.drop_first() =~= deps.skip(k + 1));
        let dep: usize = g[node][k];
        search_from(g, one, kin, dep, path, visited, cycles);
        k += 1;
    }
    assert(deps.skip(k as int) =~= Seq::<usize>::empty());
    path.pop();
    assert(path@ =~= path0);
}

/// The loops that a depth-first search from each node in order meets, where the
/// nodes of a class of `one` count as one node. A loop through the same classes
/// is met once.
pub fn find_loops(g: &Vec<Vec<usize>>, one: &Vec<usize>, kin: &Vec<usize>) -> (r: Vec<Vec<usize>>)
    requires
        are_classes(one@, g@.len() as int),
        are_classes(kin@, g@.len() as int),
    ensures
        r.deep_view() == loops_met(g.deep_view(), one@, kin@),
        nodes_below(r@, g@.len() as int),
{
    let ghost gv = g.deep_view();
    let ghost nodes = all_nodes(gv);
    let mut visited: Vec<bool> = Vec::new();
    let mut i: usize = 0;
    while i < g.len()
        invariant
            i <= g@.len(),
            visited@ == Seq::new(i as nat, |i: int| false),
        decreases g.len() - i,
    {
        visited.push(false);
        i += 1;
        assert(visited@ =~= Seq::new(i as nat, |i: int| false));
    }
    let mut cycles: Vec<Vec<usize>> = Vec::new();
    let mut path: Vec<usize> = Vec::new();
    let ghost st0 = Search { visited: visited@, cycles: cycles.deep_view() };
    assert(st0 =~= fresh_search(gv.len()));
    assert(path@ =~= Seq::<usize>::empty());
    let mut k: usize = 0;
    assert(nodes.skip(0) =~= nodes);
    while k < g.len()
        invariant
            k <= g@.len(),
            gv == g.deep_view(),
            nodes == all_nodes(gv),
            path@ == Seq::<usize>::empty(),
            visited@.len() == g@.len(),
            are_classes(one@, g@.len() as int),
            are_classes(kin@, g@.len() as int),
            nodes_below(cycles@, g@.len() as int),
            visit_all(gv, one@, kin@, nodes, Seq::empty(), st0) == visit_all(
                gv,
                one@,
                kin@,
                nodes.skip(k as int),
                Seq::empty(),
                Search { visited: visited@, cycles: cycles.deep_view() },
            ),
        decreases g.len() - k,
    {
        let ghost rest = nodes.skip(k as int);
        assert(rest[0] == k);
        assert(rest.drop_first() =~= nodes.skip(k + 1));
        search_from(g, one, kin, k, &mut path, &mut visited, &mut cycles);
        k += 1;
    }
    assert(nodes.skip(k as int) =~= Seq::<usize>::empty());
    cycles
}

// ---------------------------------------------------------------------------
// What the search tells of the graph
// ---------------------------------------------------------------------------

/// Whether `w` is a walk that ends in the class in which it began.
pub open spec fn is_round(g: Seq<Seq<usize>>, kin: Seq<usize>, w: Seq<usize>) -> bool {
    is_walk(g, w) && w.len() >= 2 && kin[w[0] as int] == kin[w.last() as int]
}

/// Whether all of `cycles` end in the class in which they began.
pub open spec fn all_rounds(
    g: Seq<Seq<usize>>,
    kin: Seq<usize>,
    cycles: Seq<Seq<usize>>,
) -> bool {
    forall|k: int| 0 <= k < cycles.len() ==> is_round(g, kin, #[trigger] cycles[k])
}

/// Whether nodes of one class point to the same nodes.
pub open spec fn kin_point_alike(g: Seq<Seq<usize>>, kin: Seq<usize>) -> bool {
    forall|a: int, b: int|
        0 <= a < g.len() && 0 <= b < g.len() && #[trigger] kin[a] == #[trigger] kin[b] ==> g[a]
            == g[b]
}

/// Whether `path` is a walk that goes on to `node`, or empty.
spec fn leads_to(g: Seq<Seq<usize>>, path: Seq<usize>, node: usize) -> bool {
    path.len() == 0 || (is_walk(g, path) && edge(g, path.last(), node))
}

proof fn lemma_walk_push(g: Seq<Seq<usize>>, path: Seq<usize>, node: usize)
    requires
        leads_to(g, path, node),
    ensures
        is_walk(g, path.push(node)),
{
    let w = path.push(node);
    assert forall|k: int| 0 <= k < w.len() - 1 implies #[trigger] edge_at(g, w, k) by {
        if k < path.len() - 1 {
            assert(edge_at(g, path, k));
        }
    }
}

proof fn lemma_loop_back(g: Seq<Seq<usize>>, kin: Seq<usize>, path: Seq<usize>, node: usize)
    requires
        leads_to(g, path, node),
        along(kin, path).contains(kin[node as int]),
    ensures
        is_round(g, kin, loop_back(kin, path, node)),
{
    let p = along(kin, path);
    lemma_place_is(p, kin[node as int]);
    let i = place(p, kin[node as int]);
    let w = loop_back(kin, path, node);
    assert forall|k: int| 0 <= k < w.len() - 1 implies #[trigger] edge_at(g, w, k) by {
        if k < w.len() - 2 {
            assert(edge_at(g, path, i + k));
        }
    }
    assert(w[0] == path[i]);
    assert(p[i] == kin[path[i] as int]);
}

proof fn lemma_visit_sound(
    g: Seq<Seq<usize>>,
    one: Seq<usize>,
    kin: Seq<usize>,
    node: usize,
    path: Seq<usize>,
    st: Search,
)
    requires
        leads_to(g, path, node),
        all_rounds(g, kin, st.cycles),
    ensures
        all_rounds(g, kin, visit(g, one, kin, node, path, st).cycles),
    decreases g.len() - path.len(), 0nat,
{
    if node >= g.len() {
    } else if along(one, path).contains(one[node as int]) {
        if along(kin, path).contains(kin[node as int]) {
            lemma_loop_back(g, kin, path, node);
        }
    } else if path.len() >= g.len() || st.visited[one[node as int] as int] {
    } else {
        lemma_walk_push(g, path, node);
        let st1 = Search {
            visited: st.visited.update(one[node as int] as int, true),
            cycles: st.cycles,
        };
        let deps = g[node as int];
        assert forall|k: int| 0 <= k < deps.len() implies leads_to(
            g,
            path.push(node),
            #[trigger] deps[k],
        ) by {
            assert(deps.contains(deps[k]));
        }
        lemma_visit_all_sound(g, one, kin, deps, path.push(node), st1);
    }
}

proof fn lemma_visit_all_sound(
    g: Seq<Seq<usize>>,
    one: Seq<usize>,
    kin: Seq<usize>,
    nodes: Seq<usize>,
    path: Seq<usize>,
    st: Search,
)
    requires
        forall|k: int| 0 <= k < nodes.len() ==> leads_to(g, path, #[trigger] nodes[k]),
        all_rounds(g, kin, st.cycles),
    ensures
        all_rounds(g, kin, visit_all(g, one, kin, nodes, path, st).cycles),
    decreases g.len() - path.len(), nodes.len() + 1,
{
    if nodes.len() > 0 {
        lemma_visit_sound(g, one, kin, nodes[0], path, st);
        let rest = nodes.drop_first();
        assert forall|k: int| 0 <= k < rest.len() implies leads_to(g, path, #[trigger] rest[k]) by {
            assert(rest[k] == nodes[k + 1]);
        }
        lemma_visit_all_sound(
            g,
            one,
            kin,
            rest,
            path,
            visit(g, one, kin, nodes[0], path, st),
        );
    }
}

proof fn lemma_visit_grows(
    g: Seq<Seq<usize>>,
    one: Seq<usize>,
    kin: Seq<usize>,
    node: usize,
    path: Seq<usize>,
    st: Search,
)
    ensures
        visit(g, one, kin, node, path, st).cycles.len() >= st.cycles.len(),
    decreases g.len() - path.len(), 0nat,
{
    if node >= g.len() {
    } else if along(one, path).contains(one[node as int]) {
    } else if path.len() >= g.len() || st.visited[one[node as int] as int] {
    } else {
        lemma_visit_all_grows(
            g,
            one,
            kin,
            g[node as int],
            path.push(node),
            Search {
                visited: st.visited.update(one[node as int] as int, true),
                cycles: st.cycles,
            },
        );
    }
}

proof fn lemma_visit_all_grows(
    g: Seq<Seq<usize>>,
    one: Seq<usize>,
    kin: Seq<usize>,
    nodes: Seq<usize>,
    path: Seq<usize>,
    st: Search,
)
    ensures
        visit_all(g, one, kin, nodes, path, st).cycles.len() >= st.cycles.len(),
    decreases g.len() - path.len(), nodes.len() + 1,
{
    if nodes.len() > 0 {
        lemma_visit_grows(g, one, kin, nodes[0], path, st);
        lemma_visit_all_grows(
            g,
            one,
            kin,
            nodes.drop_first(),
            path,
            visit(g, one, kin, nodes[0], path, st),
        );
    }
}

/// A list of different numbers below `n` has at most `n` of them.
pub proof fn lemma_distinct_below(s: Seq<usize>, n: int)
    requires
        s.no_duplicates(),
        forall|k: int| 0 <= k < s.len() ==> #[trigger] s[k] < n,
    ensures
        s.len() <= n || n < 0,
    decreases n,
{
    if n <= 0 {
        if s.len() > 0 {
            assert(s[0] < n);
        }
    } else {
        if exists|i: int| 0 <= i < s.len() && #[trigger] s[i] == n - 1 {
            let i = choose|i: int| 0 <= i < s.len() && #[trigger] s[i] == n - 1;
            let t = s.remove(i);
            assert forall|k: int| 0 <= k < t.len() implies #[trigger] t[k] < n - 1 by {
                let o = if k < i { k } else { k + 1 };
                assert(t[k] == s[o]);
                assert(s[o] != s[i]);
            }
            assert(t.no_duplicates());
            lemma_distinct_below(t, n - 1);
        } else {
            assert forall|k: int| 0 <= k < s.len() implies #[trigger] s[k] < n - 1 by {
                assert(s[k] != n - 1);
            }
            lemma_distinct_below(s, n - 1);
        }
    }
}

/// A list that holds every number below `n` has at least `n` entries.
proof fn lemma_covers_below(s: Seq<usize>, n: int)
    requires
        0 <= n <= usize::MAX + 1,
        forall|v: usize| v < n ==> #[trigger] s.contains(v),
    ensures
        s.len() >= n,
    decreases n,
{
    if n > 0 {
        let last = (n - 1) as usize;
        assert(s.contains(last));
        let i = choose|i: int| 0 <= i < s.len() && s[i] == last;
        let t = s.remove(i);
        assert forall|v: usize| v < n - 1 implies #[trigger] t.contains(v) by {
            assert(s.contains(v));
            let j = choose|j: int| 0 <= j < s.len() && s[j] == v;
            assert(j != i);
            if j < i {
                assert(t[j] == v);
            } else {
                assert(t[j - 1] == v);
            }
        }
        lemma_covers_below(t, n - 1);
    }
}

/// Whether every class that a node of `done` points to stands before it.
spec fn classes_first(g: Seq<Seq<usize>>, one: Seq<usize>, done: Seq<usize>) -> bool {
    forall|k: int, d: usize|
        0 <= k < done.len() && #[trigger] edge(g, done[k], d) ==> #[trigger] along(
            one,
            done.take(k),
        ).contains(one[d as int])
}

/// What holds of a search that has met no loop: the classes that it has entered
/// are those on its path and those that it has left, and the latter, in the
/// order in which it left them, have the classes that they point to first.
spec fn unlooped(
    g: Seq<Seq<usize>>,
    one: Seq<usize>,
    path: Seq<usize>,
    st: Search,
    done: Seq<usize>,
) -> bool {
    &&& st.visited.len() == g.len()
    &&& along(one, path).no_duplicates()
    &&& forall|k: int| 0 <= k < path.len() ==> #[trigger] path[k] < g.len()
    &&& forall|k: int| 0 <= k < done.len() ==> #[trigger] done[k] < g.len()
    &&& forall|c: usize|
        c < g.len() ==> (#[trigger] st.visited[c as int] <==> along(one, path).contains(c) || along(
            one,
            done,
        ).contains(c))
    &&& forall|c: usize| #[trigger]
        along(one, done).contains(c) ==> c < g.len() && !along(one, path).contains(c)
    &&& classes_first(g, one, done)
}

proof fn lemma_along_push(class: Seq<usize>, path: Seq<usize>, v: usize)
    ensures
        along(class, path.push(v)) == along(class, path).push(class[v as int]),
{
    assert(along(class, path.push(v)) =~= along(class, path).push(class[v as int]));
}

proof fn lemma_push_contains(s: Seq<usize>, v: usize, x: usize)
    ensures
        s.push(v).contains(x) <==> s.contains(x) || x == v,
{
    let t = s.push(v);
    assert(t[t.len() - 1] == v);
    if s.contains(x) {
        let k = choose|k: int| 0 <= k < s.len() && s[k] == x;
        assert(t[k] == x);
    }
    if t.contains(x) && x != v {
        let k = choose|k: int| 0 <= k < t.len() && t[k] == x;
        assert(s[k] == x);
    }
}

proof fn lemma_visit_complete(
    g: Seq<Seq<usize>>,
    one: Seq<usize>,
    node: usize,
    path: Seq<usize>,
    st: Search,
    done: Seq<usize>,
) -> (r: Seq<usize>)
    requires
        closed_graph(g),
        are_classes(one, g.len() as int),
        node < g.len(),
        unlooped(g, one, path, st, done),
        visit(g, one, one, node, path, st).cycles.len() == 0,
    ensures
        unlooped(g, one, path, visit(g, one, one, node, path, st), r),
        along(one, r).contains(one[node as int]),
        done.is_prefix_of(r),
    decreases g.len() - path.len(), 0nat,
{
    let c = one[node as int];
    let p = along(one, path);
    let q = along(one, done);
    assert(c < g.len());
    if p.contains(c) {
        assert(with_cycle(one, st.cycles, loop_back(one, path, node)).len() > 0);
        done
    } else if st.visited[c as int] {
        done
    } else {
        let path1 = path.push(node);
        lemma_along_push(one, path, node);
        let p1 = p.push(c);
        assert(p1.no_duplicates());
        assert forall|k: int| 0 <= k < p1.len() implies #[trigger] p1[k] < g.len() by {
            if k < p.len() {
                assert(p[k] == one[path[k] as int]);
                assert(path[k] < g.len());
            }
        }
        lemma_distinct_below(p1, g.len() as int);
        let st1 = Search { visited: st.visited.update(c as int, true), cycles: st.cycles };
        let deps = g[node as int];
        assert forall|x: usize| x < g.len() implies (#[trigger] st1.visited[x as int]
            <==> p1.contains(x) || q.contains(x)) by {
            assert(st.visited[x as int] <==> p.contains(x) || q.contains(x));
            lemma_push_contains(p, c, x);
        }
        assert forall|x: usize| #[trigger] q.contains(x) implies x < g.len() && !p1.contains(
            x,
        ) by {
            lemma_push_contains(p, c, x);
            assert(st.visited[x as int]);
        }
        assert forall|k: int| 0 <= k < deps.len() implies #[trigger] deps[k] < g.len() by {
            assert(edge(g, node, deps[k]));
        }
        let r1 = lemma_visit_all_complete(g, one, deps, path1, st1, done);
        let st2 = visit(g, one, one, node, path, st);
        let r = r1.push(node);
        let q1 = along(one, r1);
        let q2 = along(one, r);
        lemma_along_push(one, r1, node);
        lemma_push_contains(q1, c, c);
        assert forall|x: usize| x < g.len() implies (#[trigger] st2.visited[x as int]
            <==> p.contains(x) || q2.contains(x)) by {
            assert(st2.visited[x as int] <==> p1.contains(x) || q1.contains(x));
            lemma_push_contains(p, c, x);
            lemma_push_contains(q1, c, x);
        }
        assert forall|x: usize| #[trigger] q2.contains(x) implies x < g.len() && !p.contains(x) by {
            lemma_push_contains(q1, c, x);
            lemma_push_contains(p, c, x);
        }
        assert forall|k: int, d: usize|
            0 <= k < r.len() && #[trigger] edge(g, r[k], d) implies #[trigger] along(
            one,
            r.take(k),
        ).contains(one[d as int]) by {
            if k < r1.len() {
                assert(edge(g, r1[k], d));
                assert(r1.take(k) =~= r.take(k));
            } else {
                let i = choose|i: int| 0 <= i < deps.len() && deps[i] == d;
                assert(q1.contains(one[deps[i] as int]));
                assert(r.take(k) =~= r1);
            }
        }
        r
    }
}

proof fn lemma_visit_all_complete(
    g: Seq<Seq<usize>>,
    one: Seq<usize>,
    nodes: Seq<usize>,
    path: Seq<usize>,
    st: Search,
    done: Seq<usize>,
) -> (r: Seq<usize>)
    requires
        closed_graph(g),
        are_classes(one, g.len() as int),
        forall|k: int| 0 <= k < nodes.len() ==> #[trigger] nodes[k] < g.len(),
        unlooped(g, one, path, st, done),
        visit_all(g, one, one, nodes, path, st).cycles.len() == 0,
    ensures
        unlooped(g, one, path, visit_all(g, one, one, nodes, path, st), r),
        forall|k: int|
            0 <= k < nodes.len() ==> along(one, r).contains(one[#[trigger] nodes[k] as int]),
        done.is_prefix_of(r),
    decreases g.len() - path.len(), nodes.len() + 1,
{
    if nodes.len() == 0 {
        done
    } else {
        let st1 = visit(g, one, one, nodes[0], path, st);
        let rest = nodes.drop_first();
        lemma_visit_all_grows(g, one, one, rest, path, st1);
        let r1 = lemma_visit_complete(g, one, nodes[0], path, st, done);
        assert forall|k: int| 0 <= k < rest.len() implies #[trigger] rest[k] < g.len() by {
            assert(rest[k] == nodes[k + 1]);
        }
        let r = lemma_visit_all_complete(g, one, rest, path, st1, r1);
        assert forall|k: int| 0 <= k < nodes.len() implies along(one, r).contains(
            one[#[trigger] nodes[k] as int],
        ) by {
            if k > 0 {
                assert(rest[k - 1] == nodes[k]);
            } else {
                let a1 = along(one, r1);
                let j = choose|j: int| 0 <= j < a1.len() && a1[j] == one[nodes[0] as int];
                assert(r[j] == r1[j]);
                assert(along(one, r)[j] == a1[j]);
            }
        }
        assert(done.is_prefix_of(r));
        r
    }
}

/// A search that meets no loop gives an order of the classes: each is that of
/// some node of the list, behind the classes that this node points to.
proof fn lemma_no_loop_met_gives_order(g: Seq<Seq<usize>>, one: Seq<usize>) -> (r: Seq<usize>)
    requires
        closed_graph(g),
        are_classes(one, g.len() as int),
        g.len() <= usize::MAX,
        loops_met(g, one, one).len() == 0,
    ensures
        classes_first(g, one, r),
        forall|k: int| 0 <= k < r.len() ==> #[trigger] r[k] < g.len(),
        forall|v: int| 0 <= v < g.len() ==> along(one, r).contains(#[trigger] one[v]),
{
    let st = fresh_search(g.len());
    let nodes = all_nodes(g);
    let none = Seq::<usize>::empty();
    assert(along(one, none) =~= none);
    assert(unlooped(g, one, none, st, none));
    let r = lemma_visit_all_complete(g, one, nodes, none, st, none);
    assert forall|v: int| 0 <= v < g.len() implies along(one, r).contains(#[trigger] one[v]) by {
        assert(nodes[v] == v);
    }
    r
}

/// Along a walk that starts in an order with successors first, each node
/// comes earlier in the order than the one before it.
proof fn lemma_walk_descends(g: Seq<Seq<usize>>, order: Seq<usize>, w: Seq<usize>, at: int) -> (r:
    int)
    requires
        successors_first(g, order),
        is_walk(g, w),
        w.len() >= 2,
        0 <= at < order.len(),
        order[at] == w[0],
        forall|j: int| 0 <= j < at ==> #[trigger] order[j] != w[0],
    ensures
        0 <= r < at,
        order[r] == w.last(),
    decreases w.len(),
{
    assert(edge_at(g, w, 0));
    assert(edge(g, order[at], w[1]));
    let before = order.take(at);
    assert(before.contains(w[1]));
    let j = place(before, w[1]);
    lemma_place_is(before, w[1]);
    assert(order[j] == w[1]);
    if w.len() == 2 {
        j
    } else {
        let t = w.drop_first();
        assert forall|k: int| 0 <= k < t.len() - 1 implies #[trigger] edge_at(g, t, k) by {
            assert(edge_at(g, w, k + 1));
        }
        lemma_place_least(before, w[1]);
        assert forall|i: int| 0 <= i < j implies #[trigger] order[i] != t[0] by {
            assert(before[i] == order[i]);
        }
        lemma_walk_descends(g, order, t, j)
    }
}

proof fn lemma_place_least(path: Seq<usize>, node: usize)
    ensures
        0 <= place(path, node) <= path.len(),
        forall|j: int| 0 <= j < place(path, node) ==> #[trigger] path[j] != node,
    decreases path.len(),
{
    if path.len() > 0 && path[0] != node {
        let t = path.drop_first();
        lemma_place_least(t, node);
        assert forall|j: int| 0 <= j < place(path, node) implies #[trigger] path[j] != node by {
            if j > 0 {
                assert(t[j - 1] == path[j]);
            }
        }
    }
}

/// A graph has no loop where those of its nodes that point to others can be
/// ordered with successors first.
pub proof fn lemma_ordered_graph_has_no_loop(g: Seq<Seq<usize>>, order: Seq<usize>)
    requires
        successors_first(g, order),
        forall|a: usize, b: usize| #[trigger] edge(g, a, b) ==> order.contains(a),
    ensures
        !has_loop(g),
{
    if has_loop(g) {
        let w = choose|w: Seq<usize>| is_loop(g, w);
        assert(edge_at(g, w, 0));
        assert(order.contains(w[0]));
        lemma_place_is(order, w[0]);
        lemma_place_least(order, w[0]);
        let at = place(order, w[0]);
        let r = lemma_walk_descends(g, order, w, at);
        assert(order[r] != w[0]);
    }
}

/// What the search meets are walks that end in the class in which they began.
pub proof fn lemma_loops_met_are_rounds(g: Seq<Seq<usize>>, one: Seq<usize>, kin: Seq<usize>)
    ensures
        all_rounds(g, kin, loops_met(g, one, kin)),
{
    lemma_visit_all_sound(g, one, kin, all_nodes(g), Seq::empty(), fresh_search(g.len()));
}

/// Where nodes of one class point to the same nodes, a walk that ends in the
/// class in which it began shows a loop.
pub proof fn lemma_round_shows_loop(g: Seq<Seq<usize>>, kin: Seq<usize>, w: Seq<usize>)
    requires
        closed_graph(g),
        kin_point_alike(g, kin),
        is_round(g, kin, w),
    ensures
        has_loop(g),
{
    let t = w.update(0, w.last());
    assert(edge_at(g, w, 0));
    assert(edge_at(g, w, w.len() - 2));
    assert(w.last() < g.len());
    assert(kin[w[0] as int] == kin[w.last() as int]);
    assert(g[w[0] as int] == g[w.last() as int]);
    assert forall|k: int| 0 <= k < t.len() - 1 implies #[trigger] edge_at(g, t, k) by {
        assert(edge_at(g, w, k));
    }
    assert(is_loop(g, t));
}

/// The graph of the classes: each class points to the classes to which the node
/// that names it points.
spec fn class_graph(g: Seq<Seq<usize>>, one: Seq<usize>) -> Seq<Seq<usize>> {
    Seq::new(
        g.len(),
        |c: int|
            if one[c] == c {
                along(one, g[c])
            } else {
                Seq::empty()
            },
    )
}

/// Where nodes of one class point to the same nodes, and a class is named by one
/// of its nodes, the search meets a loop exactly where the graph has one.
pub proof fn lemma_loop_met_iff_there(g: Seq<Seq<usize>>, one: Seq<usize>)
    requires
        closed_graph(g),
        g.len() <= usize::MAX,
        are_classes(one, g.len() as int),
        forall|i: int| 0 <= i < g.len() ==> one[#[trigger] one[i] as int] == one[i],
        kin_point_alike(g, one),
    ensures
        loops_met(g, one, one).len() > 0 <==> has_loop(g),
{
    if loops_met(g, one, one).len() > 0 {
        lemma_loops_met_are_rounds(g, one, one);
        lemma_round_shows_loop(g, one, loops_met(g, one, one)[0]);
    } else {
        let r = lemma_no_loop_met_gives_order(g, one);
        let h = class_graph(g, one);
        let order = along(one, r);
        assert forall|k: int, d: usize|
            0 <= k < order.len() && #[trigger] edge(h, order[k], d) implies #[trigger] order.take(
            k,
        ).contains(d) by {
            let v = r[k];
            assert(v < g.len());
            let c = one[v as int];
            assert(order[k] == c && one[c as int] == c);
            assert(g[c as int] == g[v as int]) by {
                assert(one[c as int] == one[v as int]);
            }
            let i = choose|i: int| 0 <= i < h[c as int].len() && h[c as int][i] == d;
            let e = g[v as int][i];
            assert(d == one[e as int]);
            assert(edge(g, v, e));
            assert(edge(g, r[k], e));
            assert(along(one, r.take(k)).contains(one[e as int]));
            assert(along(one, r.take(k)) =~= order.take(k));
        }
        assert forall|a: usize, b: usize| #[trigger] edge(h, a, b) implies order.contains(a) by {
            assert(one[a as int] == a);
        }
        lemma_ordered_graph_has_no_loop(h, order);
        if has_loop(g) {
            let w = choose|w: Seq<usize>| is_loop(g, w);
            let t = along(one, w);
            assert forall|k: int| 0 <= k < t.len() - 1 implies #[trigger] edge_at(h, t, k) by {
                assert(edge_at(g, w, k));
                let a = w[k];
                let b = w[k + 1];
                let c = one[a as int];
                assert(a < g.len() && c < g.len());
                assert(one[c as int] == one[a as int]);
                assert(g[c as int] == g[a as int]);
                let i = choose|i: int| 0 <= i < g[a as int].len() && g[a as int][i] == b;
                assert(h[c as int][i] == one[b as int]);
                assert(h[c as int].contains(one[b as int]));
            }
            assert(is_loop(h, t));
        }
    }
}

/// A graph without a loop has an order of all its nodes with successors first.
proof fn lemma_no_loop_gives_order(g: Seq<Seq<usize>>) -> (r: Seq<usize>)
    requires
        closed_graph(g),
        g.len() <= usize::MAX,
        !has_loop(g),
    ensures
        successors_first(g, r),
        forall|v: usize| v < g.len() ==> #[trigger] r.contains(v),
{
    let each = all_nodes(g);
    assert(are_classes(each, g.len() as int));
    lemma_loop_met_iff_there(g, each);
    let r = lemma_no_loop_met_gives_order(g, each);
    assert(along(each, r) =~= r) by {
        assert forall|k: int| 0 <= k < r.len() implies along(each, r)[k] == r[k] by {
            assert(r[k] < g.len());
        }
    }
    assert forall|k: int, d: usize|
        0 <= k < r.len() && #[trigger] edge(g, r[k], d) implies #[trigger] r.take(k).contains(d) by {
        assert(along(each, r.take(k)).contains(each[d as int]));
        assert(d < g.len());
        let t = along(each, r.take(k));
        let j = choose|j: int| 0 <= j < t.len() && t[j] == d;
        assert(r[j] < g.len());
        assert(r.take(k)[j] == d);
    }
    assert forall|v: usize| v < g.len() implies #[trigger] r.contains(v) by {
        assert(each[v as int] == v);
    }
    r
}

// ---------------------------------------------------------------------------
// The order
// ---------------------------------------------------------------------------

/// Whether `v` may follow `done`: it is not there yet, and its successors are.
pub open spec fn is_ready(g: Seq<Seq<usize>>, done: Seq<usize>, v: usize) -> bool {
    &&& v < g.len()
    &&& !done.contains(v)
    &&& forall|d: usize| #[trigger] edge(g, v, d) ==> done.contains(d)
}

/// Whether the node at `k` is the lowest of those that may follow the nodes
/// before it.
pub open spec fn comes_next(g: Seq<Seq<usize>>, order: Seq<usize>, k: int) -> bool {
    &&& is_ready(g, order.take(k), order[k])
    &&& forall|u: usize| u < order[k] ==> !#[trigger] is_ready(g, order.take(k), u)
}

/// Whether `order` lists every node of `g`, each after its successors, and
/// always the lowest node that these allow.
pub open spec fn is_load_order(g: Seq<Seq<usize>>, order: Seq<usize>) -> bool {
    &&& order.len() == g.len()
    &&& forall|k: int| 0 <= k < order.len() ==> #[trigger] comes_next(g, order, k)
}

/// Whether `w` is a walk from `a` to a node that is no lower than `b`.
pub open spec fn leads_past(g: Seq<Seq<usize>>, w: Seq<usize>, a: usize, b: usize) -> bool {
    is_walk(g, w) && w.len() >= 2 && w[0] == a && w.last() >= b
}

/// A load order lists nodes of the graph, none of them twice, each after its
/// successors.
pub proof fn lemma_load_order(g: Seq<Seq<usize>>, order: Seq<usize>)
    requires
        is_load_order(g, order),
    ensures
        order.no_duplicates(),
        forall|k: int| 0 <= k < order.len() ==> #[trigger] order[k] < g.len(),
        successors_first(g, order),
{
    assert forall|k: int| 0 <= k < order.len() implies #[trigger] order[k] < g.len() by {
        assert(comes_next(g, order, k));
    }
    assert forall|i: int, j: int| 0 <= i < j < order.len() implies order[i] != order[j] by {
        assert(comes_next(g, order, j));
        assert(order.take(j)[i] == order[i]);
    }
    assert forall|k: int, d: usize|
        0 <= k < order.len() && #[trigger] edge(g, order[k], d) implies #[trigger] order.take(
        k,
    ).contains(d) by {
        assert(comes_next(g, order, k));
    }
}

/// A graph has one load order at most.
pub proof fn lemma_load_order_unique(g: Seq<Seq<usize>>, a: Seq<usize>, b: Seq<usize>)
    requires
        is_load_order(g, a),
        is_load_order(g, b),
    ensures
        a == b,
{
    lemma_load_orders_agree(g, a, b, g.len() as int);
    assert(a.take(g.len() as int) =~= a);
    assert(b.take(g.len() as int) =~= b);
}

proof fn lemma_load_orders_agree(g: Seq<Seq<usize>>, a: Seq<usize>, b: Seq<usize>, k: int)
    requires
        is_load_order(g, a),
        is_load_order(g, b),
        0 <= k <= g.len(),
    ensures
        a.take(k) == b.take(k),
    decreases k,
{
    if k > 0 {
        lemma_load_orders_agree(g, a, b, k - 1);
        assert(comes_next(g, a, k - 1));
        assert(comes_next(g, b, k - 1));
        assert(a[k - 1] == b[k - 1]);
        assert(a.take(k) =~= a.take(k - 1).push(a[k - 1]));
        assert(b.take(k) =~= b.take(k - 1).push(b[k - 1]));
    }
}

/// Every node is in the load order.
pub proof fn lemma_load_order_covers(g: Seq<Seq<usize>>, order: Seq<usize>, v: usize)
    requires
        is_load_order(g, order),
        v < g.len(),
    ensures
        order.contains(v),
{
    lemma_load_order(g, order);
    if !order.contains(v) {
        let more = order.push(v);
        assert forall|k: int| 0 <= k < more.len() implies #[trigger] more[k] < g.len() by {
            if k < order.len() {
                assert(order[k] < g.len());
            }
        }
        assert(more.no_duplicates()) by {
            assert forall|i: int, j: int| 0 <= i < j < more.len() implies more[i] != more[j] by {
                if j == order.len() {
                    assert(order.contains(order[i]));
                }
            }
        }
        lemma_distinct_below(more, g.len() as int);
    }
}

/// From the node at `p`, the walk through nodes that do not stand before `i`
/// to one that may stand at `i`.
proof fn lemma_waits_for(g: Seq<Seq<usize>>, order: Seq<usize>, i: int, p: int) -> (w: Seq<usize>)
    requires
        is_load_order(g, order),
        0 <= i <= p < order.len(),
    ensures
        is_walk(g, w),
        w[0] == order[p],
        w.last() >= order[i],
        w.len() >= 2 || order[p] >= order[i],
    decreases p,
{
    lemma_load_order(g, order);
    let done = order.take(i);
    assert(comes_next(g, order, i));
    if is_ready(g, done, order[p]) {
        seq![order[p]]
    } else {
        assert(!done.contains(order[p]));
        let d = choose|d: usize| #[trigger] edge(g, order[p], d) && !done.contains(d);
        assert(order.take(p).contains(d));
        let q = choose|q: int| 0 <= q < p && order.take(p)[q] == d;
        if q < i {
            assert(done[q] == d);
        }
        let t = lemma_waits_for(g, order, i, q);
        let w = seq![order[p]] + t;
        assert forall|k: int| 0 <= k < w.len() - 1 implies #[trigger] edge_at(g, w, k) by {
            if k > 0 {
                assert(edge_at(g, t, k - 1));
            }
        }
        assert(w.last() == t.last());
        w
    }
}

/// A node comes after a higher one only where it leads to that node or to one
/// that is higher still.
pub proof fn lemma_passed_by_needed(g: Seq<Seq<usize>>, order: Seq<usize>, i: int, j: int)
    requires
        is_load_order(g, order),
        0 <= i < j < order.len(),
        order[j] < order[i],
    ensures
        exists|w: Seq<usize>| leads_past(g, w, order[j], order[i]),
{
    let w = lemma_waits_for(g, order, i, j);
    assert(leads_past(g, w, order[j], order[i]));
}

/// Where every node leads to lower ones only, the load order is the order of
/// the nodes.
pub proof fn lemma_ordered_stays(g: Seq<Seq<usize>>, order: Seq<usize>)
    requires
        is_load_order(g, order),
        g.len() <= usize::MAX,
        forall|a: usize, b: usize| #[trigger] edge(g, a, b) ==> b < a,
    ensures
        order == all_nodes(g),
{
    let all = all_nodes(g);
    assert forall|k: int| 0 <= k < all.len() implies #[trigger] comes_next(g, all, k) by {
        let done = all.take(k);
        assert forall|u: usize| u < k implies done.contains(u) by {
            assert(done[u as int] == u);
        }
        assert(!done.contains(all[k]));
    }
    lemma_load_order_unique(g, order, all);
}

/// Whether all of `nodes` are marked.
fn all_marked(nodes: &Vec<usize>, marks: &Vec<bool>) -> (r: bool)
    requires
        forall|k: int| 0 <= k < nodes@.len() ==> #[trigger] nodes@[k] < marks@.len(),
    ensures
        r == (forall|d: usize| #[trigger] nodes@.contains(d) ==> marks@[d as int]),
{
    let mut i: usize = 0;
    while i < nodes.len()
        invariant
            i <= nodes@.len(),
            forall|k: int| 0 <= k < nodes@.len() ==> #[trigger] nodes@[k] < marks@.len(),
            forall|k: int| 0 <= k < i ==> marks@[#[trigger] nodes@[k] as int],
        decreases nodes.len() - i,
    {
        if !marks[nodes[i]] {
            assert(nodes@.contains(nodes@[i as int]));
            return false;
        }
        i += 1;
    }
    assert forall|d: usize| #[trigger] nodes@.contains(d) implies marks@[d as int] by {
        let k = choose|k: int| 0 <= k < nodes@.len() && nodes@[k] == d;
        assert(marks@[nodes@[k] as int]);
    }
    true
}

/// Where `known` has successors first and its node at `k` is not done, some
/// node may follow.
proof fn lemma_some_ready_from(
    g: Seq<Seq<usize>>,
    known: Seq<usize>,
    done: Seq<usize>,
    k: int,
) -> (v: usize)
    requires
        closed_graph(g),
        successors_first(g, known),
        0 <= k < known.len(),
        known[k] < g.len(),
        !done.contains(known[k]),
    ensures
        is_ready(g, done, v),
    decreases k,
{
    if is_ready(g, done, known[k]) {
        known[k]
    } else {
        let d = choose|d: usize| #[trigger] edge(g, known[k], d) && !done.contains(d);
        assert(known.take(k).contains(d));
        let q = choose|q: int| 0 <= q < k && known.take(k)[q] == d;
        lemma_some_ready_from(g, known, done, q)
    }
}

/// As long as not all nodes are done, some node may follow.
proof fn lemma_some_ready(g: Seq<Seq<usize>>, known: Seq<usize>, done: Seq<usize>) -> (v: usize)
    requires
        closed_graph(g),
        g.len() <= usize::MAX,
        successors_first(g, known),
        forall|v: usize| v < g.len() ==> #[trigger] known.contains(v),
        done.len() < g.len(),
    ensures
        is_ready(g, done, v),
{
    if forall|u: usize| u < g.len() ==> #[trigger] done.contains(u) {
        lemma_covers_below(done, g.len() as int);
    }
    let u = choose|u: usize| u < g.len() && !#[trigger] done.contains(u);
    assert(known.contains(u));
    let k = choose|k: int| 0 <= k < known.len() && known[k] == u;
    lemma_some_ready_from(g, known, done, k)
}

/// The lowest node that may follow `done`, whose nodes are marked, if there is
/// one.
fn next_node(g: &Vec<Vec<usize>>, placed: &Vec<bool>, done: Ghost<Seq<usize>>) -> (r: Option<
    usize,
>)
    requires
        closed_graph(g.deep_view()),
        placed@.len() == g@.len(),
        forall|u: usize| u < g@.len() ==> (#[trigger] placed@[u as int] <==> done@.contains(u)),
    ensures
        match r {
            Some(v) => is_ready(g.deep_view(), done@, v) && forall|u: usize|
                u < v ==> !#[trigger] is_ready(g.deep_view(), done@, u),
            None => forall|u: usize| !#[trigger] is_ready(g.deep_view(), done@, u),
        },
{
    let ghost gv = g.deep_view();
    let mut v: usize = 0;
    while v < g.len()
        invariant
            v <= g@.len(),
            gv == g.deep_view(),
            closed_graph(gv),
            placed@.len() == g@.len(),
            forall|u: usize|
                u < g@.len() ==> (#[trigger] placed@[u as int] <==> done@.contains(u)),
            forall|u: usize| u < v ==> !#[trigger] is_ready(gv, done@, u),
        decreases g.len() - v,
    {
        assert(gv[v as int] =~= g@[v as int]@);
        assert forall|k: int| 0 <= k < g@[v as int]@.len() implies #[trigger] g@[v as int]@[k]
            < placed@.len() by {
            assert(gv[v as int].contains(g@[v as int]@[k]));
            assert(edge(gv, v, g@[v as int]@[k]));
        }
        let ready = all_marked(&g[v], placed);
        proof {
            if ready {
                assert forall|d: usize| #[trigger] edge(gv, v, d) implies done@.contains(d) by {
                    assert(placed@[d as int]);
                }
            } else {
                let d = choose|d: usize|
                    #[trigger] g@[v as int]@.contains(d) && !placed@[d as int];
                assert(edge(gv, v, d));
                assert(!done@.contains(d));
            }
        }
        if !placed[v] && ready {
            return Some(v);
        }
        v += 1;
    }
    None
}

/// The load order of a graph. There is one exactly where the graph has no loop.
pub fn order_nodes(g: &Vec<Vec<usize>>) -> (r: Option<Vec<usize>>)
    requires
        closed_graph(g.deep_view()),
    ensures
        r is None <==> has_loop(g.deep_view()),
        match r {
            Some(order) => is_load_order(g.deep_view(), order@),
            None => true,
        },
{
    let ghost gv = g.deep_view();
    let n: usize = g.len();
    let mut placed: Vec<bool> = Vec::new();
    let mut i: usize = 0;
    while i < n
        invariant
            i <= n,
            placed@ == Seq::new(i as nat, |k: int| false),
        decreases n - i,
    {
        placed.push(false);
        i += 1;
        assert(placed@ =~= Seq::new(i as nat, |k: int| false));
    }
    let mut order: Vec<usize> = Vec::new();
    while order.len() < n
        invariant
            n == g@.len() == gv.len(),
            gv == g.deep_view(),
            closed_graph(gv),
            order@.len() <= n,
            placed@.len() == n,
            forall|u: usize| u < n ==> (#[trigger] placed@[u as int] <==> order@.contains(u)),
            forall|k: int| 0 <= k < order@.len() ==> #[trigger] comes_next(gv, order@, k),
        decreases n - order.len(),
    {
        let ghost before = order@;
        let v: usize = match next_node(g, &placed, Ghost(before)) {
            Some(v) => v,
            None => {
                proof {
                    if !has_loop(gv) {
                        let known = lemma_no_loop_gives_order(gv);
                        let v = lemma_some_ready(gv, known, before);
                        assert(is_ready(gv, before, v));
                    }
                }
                return None;
            },
        };
        placed.set(v, true);
        order.push(v);
        proof {
            assert forall|u: usize| u < n implies (#[trigger] placed@[u as int]
                <==> order@.contains(u)) by {
                assert(order@.last() == v);
                if u != v && order@.contains(u) {
                    let k = choose|k: int| 0 <= k < order@.len() && order@[k] == u;
                    assert(before[k] == u);
                }
                if before.contains(u) {
                    let k = choose|k: int| 0 <= k < before.len() && before[k] == u;
                    assert(order@[k] == u);
                }
            }
            assert forall|k: int| 0 <= k < order@.len() implies #[trigger] comes_next(
                gv,
                order@,
                k,
            ) by {
                assert(order@.take(k) =~= before.take(k));
                if k < before.len() {
                    assert(comes_next(gv, before, k));
                } else {
                    assert(before.take(k) =~= before);
                }
            }
        }
    }
    proof {
        lemma_load_order(gv, order@);
        assert forall|a: usize, b: usize| #[trigger] edge(gv, a, b) implies order@.contains(a) by {
            lemma_load_order_covers(gv, order@, a);
        }
        lemma_ordered_graph_has_no_loop(gv, order@);
    }
    Some(order)
}

// ---------------------------------------------------------------------------
// Every loop is met
// ---------------------------------------------------------------------------

/// Whether one of `cycles` is closed by a step from class `a` to class `b`.
pub open spec fn is_closed_by(
    one: Seq<usize>,
    cycles: Seq<Seq<usize>>,
    a: usize,
    b: usize,
) -> bool {
    exists|k: int|
        0 <= k < cycles.len() && (#[trigger] cycles[k]).len() >= 2
            && one[cycles[k][cycles[k].len() - 2] as int] == a && one[cycles[k].last() as int] == b
}

/// Whether every class that a node of `done` points to stands before it, but for
/// the steps that close one of `cycles`.
spec fn classes_first_but(
    g: Seq<Seq<usize>>,
    one: Seq<usize>,
    done: Seq<usize>,
    cycles: Seq<Seq<usize>>,
) -> bool {
    forall|k: int, d: usize|
        0 <= k < done.len() && #[trigger] edge(g, done[k], d) ==> is_closed_by(
            one,
            cycles,
            one[done[k] as int],
            one[d as int],
        ) || #[trigger] along(one, done.take(k)).contains(one[d as int])
}

/// What holds of any search: the classes that it has entered are those on its
/// path and those that it has left, and the latter, in the order in which it
/// left them, have the classes that they point to first, but for the steps that
/// close a loop that was met.
spec fn searched(
    g: Seq<Seq<usize>>,
    one: Seq<usize>,
    path: Seq<usize>,
    st: Search,
    done: Seq<usize>,
) -> bool {
    &&& st.visited.len() == g.len()
    &&& along(one, path).no_duplicates()
    &&& forall|k: int| 0 <= k < path.len() ==> #[trigger] path[k] < g.len()
    &&& forall|k: int| 0 <= k < done.len() ==> #[trigger] done[k] < g.len()
    &&& forall|c: usize|
        c < g.len() ==> (#[trigger] st.visited[c as int] <==> along(one, path).contains(c) || along(
            one,
            done,
        ).contains(c))
    &&& forall|c: usize| #[trigger]
        along(one, done).contains(c) ==> c < g.len() && !along(one, path).contains(c)
    &&& classes_first_but(g, one, done, st.cycles)
}

spec fn all_still_closed(
    one: Seq<usize>,
    before: Seq<Seq<usize>>,
    after: Seq<Seq<usize>>,
) -> bool {
    forall|a: usize, b: usize| #[trigger]
        is_closed_by(one, before, a, b) ==> is_closed_by(one, after, a, b)
}

proof fn lemma_with_cycle_closes(one: Seq<usize>, cycles: Seq<Seq<usize>>, c: Seq<usize>)
    ensures
        all_still_closed(one, cycles, with_cycle(one, cycles, c)),
        c.len() >= 2 ==> is_closed_by(
            one,
            with_cycle(one, cycles, c),
            one[c[c.len() - 2] as int],
            one[c.last() as int],
        ),
{
    let after = with_cycle(one, cycles, c);
    assert forall|a: usize, b: usize| #[trigger]
        is_closed_by(one, cycles, a, b) implies is_closed_by(one, after, a, b) by {
        let k = choose|k: int|
            0 <= k < cycles.len() && (#[trigger] cycles[k]).len() >= 2
                && one[cycles[k][cycles[k].len() - 2] as int] == a && one[cycles[k].last() as int]
                == b;
        assert(after[k] == cycles[k]);
    }
    if c.len() >= 2 {
        if already_met(one, cycles, c) {
            let k = choose|k: int|
                0 <= k < cycles.len() && along(one, #[trigger] cycles[k]) == along(one, c);
            let d = cycles[k];
            assert(along(one, d).len() == d.len());
            assert(along(one, c).len() == c.len());
            assert(along(one, d)[d.len() - 2] == along(one, c)[c.len() - 2]);
            assert(along(one, d)[d.len() - 1] == along(one, c)[c.len() - 1]);
            assert(after[k] == d);
        } else {
            assert(after[cycles.len() as int] == c);
        }
    }
}

proof fn lemma_visit_closes(
    g: Seq<Seq<usize>>,
    one: Seq<usize>,
    node: usize,
    path: Seq<usize>,
    st: Search,
    done: Seq<usize>,
) -> (r: Seq<usize>)
    requires
        closed_graph(g),
        are_classes(one, g.len() as int),
        node < g.len(),
        searched(g, one, path, st, done),
    ensures
        searched(g, one, path, visit(g, one, one, node, path, st), r),
        all_still_closed(one, st.cycles, visit(g, one, one, node, path, st).cycles),
        along(one, r).contains(one[node as int]) || (path.len() > 0 && is_closed_by(
            one,
            visit(g, one, one, node, path, st).cycles,
            one[path.last() as int],
            one[node as int],
        )),
        done.is_prefix_of(r),
    decreases g.len() - path.len(), 0nat,
{
    let c = one[node as int];
    let p = along(one, path);
    let q = along(one, done);
    assert(c < g.len());
    if p.contains(c) {
        lemma_place_is(p, c);
        let round = loop_back(one, path, node);
        lemma_with_cycle_closes(one, st.cycles, round);
        assert(round[round.len() - 2] == path.last());
        assert(round.last() == node);
        done
    } else if st.visited[c as int] {
        done
    } else {
        let path1 = path.push(node);
        lemma_along_push(one, path, node);
        let p1 = p.push(c);
        assert(p1.no_duplicates());
        assert forall|k: int| 0 <= k < p1.len() implies #[trigger] p1[k] < g.len() by {
            if k < p.len() {
                assert(p[k] == one[path[k] as int]);
                assert(path[k] < g.len());
            }
        }
        lemma_distinct_below(p1, g.len() as int);
        let st1 = Search { visited: st.visited.update(c as int, true), cycles: st.cycles };
        let deps = g[node as int];
        assert forall|x: usize| x < g.len() implies (#[trigger] st1.visited[x as int]
            <==> p1.contains(x) || q.contains(x)) by {
            assert(st.visited[x as int] <==> p.contains(x) || q.contains(x));
            lemma_push_contains(p, c, x);
        }
        assert forall|x: usize| #[trigger] q.contains(x) implies x < g.len() && !p1.contains(
            x,
        ) by {
            lemma_push_contains(p, c, x);
            assert(st.visited[x as int]);
        }
        assert forall|k: int| 0 <= k < deps.len() implies #[trigger] deps[k] < g.len() by {
            assert(edge(g, node, deps[k]));
        }
        let r1 = lemma_visit_all_closes(g, one, deps, path1, st1, done);
        let st2 = visit(g, one, one, node, path, st);
        let r = r1.push(node);
        let q1 = along(one, r1);
        let q2 = along(one, r);
        lemma_along_push(one, r1, node);
        lemma_push_contains(q1, c, c);
        assert forall|x: usize| x < g.len() implies (#[trigger] st2.visited[x as int]
            <==> p.contains(x) || q2.contains(x)) by {
            assert(st2.visited[x as int] <==> p1.contains(x) || q1.contains(x));
            lemma_push_contains(p, c, x);
            lemma_push_contains(q1, c, x);
        }
        assert forall|x: usize| #[trigger] q2.contains(x) implies x < g.len() && !p.contains(x) by {
            lemma_push_contains(q1, c, x);
            lemma_push_contains(p, c, x);
        }
        assert forall|k: int, d: usize|
            0 <= k < r.len() && #[trigger] edge(g, r[k], d) implies is_closed_by(
            one,
            st2.cycles,
            one[r[k] as int],
            one[d as int],
        ) || #[trigger] along(one, r.take(k)).contains(one[d as int]) by {
            if k < r1.len() {
                assert(edge(g, r1[k], d));
                assert(r1.take(k) =~= r.take(k));
            } else {
                let i = choose|i: int| 0 <= i < deps.len() && deps[i] == d;
                assert(path1.last() == node);
                assert(q1.contains(one[deps[i] as int]) || is_closed_by(
                    one,
                    st2.cycles,
                    c,
                    one[deps[i] as int],
                ));
                assert(r.take(k) =~= r1);
            }
        }
        r
    }
}

proof fn lemma_visit_all_closes(
    g: Seq<Seq<usize>>,
    one: Seq<usize>,
    nodes: Seq<usize>,
    path: Seq<usize>,
    st: Search,
    done: Seq<usize>,
) -> (r: Seq<usize>)
    requires
        closed_graph(g),
        are_classes(one, g.len() as int),
        forall|k: int| 0 <= k < nodes.len() ==> #[trigger] nodes[k] < g.len(),
        searched(g, one, path, st, done),
    ensures
        searched(g, one, path, visit_all(g, one, one, nodes, path, st), r),
        all_still_closed(one, st.cycles, visit_all(g, one, one, nodes, path, st).cycles),
        forall|k: int|
            0 <= k < nodes.len() ==> along(one, r).contains(one[#[trigger] nodes[k] as int]) || (
            path.len() > 0 && is_closed_by(
                one,
                visit_all(g, one, one, nodes, path, st).cycles,
                one[path.last() as int],
                one[nodes[k] as int],
            )),
        done.is_prefix_of(r),
    decreases g.len() - path.len(), nodes.len() + 1,
{
    if nodes.len() == 0 {
        done
    } else {
        let st1 = visit(g, one, one, nodes[0], path, st);
        let rest = nodes.drop_first();
        let r1 = lemma_visit_closes(g, one, nodes[0], path, st, done);
        assert forall|k: int| 0 <= k < rest.len() implies #[trigger] rest[k] < g.len() by {
            assert(rest[k] == nodes[k + 1]);
        }
        let r = lemma_visit_all_closes(g, one, rest, path, st1, r1);
        let st2 = visit_all(g, one, one, nodes, path, st);
        assert forall|k: int| 0 <= k < nodes.len() implies along(one, r).contains(
            one[#[trigger] nodes[k] as int],
        ) || (path.len() > 0 && is_closed_by(
            one,
            st2.cycles,
            one[path.last() as int],
            one[nodes[k] as int],
        )) by {
            if k > 0 {
                assert(rest[k - 1] == nodes[k]);
            } else {
                let a1 = along(one, r1);
                if a1.contains(one[nodes[0] as int]) {
                    let j = choose|j: int| 0 <= j < a1.len() && a1[j] == one[nodes[0] as int];
                    assert(r[j] == r1[j]);
                    assert(along(one, r)[j] == a1[j]);
                } else {
                    assert(is_closed_by(
                        one,
                        st1.cycles,
                        one[path.last() as int],
                        one[nodes[0] as int],
                    ));
                }
            }
        }
        assert(done.is_prefix_of(r));
        r
    }
}

/// The classes of a walk none of whose steps closes a loop that was met go down
/// in the order in which the search left them.
proof fn lemma_unmet_walk_descends(
    g: Seq<Seq<usize>>,
    one: Seq<usize>,
    done: Seq<usize>,
    cycles: Seq<Seq<usize>>,
    w: Seq<usize>,
    k: int,
)
    requires
        closed_graph(g),
        are_classes(one, g.len() as int),
        kin_point_alike(g, one),
        classes_first_but(g, one, done, cycles),
        forall|i: int| 0 <= i < done.len() ==> #[trigger] done[i] < g.len(),
        forall|v: int| 0 <= v < g.len() ==> along(one, done).contains(#[trigger] one[v]),
        is_walk(g, w),
        0 <= k < w.len(),
        w.len() >= 2,
        forall|j: int|
            0 <= j < w.len() - 1 ==> !is_closed_by(
                one,
                cycles,
                one[#[trigger] w[j] as int],
                one[w[j + 1] as int],
            ),
    ensures
        w[k] < g.len(),
        0 <= place(along(one, done), one[w[k] as int]),
        place(along(one, done), one[w[k] as int]) + k <= place(
            along(one, done),
            one[w[0] as int],
        ),
    decreases k,
{
    let a = along(one, done);
    assert(edge_at(g, w, 0));
    if k == 0 {
        assert(a.contains(one[w[0] as int]));
        lemma_place_is(a, one[w[0] as int]);
    } else {
        lemma_unmet_walk_descends(g, one, done, cycles, w, k - 1);
        let u = w[k - 1];
        let v = w[k];
        assert(edge_at(g, w, k - 1));
        assert(edge(g, u, v));
        let c = one[u as int];
        assert(a.contains(c));
        lemma_place_is(a, c);
        let i = place(a, c);
        let n = done[i];
        assert(one[n as int] == c);
        assert(g[n as int] == g[u as int]);
        assert(edge(g, n, v));
        assert(!is_closed_by(one, cycles, one[w[k - 1] as int], one[w[k - 1 + 1] as int]));
        let t = along(one, done.take(i));
        assert(t.contains(one[v as int]));
        let j = choose|j: int| 0 <= j < t.len() && t[j] == one[v as int];
        assert(a[j] == t[j]);
        lemma_place_least(a, one[v as int]);
        lemma_place_is(a, one[v as int]);
    }
}

/// No loop is passed over: every walk that ends in the class in which it began
/// takes a step that closes one of the loops that were met.
pub proof fn lemma_every_loop_is_met(g: Seq<Seq<usize>>, one: Seq<usize>, w: Seq<usize>)
    requires
        closed_graph(g),
        g.len() <= usize::MAX,
        are_classes(one, g.len() as int),
        kin_point_alike(g, one),
        is_round(g, one, w),
    ensures
        exists|c: int, j: int|
            0 <= c < loops_met(g, one, one).len() && 0 <= j < w.len() - 1 && {
                let met = #[trigger] loops_met(g, one, one)[c];
                &&& met.len() >= 2
                &&& one[met[met.len() - 2] as int] == one[#[trigger] w[j] as int]
                &&& one[met.last() as int] == one[w[j + 1] as int]
            },
{
    let none = Seq::<usize>::empty();
    let st = fresh_search(g.len());
    let nodes = all_nodes(g);
    assert(along(one, none) =~= none);
    let done = lemma_visit_all_closes(g, one, nodes, none, st, none);
    let met = loops_met(g, one, one);
    assert forall|v: int| 0 <= v < g.len() implies along(one, done).contains(
        #[trigger] one[v],
    ) by {
        assert(nodes[v] == v);
    }
    if forall|j: int|
        0 <= j < w.len() - 1 ==> !is_closed_by(
            one,
            met,
            one[#[trigger] w[j] as int],
            one[w[j + 1] as int],
        ) {
        lemma_unmet_walk_descends(g, one, done, met, w, w.len() - 1);
        assert(w[w.len() - 1] == w.last());
    } else {
        let j = choose|j: int|
            0 <= j < w.len() - 1 && is_closed_by(
                one,
                met,
                one[#[trigger] w[j] as int],
                one[w[j + 1] as int],
            );
        let c = choose|c: int|
            0 <= c < met.len() && (#[trigger] met[c]).len() >= 2
                && one[met[c][met[c].len() - 2] as int] == one[w[j] as int]
                && one[met[c].last() as int] == one[w[j + 1] as int];
        assert(loops_met(g, one, one)[c] == met[c]);
    }
}

spec fn met_once(one: Seq<usize>, cycles: Seq<Seq<usize>>) -> bool {
    forall|a: int, b: int|
        0 <= a < b < cycles.len() ==> along(one, #[trigger] cycles[a]) != along(
            one,
            #[trigger] cycles[b],
        )
}

proof fn lemma_visit_once(
    g: Seq<Seq<usize>>,
    one: Seq<usize>,
    kin: Seq<usize>,
    node: usize,
    path: Seq<usize>,
    st: Search,
)
    requires
        met_once(one, st.cycles),
    ensures
        met_once(one, visit(g, one, kin, node, path, st).cycles),
    decreases g.len() - path.len(), 0nat,
{
    if node >= g.len() || along(one, path).contains(one[node as int]) || path.len() >= g.len()
        || st.visited[one[node as int] as int] {
    } else {
        lemma_visit_all_once(
            g,
            one,
            kin,
            g[node as int],
            path.push(node),
            Search {
                visited: st.visited.update(one[node as int] as int, true),
                cycles: st.cycles,
            },
        );
    }
}

proof fn lemma_visit_all_once(
    g: Seq<Seq<usize>>,
    one: Seq<usize>,
    kin: Seq<usize>,
    nodes: Seq<usize>,
    path: Seq<usize>,
    st: Search,
)
    requires
        met_once(one, st.cycles),
    ensures
        met_once(one, visit_all(g, one, kin, nodes, path, st).cycles),
    decreases g.len() - path.len(), nodes.len() + 1,
{
    if nodes.len() > 0 {
        lemma_visit_once(g, one, kin, nodes[0], path, st);
        lemma_visit_all_once(
            g,
            one,
            kin,
            nodes.drop_first(),
            path,
            visit(g, one, kin, nodes[0], path, st),
        );
    }
}

/// No two of the loops that are met go through the same classes in one order.
pub proof fn lemma_loops_are_met_once(
    g: Seq<Seq<usize>>,
    one: Seq<usize>,
    kin: Seq<usize>,
    a: int,
    b: int,
)
    requires
        0 <= a < b < loops_met(g, one, kin).len(),
    ensures
        along(one, loops_met(g, one, kin)[a]) != along(one, loops_met(g, one, kin)[b]),
{
    lemma_visit_all_once(g, one, kin, all_nodes(g), Seq::empty(), fresh_search(g.len()));
}

} // verus!
