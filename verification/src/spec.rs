//! The mathematical model of a graph that every contract speaks of.
//!
//! A graph is the sequence of its adjacency lists: `g[u]` lists the edges that
//! leave node `u`, each a pair of a target node and a weight. Nodes are the
//! indices `0..g.len()`.

use vstd::prelude::*;
use crate::weight::Weight;

verus! {

/// The model of adjacency lists held in vectors.
pub open spec fn adj<C>(a: Seq<Vec<(usize, C)>>) -> Seq<Seq<(usize, C)>> {
    Seq::new(a.len(), |i: int| a[i]@)
}

/// Every edge of `g` leads to a node of `g`.
pub open spec fn wf<C>(g: Seq<Seq<(usize, C)>>) -> bool {
    forall|u: int, j: int|
        0 <= u < g.len() && 0 <= j < g[u].len() ==> #[trigger] g[u][j].0 < g.len()
}

/// `g` holds an edge from `u` to `v`.
pub open spec fn edge<C>(g: Seq<Seq<(usize, C)>>, u: usize, v: usize) -> bool {
    &&& u < g.len()
    &&& exists|j: int| 0 <= j < g[u as int].len() && #[trigger] g[u as int][j].0 == v
}

/// The `i`-th step of `p` follows an edge of `g`.
pub open spec fn follows<C>(g: Seq<Seq<(usize, C)>>, p: Seq<usize>, i: int) -> bool {
    edge(g, p[i], p[i + 1])
}

/// `p` is a path of `g`: a non-empty sequence of nodes, each step along an edge.
pub open spec fn is_path<C>(g: Seq<Seq<(usize, C)>>, p: Seq<usize>) -> bool {
    &&& p.len() >= 1
    &&& forall|i: int| 0 <= i < p.len() ==> #[trigger] p[i] < g.len()
    &&& forall|i: int| 0 <= i < p.len() - 1 ==> #[trigger] follows(g, p, i)
}

/// `p` is a path of `g` from `s` to `t`.
pub open spec fn is_path_from_to<C>(g: Seq<Seq<(usize, C)>>, p: Seq<usize>, s: usize, t: usize) -> bool {
    &&& is_path(g, p)
    &&& p[0] == s
    &&& p[p.len() - 1] == t
}

/// No node occurs twice in `p`.
pub open spec fn distinct(p: Seq<usize>) -> bool {
    forall|i: int, j: int| 0 <= i < j < p.len() ==> p[i] != p[j]
}

/// `p` is a path from `s` that ends where `pred` holds.
pub open spec fn goal_path<C>(g: Seq<Seq<(usize, C)>>, p: Seq<usize>, s: usize, pred: spec_fn(usize) -> bool) -> bool {
    is_path(g, p) && p[0] == s && pred(p[p.len() - 1])
}

/// `p` is a path of at least `min` nodes from `s` to a node where `pred` holds,
/// and no such path has fewer nodes.
pub open spec fn shortest_goal_path<C>(
    g: Seq<Seq<(usize, C)>>,
    p: Seq<usize>,
    s: usize,
    pred: spec_fn(usize) -> bool,
    min: int,
) -> bool {
    &&& goal_path(g, p, s, pred)
    &&& p.len() >= min
    &&& forall|q: Seq<usize>| #[trigger] goal_path(g, q, s, pred) && q.len() >= min ==> q.len() >= p.len()
}

/// No path of at least `min` nodes from `s` ends where `pred` holds.
pub open spec fn no_goal_path<C>(g: Seq<Seq<(usize, C)>>, s: usize, pred: spec_fn(usize) -> bool, min: int) -> bool {
    forall|q: Seq<usize>| #[trigger] goal_path(g, q, s, pred) ==> q.len() < min
}

/// `t` can be reached from `s` in `g` (every node reaches itself).
pub open spec fn reachable<C>(g: Seq<Seq<(usize, C)>>, s: usize, t: usize) -> bool {
    exists|p: Seq<usize>| #[trigger] is_path_from_to(g, p, s, t)
}

/// `f` is a predicate on nodes: it can be called on every node, and it gives one
/// answer for each node.
pub open spec fn is_predicate<F: Fn(usize) -> bool>(f: F) -> bool {
    &&& forall|n: usize| #[trigger] f.requires((n,))
    &&& forall|n: usize, b1: bool, b2: bool|
        #![trigger f.ensures((n,), b1), f.ensures((n,), b2)]
        f.ensures((n,), b1) && f.ensures((n,), b2) ==> b1 == b2
}

/// The predicate `f` holds of node `n`.
pub open spec fn holds<F: Fn(usize) -> bool>(f: F, n: usize) -> bool {
    f.ensures((n,), true)
}

/// The predicate on nodes that a closure computes.
pub open spec fn pred_of<F: Fn(usize) -> bool>(f: F) -> spec_fn(usize) -> bool {
    |n: usize| holds(f, n)
}

/// A test on nodes that a search looks for.
pub trait Goal {
    /// The test can be made.
    spec fn ready(&self) -> bool;

    /// The nodes that pass the test.
    spec fn pred(&self) -> spec_fn(usize) -> bool;

    /// Whether node `n` passes.
    fn test(&self, n: usize) -> (b: bool)
        requires
            self.ready(),
        ensures
            b == (self.pred())(n),
    ;
}

/// The nodes where a closure returns `true`.
pub struct FnGoal<F> {
    /// The closure.
    pub f: F,
}

impl<F: Fn(usize) -> bool> Goal for FnGoal<F> {
    open spec fn ready(&self) -> bool {
        is_predicate(self.f)
    }

    open spec fn pred(&self) -> spec_fn(usize) -> bool {
        pred_of(self.f)
    }

    fn test(&self, n: usize) -> (b: bool) {
        let b = (self.f)(n);
        proof {
            lemma_call(self.f, n, b);
        }
        b
    }
}

/// The predicate that holds of `x` alone.
pub open spec fn is_node(x: usize) -> spec_fn(usize) -> bool {
    |n: usize| n == x
}

/// The single node `node`.
pub struct NodeGoal {
    /// The node.
    pub node: usize,
}

impl Goal for NodeGoal {
    open spec fn ready(&self) -> bool {
        true
    }

    open spec fn pred(&self) -> spec_fn(usize) -> bool {
        is_node(self.node)
    }

    fn test(&self, n: usize) -> (b: bool) {
        n == self.node
    }
}

/// What a call of a predicate returns is whether it holds.
pub proof fn lemma_call<F: Fn(usize) -> bool>(f: F, n: usize, b: bool)
    requires
        is_predicate(f),
        f.ensures((n,), b),
    ensures
        holds(f, n) == b,
{
    if !b && holds(f, n) {
        assert(f.ensures((n,), true) && f.ensures((n,), false));
    }
}

/// The total weight of following the edges `e` from the nodes `p`: step `i` leaves
/// `p[i]` by its `e[i]`-th edge.
pub open spec fn walk_cost<C: Weight>(g: Seq<Seq<(usize, C)>>, p: Seq<usize>, e: Seq<int>) -> int
    decreases e.len(),
{
    if e.len() == 0 {
        0
    } else {
        walk_cost(g, p, e.drop_last()) + g[p[e.len() - 1] as int][e[e.len() - 1]].1.val()
    }
}

/// The `i`-th step of the walk `(p, e)` follows edge `e[i]` of node `p[i]` to `p[i + 1]`.
pub open spec fn wstep<C>(g: Seq<Seq<(usize, C)>>, p: Seq<usize>, e: Seq<int>, i: int) -> bool {
    &&& p[i] < g.len()
    &&& 0 <= e[i] < g[p[i] as int].len()
    &&& g[p[i] as int][e[i]].0 == p[i + 1]
}

/// `(p, e)` is a weighted path of `g` from `s` to `t`: `p` lists its nodes and
/// `e[i]` is the index of the edge taken from `p[i]`.
pub open spec fn is_wpath<C>(g: Seq<Seq<(usize, C)>>, p: Seq<usize>, e: Seq<int>, s: usize, t: usize) -> bool {
    &&& p.len() >= 1
    &&& e.len() == p.len() - 1
    &&& p[0] == s
    &&& p[p.len() - 1] == t
    &&& forall|i: int| 0 <= i < p.len() ==> #[trigger] p[i] < g.len()
    &&& forall|i: int| 0 <= i < e.len() ==> #[trigger] wstep(g, p, e, i)
}

/// Some weighted path from `s` to `t` costs `c`.
pub open spec fn has_path_cost<C: Weight>(g: Seq<Seq<(usize, C)>>, s: usize, t: usize, c: int) -> bool {
    exists|p: Seq<usize>, e: Seq<int>| #[trigger] is_wpath(g, p, e, s, t) && walk_cost(g, p, e) == c
}

/// Every weighted path from `s` to `t` costs at least `c`.
pub open spec fn paths_cost_at_least<C: Weight>(g: Seq<Seq<(usize, C)>>, s: usize, t: usize, c: int) -> bool {
    forall|p: Seq<usize>, e: Seq<int>| #[trigger] is_wpath(g, p, e, s, t) ==> walk_cost(g, p, e) >= c
}

/// `c` is the least cost of a path from `s` to `t`.
pub open spec fn is_dist<C: Weight>(g: Seq<Seq<(usize, C)>>, s: usize, t: usize, c: int) -> bool {
    has_path_cost(g, s, t, c) && paths_cost_at_least(g, s, t, c)
}

/// No edge of `g` has a negative weight.
pub open spec fn nonneg<C: Weight>(g: Seq<Seq<(usize, C)>>) -> bool {
    forall|u: int, j: int| 0 <= u < g.len() && 0 <= j < g[u].len() ==> #[trigger] g[u][j].1.val() >= 0
}

/// From each node that `s` reaches, its least cost plus the weight of any
/// edge that leaves it is no more than the type of the weights can hold: every
/// cost that a search from `s` adds up fits.
pub open spec fn costs_fit<C: Weight>(g: Seq<Seq<(usize, C)>>, s: usize) -> bool {
    forall|u: usize, k: int, c: int| u < g.len() && 0 <= k < g[u as int].len() && #[trigger] is_dist(g, s, u, c)
        ==> c + (#[trigger] g[u as int][k]).1.val() <= C::hi()
}

/// A path followed by one more edge is a path.
pub proof fn lemma_path_push<C>(g: Seq<Seq<(usize, C)>>, p: Seq<usize>, v: usize)
    requires
        is_path(g, p),
        edge(g, p[p.len() - 1], v),
        v < g.len(),
    ensures
        is_path(g, p.push(v)),
        p.push(v)[0] == p[0],
{
    let q = p.push(v);
    assert forall|i: int| 0 <= i < q.len() - 1 implies #[trigger] follows(g, q, i) by {
        if i < p.len() - 1 {
            assert(follows(g, p, i));
        }
    }
    assert forall|i: int| 0 <= i < q.len() implies #[trigger] q[i] < g.len() by {
        if i < p.len() {
            assert(q[i] == p[i]);
        }
    }
}

/// Every node of `g` reaches itself.
pub proof fn lemma_reach_self<C>(g: Seq<Seq<(usize, C)>>, s: usize)
    requires
        s < g.len(),
    ensures
        reachable(g, s, s),
{
    assert(is_path_from_to(g, seq![s], s, s));
}

/// What `s` reaches, `s` reaches one edge further.
pub proof fn lemma_reach_step<C>(g: Seq<Seq<(usize, C)>>, s: usize, u: usize, v: usize)
    requires
        reachable(g, s, u),
        edge(g, u, v),
        v < g.len(),
    ensures
        reachable(g, s, v),
{
    let p = choose|p: Seq<usize>| #[trigger] is_path_from_to(g, p, s, u);
    lemma_path_push(g, p, v);
    assert(is_path_from_to(g, p.push(v), s, v));
}

/// A set that holds `s` and every successor of its members holds every node on
/// a path from `s`.
pub proof fn lemma_closed_path<C>(g: Seq<Seq<(usize, C)>>, set: Set<usize>, p: Seq<usize>, t: int)
    requires
        is_path(g, p),
        set.contains(p[0]),
        forall|u: usize, v: usize| set.contains(u) && #[trigger] edge(g, u, v) ==> set.contains(v),
        0 <= t < p.len(),
    ensures
        set.contains(p[t]),
    decreases t,
{
    if t > 0 {
        lemma_closed_path(g, set, p, t - 1);
        assert(follows(g, p, t - 1));
    }
}

/// A set that holds `s` and every successor of its members holds every node
/// that `s` reaches.
pub proof fn lemma_closed_reach<C>(g: Seq<Seq<(usize, C)>>, set: Set<usize>, s: usize, v: usize)
    requires
        reachable(g, s, v),
        set.contains(s),
        forall|u: usize, w: usize| set.contains(u) && #[trigger] edge(g, u, w) ==> set.contains(w),
    ensures
        set.contains(v),
{
    let p = choose|p: Seq<usize>| #[trigger] is_path_from_to(g, p, s, v);
    lemma_closed_path(g, set, p, p.len() - 1);
}

/// The cost of a walk depends only on the nodes its edges leave.
pub proof fn lemma_walk_congr<C: Weight>(g: Seq<Seq<(usize, C)>>, p1: Seq<usize>, p2: Seq<usize>, e: Seq<int>)
    requires
        forall|i: int| 0 <= i < e.len() ==> p1[i] == p2[i],
    ensures
        walk_cost(g, p1, e) == walk_cost(g, p2, e),
    decreases e.len(),
{
    if e.len() > 0 {
        lemma_walk_congr(g, p1, p2, e.drop_last());
        assert(p1[e.len() - 1] == p2[e.len() - 1]);
    }
}

/// A weighted path followed by one more edge.
pub proof fn lemma_wpath_push<C: Weight>(g: Seq<Seq<(usize, C)>>, p: Seq<usize>, e: Seq<int>, s: usize, t: usize, k: int)
    requires
        is_wpath(g, p, e, s, t),
        0 <= k < g[t as int].len(),
        wf(g),
    ensures
        is_wpath(g, p.push(g[t as int][k].0), e.push(k), s, g[t as int][k].0),
        walk_cost(g, p.push(g[t as int][k].0), e.push(k)) == walk_cost(g, p, e) + g[t as int][k].1.val(),
{
    let v = g[t as int][k].0;
    let p2 = p.push(v);
    let e2 = e.push(k);
    assert(t < g.len());
    assert forall|i: int| 0 <= i < e2.len() implies #[trigger] wstep(g, p2, e2, i) by {
        if i < e.len() {
            assert(wstep(g, p, e, i));
            assert(p2[i] == p[i] && p2[i + 1] == p[i + 1] && e2[i] == e[i]);
        } else {
            assert(p2[i] == t);
        }
    }
    assert forall|i: int| 0 <= i < p2.len() implies #[trigger] p2[i] < g.len() by {
        if i < p.len() {
            assert(p2[i] == p[i]);
        }
    }
    assert(e2.drop_last() =~= e);
    lemma_walk_congr(g, p2, p, e);
}

/// One edge followed by a weighted path.
pub proof fn lemma_wpath_prepend<C: Weight>(g: Seq<Seq<(usize, C)>>, p: Seq<usize>, e: Seq<int>, u: usize, k: int, t: usize)
    requires
        is_wpath(g, p, e, p[0], t),
        u < g.len(),
        0 <= k < g[u as int].len(),
        g[u as int][k].0 == p[0],
    ensures
        is_wpath(g, seq![u] + p, seq![k] + e, u, t),
        walk_cost(g, seq![u] + p, seq![k] + e) == g[u as int][k].1.val() + walk_cost(g, p, e),
    decreases e.len(),
{
    let p2 = seq![u] + p;
    let e2 = seq![k] + e;
    assert forall|i: int| 0 <= i < e2.len() implies #[trigger] wstep(g, p2, e2, i) by {
        if i > 0 {
            assert(wstep(g, p, e, i - 1));
            assert(p2[i] == p[i - 1] && p2[i + 1] == p[i] && e2[i] == e[i - 1]);
        }
    }
    assert forall|i: int| 0 <= i < p2.len() implies #[trigger] p2[i] < g.len() by {
        if i > 0 {
            assert(p2[i] == p[i - 1]);
        }
    }
    if e.len() > 0 {
        let pl = p.drop_last();
        let el = e.drop_last();
        assert forall|i: int| 0 <= i < el.len() implies #[trigger] wstep(g, pl, el, i) by {
            assert(wstep(g, p, e, i));
        }
        assert forall|i: int| 0 <= i < pl.len() implies #[trigger] pl[i] < g.len() by {
            assert(pl[i] == p[i]);
        }
        assert(is_wpath(g, pl, el, p[0], pl[pl.len() - 1]));
        lemma_wpath_prepend(g, pl, el, u, k, pl[pl.len() - 1]);
        assert(e2.drop_last() =~= seq![k] + el);
        assert forall|i: int| 0 <= i < (seq![k] + el).len() implies p2[i] == (seq![u] + pl)[i] by {
            if i > 0 {
                assert(p2[i] == p[i - 1]);
                assert((seq![u] + pl)[i] == pl[i - 1]);
            }
        }
        lemma_walk_congr(g, p2, seq![u] + pl, seq![k] + el);
        assert forall|i: int| 0 <= i < el.len() implies p[i] == pl[i] by {}
        lemma_walk_congr(g, p, pl, el);
        assert(p2[e2.len() - 1] == p[e.len() - 1]);
        assert(e2[e2.len() - 1] == e[e.len() - 1]);
        assert(walk_cost(g, p2, e2) == walk_cost(g, p2, e2.drop_last()) + g[p2[e2.len() - 1] as int][e2[e2.len() - 1]].1.val());
        assert(walk_cost(g, p, e) == walk_cost(g, p, e.drop_last()) + g[p[e.len() - 1] as int][e[e.len() - 1]].1.val());
        assert(walk_cost(g, p2, e2.drop_last()) == walk_cost(g, seq![u] + pl, seq![k] + el));
        assert(walk_cost(g, seq![u] + pl, seq![k] + el) == g[u as int][k].1.val() + walk_cost(g, pl, el));
        assert(walk_cost(g, p, e.drop_last()) == walk_cost(g, pl, el));
    } else {
        assert(e2.drop_last() =~= Seq::<int>::empty());
        assert(walk_cost(g, p2, Seq::<int>::empty()) == 0);
        assert(p2[0] == u);
        assert(e2[0] == k);
        assert(walk_cost(g, p2, e2) == walk_cost(g, p2, e2.drop_last()) + g[p2[0] as int][e2[0] as int].1.val());
    }
}

/// The walk that takes the first `m + 1` edges costs the walk that takes the first
/// `m` plus edge `m`.
pub proof fn lemma_walk_take<C: Weight>(g: Seq<Seq<(usize, C)>>, p: Seq<usize>, e: Seq<int>, m: int)
    requires
        0 <= m < e.len(),
    ensures
        walk_cost(g, p, e.take(m + 1)) == walk_cost(g, p, e.take(m)) + g[p[m] as int][e[m]].1.val(),
{
    assert(e.take(m + 1).drop_last() =~= e.take(m));
}

/// Under non-negative weights, a walk costs at least each of its prefixes.
pub proof fn lemma_walk_prefix<C: Weight>(g: Seq<Seq<(usize, C)>>, p: Seq<usize>, e: Seq<int>, s: usize, t: usize, m: int)
    requires
        is_wpath(g, p, e, s, t),
        nonneg(g),
        0 <= m <= e.len(),
    ensures
        walk_cost(g, p, e.take(m)) <= walk_cost(g, p, e),
    decreases e.len() - m,
{
    if m < e.len() {
        lemma_walk_prefix(g, p, e, s, t, m + 1);
        lemma_walk_take(g, p, e, m);
        assert(wstep(g, p, e, m));
    } else {
        assert(e.take(m) =~= e);
    }
}

} // verus!
