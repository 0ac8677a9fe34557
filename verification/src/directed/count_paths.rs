//! Counting the paths that lead to a goal.

use vstd::prelude::*;
use crate::outside::{FxMap, fx_map_get, fx_map_insert, fx_map_new};
use crate::spec::{
    FnGoal, Goal, adj, distinct, edge, is_path, is_path_from_to, is_predicate, is_wpath, lemma_path_push,
    lemma_reach_self, lemma_reach_step, pred_of, reachable, follows, wf, wstep,
};
use crate::directed::topological_sort::on_cycle;
use crate::directed::bfs::lemma_seq_distinct_len;

verus! {

/// The number of paths of at most `fuel` nodes from `v` that end at the first
/// node where `pred` holds. Edges are counted with their multiplicity.
pub open spec fn npaths<C>(g: Seq<Seq<(usize, C)>>, pred: spec_fn(usize) -> bool, v: usize, fuel: nat) -> nat
    decreases fuel, 0nat,
{
    if fuel == 0 || v >= g.len() {
        0
    } else if pred(v) {
        1
    } else {
        nsum(g, pred, v, (fuel - 1) as nat, g[v as int].len())
    }
}

/// The sum of `npaths` over the first `k` edges leaving `v`.
pub open spec fn nsum<C>(g: Seq<Seq<(usize, C)>>, pred: spec_fn(usize) -> bool, v: usize, fuel: nat, k: nat) -> nat
    decreases fuel, 1nat, k,
{
    if k == 0 || v >= g.len() || k > g[v as int].len() {
        0
    } else {
        nsum(g, pred, v, fuel, (k - 1) as nat) + npaths(g, pred, g[v as int][k - 1].0, fuel)
    }
}

/// The number of paths from `v` that end at the first node where `pred` holds,
/// where no path from `v` has more than `g.len()` nodes.
pub open spec fn count<C>(g: Seq<Seq<(usize, C)>>, pred: spec_fn(usize) -> bool, v: usize) -> nat {
    npaths(g, pred, v, g.len())
}

/// Every path that starts at `v` has at most `m` nodes.
pub open spec fn bounded<C>(g: Seq<Seq<(usize, C)>>, v: usize, m: nat) -> bool {
    forall|p: Seq<usize>| #[trigger] is_path(g, p) && p[0] == v ==> p.len() <= m
}

/// No node that `start` reaches lies on a cycle.
pub open spec fn acyclic_from<C>(g: Seq<Seq<(usize, C)>>, start: usize) -> bool {
    forall|v: usize| #[trigger] reachable(g, start, v) ==> !on_cycle(g, v)
}

/// Paths from a successor are one node shorter than the bound of the node.
proof fn lemma_bounded_step<C>(g: Seq<Seq<(usize, C)>>, v: usize, s: usize, m: nat)
    requires
        bounded(g, v, m),
        edge(g, v, s),
        s < g.len(),
        m >= 1,
    ensures
        bounded(g, s, (m - 1) as nat),
{
    assert forall|p: Seq<usize>| #[trigger] is_path(g, p) && p[0] == s implies p.len() <= m - 1 by {
        let q = seq![v] + p;
        assert forall|i: int| 0 <= i < q.len() - 1 implies #[trigger] follows(g, q, i) by {
            if i > 0 {
                assert(follows(g, p, i - 1));
                assert(q[i] == p[i - 1] && q[i + 1] == p[i]);
            }
        }
        assert forall|i: int| 0 <= i < q.len() implies #[trigger] q[i] < g.len() by {
            if i > 0 {
                assert(q[i] == p[i - 1]);
            }
        }
        assert(is_path(g, q) && q[0] == v);
    }
}

/// Fuel beyond the length of the longest path from `v` changes nothing.
proof fn lemma_fuel<C>(g: Seq<Seq<(usize, C)>>, pred: spec_fn(usize) -> bool, v: usize, m: nat, f: nat)
    requires
        wf(g),
        bounded(g, v, m),
        v < g.len(),
        f >= m,
        m >= 1,
    ensures
        npaths(g, pred, v, f) == npaths(g, pred, v, m),
    decreases m,
{
    if !pred(v) {
        lemma_fuel_sum(g, pred, v, m, f, g[v as int].len());
    }
}

/// Once the fuel covers the longest path, more fuel does not change the sum.
proof fn lemma_fuel_sum<C>(g: Seq<Seq<(usize, C)>>, pred: spec_fn(usize) -> bool, v: usize, m: nat, f: nat, k: nat)
    requires
        bounded(g, v, m),
        v < g.len(),
        f >= m,
        m >= 1,
        k <= g[v as int].len(),
        wf(g),
    ensures
        nsum(g, pred, v, (f - 1) as nat, k) == nsum(g, pred, v, (m - 1) as nat, k),
    decreases m, k,
{
    if k > 0 {
        lemma_fuel_sum(g, pred, v, m, f, (k - 1) as nat);
        let s = g[v as int][k - 1].0;
        assert(edge(g, v, s));
        lemma_bounded_step(g, v, s, m);
        if m >= 2 {
            lemma_fuel(g, pred, s, (m - 1) as nat, (f - 1) as nat);
        } else {
            // A path of one node from `v` cannot continue to `s`.
            assert(bounded(g, s, 0));
            assert(is_path(g, seq![s]));
        }
    }
}

/// Every path from a node that `start` reaches, in a graph where no such node is
/// on a cycle, has no repeat, so at most `g.len()` nodes.
proof fn lemma_acyclic_bounded<C>(g: Seq<Seq<(usize, C)>>, start: usize, v: usize)
    requires
        acyclic_from(g, start),
        reachable(g, start, v),
    ensures
        bounded(g, v, g.len()),
{
    assert forall|p: Seq<usize>| #[trigger] is_path(g, p) && p[0] == v implies p.len() <= g.len() by {
        if !distinct(p) {
            let (i, j) = choose|i: int, j: int| 0 <= i < j < p.len() && p[i] == p[j];
            let cyc = p.subrange(i, j + 1);
            assert forall|k: int| 0 <= k < cyc.len() - 1 implies #[trigger] follows(g, cyc, k) by {
                assert(follows(g, p, i + k));
                assert(cyc[k] == p[i + k] && cyc[k + 1] == p[i + k + 1]);
            }
            assert forall|k: int| 0 <= k < cyc.len() implies #[trigger] cyc[k] < g.len() by {
                assert(cyc[k] == p[i + k]);
            }
            assert(is_path_from_to(g, cyc, p[i], p[i]));
            lemma_reach_prefix(g, start, p, i);
            assert(on_cycle(g, p[i]));
        }
        lemma_seq_distinct_len(p, g.len());
    }
}

/// What `start` reaches, it reaches along any path from it.
proof fn lemma_reach_prefix<C>(g: Seq<Seq<(usize, C)>>, start: usize, p: Seq<usize>, k: int)
    requires
        is_path(g, p),
        reachable(g, start, p[0]),
        0 <= k < p.len(),
    ensures
        reachable(g, start, p[k]),
    decreases k,
{
    if k > 0 {
        lemma_reach_prefix(g, start, p, k - 1);
        assert(follows(g, p, k - 1));
        lemma_reach_step(g, start, p[k - 1], p[k]);
    }
}

/// The count at a node reached from `start`, in a graph where no such node is on
/// a cycle, is 1 at a goal and otherwise the sum of the counts over its edges.
proof fn lemma_count_unfold<C>(g: Seq<Seq<(usize, C)>>, pred: spec_fn(usize) -> bool, start: usize, v: usize, k: nat)
    requires
        wf(g),
        acyclic_from(g, start),
        reachable(g, start, v),
        v < g.len(),
        !pred(v),
        k <= g[v as int].len(),
    ensures
        nsum(g, pred, v, (g.len() - 1) as nat, k) == csum(g, pred, v, k),
    decreases k,
{
    if k > 0 {
        lemma_count_unfold(g, pred, start, v, (k - 1) as nat);
        let s = g[v as int][k - 1].0;
        assert(edge(g, v, s));
        lemma_reach_step(g, start, v, s);
        lemma_acyclic_bounded(g, start, s);
        lemma_acyclic_bounded(g, start, v);
        lemma_bounded_step(g, v, s, g.len());
        if g.len() >= 2 {
            lemma_fuel(g, pred, s, (g.len() - 1) as nat, g.len());
        } else {
            assert(is_path(g, seq![v, s])) by {
                assert(follows(g, seq![v, s], 0));
            }
        }
    }
}

/// `(p, e)` is a walk of `g` from `v`, given by its nodes `p` and the index in
/// its node's list of each edge it takes, that ends at a node where `pred`
/// holds and meets no such node before its end.
pub open spec fn first_goal_walk<C>(g: Seq<Seq<(usize, C)>>, pred: spec_fn(usize) -> bool, v: usize, p: Seq<usize>, e: Seq<int>) -> bool {
    &&& is_wpath(g, p, e, v, p[p.len() - 1])
    &&& pred(p[p.len() - 1])
    &&& forall|i: int| 0 <= i < p.len() - 1 ==> !pred(#[trigger] p[i])
}

/// The walks from `v` that stop at the first node where `pred` holds.
pub open spec fn first_goal_walks<C>(g: Seq<Seq<(usize, C)>>, pred: spec_fn(usize) -> bool, v: usize) -> Set<(Seq<usize>, Seq<int>)> {
    Set::new(|w: (Seq<usize>, Seq<int>)| first_goal_walk(g, pred, v, w.0, w.1))
}

/// The walk `w` from the end of edge `j` of `v`, with `v` and that edge put in front.
spec fn prepend_edge(v: usize, j: int, w: (Seq<usize>, Seq<int>)) -> (Seq<usize>, Seq<int>) {
    (seq![v] + w.0, seq![j] + w.1)
}

/// The walks of `first_goal_walks(g, pred, v)` whose first edge is one of the first `k` of `v`.
spec fn walks_below<C>(g: Seq<Seq<(usize, C)>>, pred: spec_fn(usize) -> bool, v: usize, k: int) -> Set<(Seq<usize>, Seq<int>)> {
    first_goal_walks(g, pred, v).filter(|w: (Seq<usize>, Seq<int>)| w.1.len() >= 1 && w.1[0] < k)
}

/// The nodes of a walk make a path.
proof fn lemma_wpath_is_path<C>(g: Seq<Seq<(usize, C)>>, p: Seq<usize>, e: Seq<int>, s: usize, t: usize)
    requires
        is_wpath(g, p, e, s, t),
    ensures
        is_path(g, p),
{
    assert forall|i: int| 0 <= i < p.len() - 1 implies #[trigger] follows(g, p, i) by {
        assert(wstep(g, p, e, i));
        assert(g[p[i] as int][e[i]].0 == p[i + 1]);
    }
}

/// The walks whose first edge is edge `j` of `v`, a node where `pred` does not
/// hold, are those from the end of that edge with the edge put in front.
proof fn lemma_walks_by_edge<C>(g: Seq<Seq<(usize, C)>>, pred: spec_fn(usize) -> bool, v: usize, j: int)
    requires
        wf(g),
        v < g.len(),
        0 <= j < g[v as int].len(),
        !pred(v),
    ensures
        first_goal_walks(g, pred, g[v as int][j].0).map(|w: (Seq<usize>, Seq<int>)| prepend_edge(v, j, w))
            == first_goal_walks(g, pred, v).filter(|w: (Seq<usize>, Seq<int>)| w.1.len() >= 1 && w.1[0] == j),
        vstd::relations::injective_on(|w: (Seq<usize>, Seq<int>)| prepend_edge(v, j, w), first_goal_walks(g, pred, g[v as int][j].0)),
{
    let s = g[v as int][j].0;
    let f = |w: (Seq<usize>, Seq<int>)| prepend_edge(v, j, w);
    let a = first_goal_walks(g, pred, s).map(f);
    let b = first_goal_walks(g, pred, v).filter(|w: (Seq<usize>, Seq<int>)| w.1.len() >= 1 && w.1[0] == j);
    assert forall|w: (Seq<usize>, Seq<int>)| a.contains(w) implies b.contains(w) by {
        let w0 = choose|w0: (Seq<usize>, Seq<int>)| first_goal_walks(g, pred, s).contains(w0) && f(w0) == w;
        let (p0, e0) = w0;
        let p = seq![v] + p0;
        let e = seq![j] + e0;
        assert(w == (p, e));
        assert(p[p.len() - 1] == p0[p0.len() - 1]);
        assert forall|i: int| 0 <= i < p.len() implies #[trigger] p[i] < g.len() by {
            if i > 0 {
                assert(p[i] == p0[i - 1]);
            }
        }
        assert forall|i: int| 0 <= i < e.len() implies #[trigger] wstep(g, p, e, i) by {
            if i > 0 {
                assert(wstep(g, p0, e0, i - 1));
                assert(p[i] == p0[i - 1] && p[i + 1] == p0[i] && e[i] == e0[i - 1]);
            } else {
                assert(p[1] == p0[0]);
            }
        }
        assert forall|i: int| 0 <= i < p.len() - 1 implies !pred(#[trigger] p[i]) by {
            if i > 0 {
                assert(p[i] == p0[i - 1]);
            }
        }
        assert(first_goal_walk(g, pred, v, p, e));
    }
    assert forall|w: (Seq<usize>, Seq<int>)| b.contains(w) implies a.contains(w) by {
        let (p, e) = w;
        assert(p.len() >= 2);
        let p0 = p.drop_first();
        let e0 = e.drop_first();
        assert(wstep(g, p, e, 0));
        assert(p0[0] == s);
        assert(p0[p0.len() - 1] == p[p.len() - 1]);
        assert forall|i: int| 0 <= i < p0.len() implies #[trigger] p0[i] < g.len() by {
            assert(p0[i] == p[i + 1]);
        }
        assert forall|i: int| 0 <= i < e0.len() implies #[trigger] wstep(g, p0, e0, i) by {
            assert(wstep(g, p, e, i + 1));
            assert(p0[i] == p[i + 1] && p0[i + 1] == p[i + 2] && e0[i] == e[i + 1]);
        }
        assert forall|i: int| 0 <= i < p0.len() - 1 implies !pred(#[trigger] p0[i]) by {
            assert(p0[i] == p[i + 1]);
            assert(!pred(p[i + 1]));
        }
        assert(first_goal_walk(g, pred, s, p0, e0));
        assert(first_goal_walks(g, pred, s).contains((p0, e0)));
        assert(seq![v] + p0 =~= p);
        assert(seq![j] + e0 =~= e);
        assert(f((p0, e0)) == w);
    }
    assert(a =~= b);
    assert forall|w1: (Seq<usize>, Seq<int>), w2: (Seq<usize>, Seq<int>)|
        first_goal_walks(g, pred, s).contains(w1) && first_goal_walks(g, pred, s).contains(w2) && #[trigger] f(w1) == #[trigger] f(w2)
        implies w1 == w2 by {
        assert(w1.0 =~= (seq![v] + w1.0).drop_first());
        assert(w2.0 =~= (seq![v] + w2.0).drop_first());
        assert(w1.1 =~= (seq![j] + w1.1).drop_first());
        assert(w2.1 =~= (seq![j] + w2.1).drop_first());
    }
}

/// Where every path from `v` has at most `m` nodes, the walks from `v` that
/// stop at the first goal are finitely many, `npaths(g, pred, v, m)` of them.
proof fn lemma_walks_len<C>(g: Seq<Seq<(usize, C)>>, pred: spec_fn(usize) -> bool, v: usize, m: nat)
    requires
        wf(g),
        v < g.len(),
        m >= 1,
        bounded(g, v, m),
    ensures
        first_goal_walks(g, pred, v).finite(),
        first_goal_walks(g, pred, v).len() == npaths(g, pred, v, m),
    decreases m, 1int,
{
    let all = first_goal_walks(g, pred, v);
    if pred(v) {
        let one = (seq![v], Seq::<int>::empty());
        assert forall|w: (Seq<usize>, Seq<int>)| #[trigger] all.contains(w) <==> w == one by {
            if all.contains(w) {
                let (p, e) = w;
                if p.len() >= 2 {
                    assert(p[0] == v);
                    assert(!pred(p[0]));
                }
                assert(p =~= seq![v]);
                assert(e =~= Seq::<int>::empty());
            }
            if w == one {
                assert(first_goal_walk(g, pred, v, seq![v], Seq::<int>::empty()));
            }
        }
        assert(all =~= set![one]);
    } else {
        let d = g[v as int].len() as int;
        lemma_walks_below(g, pred, v, m, d);
        assert(walks_below(g, pred, v, d) =~= all) by {
            assert forall|w: (Seq<usize>, Seq<int>)| #[trigger] all.contains(w) implies w.1.len() >= 1 && w.1[0] < d by {
                let (p, e) = w;
                if p.len() < 2 {
                    assert(p[0] == v);
                }
                assert(wstep(g, p, e, 0));
            }
        }
    }
}

/// The walks whose first edge is one of the first `k` edges of `v` number
/// `nsum(g, pred, v, m - 1, k)`.
proof fn lemma_walks_below<C>(g: Seq<Seq<(usize, C)>>, pred: spec_fn(usize) -> bool, v: usize, m: nat, k: int)
    requires
        wf(g),
        v < g.len(),
        m >= 1,
        bounded(g, v, m),
        !pred(v),
        0 <= k <= g[v as int].len(),
    ensures
        walks_below(g, pred, v, k).finite(),
        walks_below(g, pred, v, k).len() == nsum(g, pred, v, (m - 1) as nat, k as nat),
    decreases m, 0int, k,
{
    if k == 0 {
        assert forall|w: (Seq<usize>, Seq<int>)| !#[trigger] walks_below(g, pred, v, 0).contains(w) by {
            if walks_below(g, pred, v, 0).contains(w) {
                assert(wstep(g, w.0, w.1, 0));
            }
        }
        assert(walks_below(g, pred, v, 0) =~= Set::<(Seq<usize>, Seq<int>)>::empty());
    } else {
        lemma_walks_below(g, pred, v, m, k - 1);
        let j = k - 1;
        let s = g[v as int][j].0;
        assert(edge(g, v, s));
        assert(m >= 2) by {
            assert(is_path(g, seq![v, s])) by {
                assert(follows(g, seq![v, s], 0));
            }
        }
        lemma_bounded_step(g, v, s, m);
        lemma_walks_len(g, pred, s, (m - 1) as nat);
        lemma_walks_by_edge(g, pred, v, j);
        let f = |w: (Seq<usize>, Seq<int>)| prepend_edge(v, j, w);
        let t = first_goal_walks(g, pred, v).filter(|w: (Seq<usize>, Seq<int>)| w.1.len() >= 1 && w.1[0] == j);
        vstd::set_lib::lemma_map_size(first_goal_walks(g, pred, s), t, f);
        let below = walks_below(g, pred, v, k - 1);
        assert(walks_below(g, pred, v, k) =~= below + t);
        assert(below.disjoint(t));
        vstd::set_lib::lemma_set_disjoint_lens(below, t);
    }
}

/// The count of paths to a goal is the number of walks from `v` (edges taken
/// with their multiplicity) that end at a node where `pred` holds and meet no
/// such node before their end.
pub proof fn lemma_count_is_walks<C>(g: Seq<Seq<(usize, C)>>, pred: spec_fn(usize) -> bool, start: usize, v: usize)
    requires
        wf(g),
        acyclic_from(g, start),
        reachable(g, start, v),
    ensures
        first_goal_walks(g, pred, v).finite(),
        first_goal_walks(g, pred, v).len() == count(g, pred, v),
{
    let p = choose|p: Seq<usize>| #[trigger] is_path_from_to(g, p, start, v);
    assert(p[p.len() - 1] < g.len());
    lemma_acyclic_bounded(g, start, v);
    lemma_walks_len(g, pred, v, g.len());
}

/// The sum of the counts over the first `k` edges leaving `v`.
pub open spec fn csum<C>(g: Seq<Seq<(usize, C)>>, pred: spec_fn(usize) -> bool, v: usize, k: nat) -> nat
    decreases k,
{
    if k == 0 || v >= g.len() || k > g[v as int].len() {
        0
    } else {
        csum(g, pred, v, (k - 1) as nat) + count(g, pred, g[v as int][k - 1].0)
    }
}

/// The partial sums over the successors of a node grow with their number.
proof fn lemma_csum_mono<C>(g: Seq<Seq<(usize, C)>>, pred: spec_fn(usize) -> bool, v: usize, j: nat, k: nat)
    requires
        j <= k,
        v < g.len(),
        k <= g[v as int].len(),
    ensures
        csum(g, pred, v, j) <= csum(g, pred, v, k),
    decreases k,
{
    if j < k {
        lemma_csum_mono(g, pred, v, j, (k - 1) as nat);
    }
}

/// Count the paths from `node` with a cache of counts already known.
fn cached_count_paths<C, G: Goal>(
    node: usize,
    successors: &[Vec<(usize, C)>],
    goal: &G,
    cache: &mut FxMap,
    Ghost(start): Ghost<usize>,
    Ghost(stack): Ghost<Seq<usize>>,
) -> (r: usize)
    requires
        wf(adj(successors@)),
        goal.ready(),
        acyclic_from(adj(successors@), start),
        reachable(adj(successors@), start, node),
        node < successors@.len(),
        count(adj(successors@), goal.pred(), node) <= usize::MAX,
        forall|k: usize| #[trigger] old(cache)@.contains_key(k) ==> old(cache)@[k] == count(adj(successors@), goal.pred(), k),
        is_path(adj(successors@), stack.push(node)),
        distinct(stack.push(node)),
    ensures
        r == count(adj(successors@), goal.pred(), node),
        forall|k: usize| #[trigger] final(cache)@.contains_key(k) ==> final(cache)@[k] == count(adj(successors@), goal.pred(), k),
    decreases successors@.len() - stack.len(),
{
    let ghost g = adj(successors@);
    let ghost pred = goal.pred();
    proof {
        lemma_seq_distinct_len(stack.push(node), g.len());
    }
    if let Some(n) = fx_map_get(cache, node) {
        return n;
    }
    let total: usize = if goal.test(node) {
        proof {
            assert(g.len() > 0);
        }
        1
    } else {
        let edges = &successors[node];
        proof {
            assert(edges@ == g[node as int]);
            lemma_count_unfold(g, pred, start, node, g[node as int].len());
        }
        let mut sum: usize = 0;
        let mut t: usize = 0;
        while t < edges.len()
            invariant
                g == adj(successors@),
                wf(g),
                goal.ready(),
                pred == goal.pred(),
                !pred(node),
                node < g.len(),
                edges@ == g[node as int],
                acyclic_from(g, start),
                reachable(g, start, node),
                is_path(g, stack.push(node)),
                distinct(stack.push(node)),
                stack.push(node).len() <= g.len(),
                t <= edges.len(),
                sum == csum(g, pred, node, t as nat),
                csum(g, pred, node, g[node as int].len()) == count(g, pred, node),
                count(g, pred, node) <= usize::MAX,
                forall|k: usize| #[trigger] cache@.contains_key(k) ==> cache@[k] == count(g, pred, k),
            decreases edges.len() - t,
        {
            let s = edges[t].0;
            let ghost sp = stack.push(node);
            proof {
                assert(g[node as int][t as int].0 == s);
                assert(edge(g, node, s));
                lemma_reach_step(g, start, node, s);
                assert(sp[sp.len() - 1] == node);
                lemma_path_push(g, sp, s);
                assert(!sp.contains(s)) by {
                    if sp.contains(s) {
                        let i = choose|i: int| 0 <= i < sp.len() && sp[i] == s;
                        let cyc = sp.subrange(i, sp.len() as int).push(s);
                        assert forall|k: int| 0 <= k < cyc.len() - 1 implies #[trigger] follows(g, cyc, k) by {
                            if k < cyc.len() - 2 {
                                assert(follows(g, sp, i + k));
                                assert(cyc[k] == sp[i + k] && cyc[k + 1] == sp[i + k + 1]);
                            } else {
                                assert(cyc[k] == node);
                            }
                        }
                        assert forall|k: int| 0 <= k < cyc.len() implies #[trigger] cyc[k] < g.len() by {
                            if k < cyc.len() - 1 {
                                assert(cyc[k] == sp[i + k]);
                            }
                        }
                        assert(is_path_from_to(g, cyc, s, s));
                        assert(on_cycle(g, s));
                    }
                }
                assert forall|a: int, b: int| 0 <= a < b < sp.push(s).len() implies sp.push(s)[a] != sp.push(s)[b] by {
                    if b == sp.len() {
                        assert(sp.contains(sp[a]));
                    }
                }
                lemma_csum_mono(g, pred, node, (t + 1) as nat, g[node as int].len());
            }
            let c = cached_count_paths(s, successors, goal, cache, Ghost(start), Ghost(sp));
            sum = sum + c;
            t = t + 1;
        }
        sum
    };
    fx_map_insert(cache, node, total);
    total
}

/// Count the paths from `start` that end at the first node for which `success`
/// returns `true`, following the edges of `successors` with their multiplicity.
///
/// No node reached from `start` may lie on a cycle.
pub fn count_paths<C, FS: Fn(usize) -> bool>(start: usize, successors: &[Vec<(usize, C)>], success: FS) -> (r: usize)
    requires
        wf(adj(successors@)),
        start < successors@.len(),
        is_predicate(success),
        acyclic_from(adj(successors@), start),
        count(adj(successors@), pred_of(success), start) <= usize::MAX,
    ensures
        r == count(adj(successors@), pred_of(success), start),
        r == first_goal_walks(adj(successors@), pred_of(success), start).len(),
{
    let goal = FnGoal { f: success };
    let mut cache = fx_map_new();
    proof {
        lemma_reach_self(adj(successors@), start);
        assert(is_path(adj(successors@), Seq::<usize>::empty().push(start)));
        lemma_count_is_walks(adj(successors@), pred_of(success), start, start);
    }
    cached_count_paths(start, successors, &goal, &mut cache, Ghost(start), Ghost(Seq::empty()))
}

} // verus!
