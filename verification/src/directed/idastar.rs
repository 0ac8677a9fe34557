//! Compute a shortest path using the IDA* search algorithm: depth-first
//! searches along simple paths, each cut off where the cost so far plus the
//! heuristic's estimate exceeds a bound, the bound rising from search to search
//! to the least value that was cut off.

use vstd::prelude::*;
use std::ops::ControlFlow;
use crate::weight::Weight;
use crate::spec::{adj, distinct, is_predicate, is_wpath, lemma_walk_congr, lemma_wpath_push, nonneg, pred_of, walk_cost, wf, FnGoal, Goal};
use crate::outside::{
    node_set_contains, node_set_get_index, node_set_insert_full, node_set_items, node_set_len, node_set_new,
    node_set_swap_remove_index, NodeSet,
};

verus! {

/// `h` gives an estimate for every node: it can be called on every node, and
/// it gives one answer for each.
pub open spec fn is_estimate<C, F: Fn(usize) -> C>(h: F) -> bool {
    &&& forall|n: usize| #[trigger] h.requires((n,))
    &&& forall|n: usize, c1: C, c2: C|
        #![trigger h.ensures((n,), c1), h.ensures((n,), c2)]
        h.ensures((n,), c1) && h.ensures((n,), c2) ==> c1 == c2
}

/// The estimates that a closure computes, as integers.
pub open spec fn est_of<C: Weight, F: Fn(usize) -> C>(h: F) -> spec_fn(usize) -> int {
    |n: usize| (choose|c: C| h.ensures((n,), c)).val()
}

/// `(q, e)` is a path from `s` that visits no node twice.
pub open spec fn simple_wpath<C>(g: Seq<Seq<(usize, C)>>, q: Seq<usize>, e: Seq<int>, s: usize) -> bool {
    &&& q.len() >= 1
    &&& is_wpath(g, q, e, s, q[q.len() - 1])
    &&& distinct(q)
}

/// `(q, e)` is a path from `s` that visits no node twice and ends where `pred`
/// holds.
pub open spec fn goal_walk<C>(g: Seq<Seq<(usize, C)>>, q: Seq<usize>, e: Seq<int>, s: usize, pred: spec_fn(usize) -> bool) -> bool {
    simple_wpath(g, q, e, s) && pred(q[q.len() - 1])
}

/// The cost of the first `k` nodes of the path `(q, e)` plus the estimate at
/// the last of them: what the search compares with its bound there.
pub open spec fn prefix_f<C: Weight>(g: Seq<Seq<(usize, C)>>, est: spec_fn(usize) -> int, q: Seq<usize>, e: Seq<int>, k: int) -> int {
    walk_cost(g, q, e.take(k - 1)) + est(q[k - 1])
}

/// The estimates never exceed the real cost: along any path that visits no
/// node twice and ends at a goal, the estimate at each node is at most what
/// the rest of the path costs.
pub open spec fn admissible<C: Weight>(g: Seq<Seq<(usize, C)>>, est: spec_fn(usize) -> int, pred: spec_fn(usize) -> bool) -> bool {
    forall|q: Seq<usize>, e: Seq<int>, k: int|
        #[trigger] goal_walk(g, q, e, q[0], pred) && 1 <= k <= q.len() ==> #[trigger] prefix_f(g, est, q, e, k) <= walk_cost(g, q, e)
}

/// The costs that the search adds up stay within the weight type: on every
/// path from `s` that visits no node twice, the cost, and the cost plus the
/// estimate at its end.
pub open spec fn estimates_fit<C: Weight>(g: Seq<Seq<(usize, C)>>, est: spec_fn(usize) -> int, s: usize) -> bool {
    forall|q: Seq<usize>, e: Seq<int>| #[trigger] simple_wpath(g, q, e, s) ==> walk_cost(g, q, e) <= C::hi()
        && walk_cost(g, q, e) + est(q[q.len() - 1]) <= C::hi()
}

/// `(q, e)` continues the path `(p, pe)`.
pub open spec fn extends(p: Seq<usize>, pe: Seq<int>, q: Seq<usize>, e: Seq<int>) -> bool {
    &&& p.len() <= q.len()
    &&& q.take(p.len() as int) == p
    &&& e.take(pe.len() as int) == pe
}

/// A search bounded by `b` cut the path `(q, e)` off at some prefix of at least
/// `from` nodes, and `m` is a value that was cut off and is no more than the
/// value there.
pub open spec fn cut_off<C: Weight>(g: Seq<Seq<(usize, C)>>, est: spec_fn(usize) -> int, q: Seq<usize>, e: Seq<int>, from: int, b: int, m: Option<C>) -> bool {
    exists|k: int| from <= k <= q.len() && #[trigger] prefix_f(g, est, q, e, k) > b && is_at_most(m, prefix_f(g, est, q, e, k))
}

/// `m` holds a value, and it is at most `v`.
pub open spec fn is_at_most<C: Weight>(m: Option<C>, v: int) -> bool {
    m matches Some(x) && x.val() <= v
}

/// The cost of a walk splits at any step into the cost of the steps before
/// and the cost of the walk that starts there.
proof fn lemma_walk_split<C: Weight>(g: Seq<Seq<(usize, C)>>, p: Seq<usize>, e: Seq<int>, m: int)
    requires
        0 <= m <= e.len(),
        p.len() >= e.len() + 1,
    ensures
        walk_cost(g, p, e) == walk_cost(g, p, e.take(m)) + walk_cost(g, p.skip(m), e.skip(m)),
    decreases e.len(),
{
    if m == e.len() {
        assert(e.take(m) =~= e);
        assert(e.skip(m).len() == 0);
    } else {
        let e1 = e.drop_last();
        lemma_walk_split(g, p, e1, m);
        assert(e1.take(m) =~= e.take(m));
        assert(e.skip(m).drop_last() =~= e1.skip(m));
        assert(p.skip(m)[e.skip(m).len() - 1] == p[e.len() - 1]);
        assert(e.skip(m)[e.skip(m).len() - 1] == e[e.len() - 1]);
    }
}

/// Under non-negative weights no walk costs less than nothing.
pub(crate) proof fn lemma_walk_nonneg<C: Weight>(g: Seq<Seq<(usize, C)>>, p: Seq<usize>, e: Seq<int>)
    requires
        nonneg(g),
        forall|k: int| 0 <= k < e.len() ==> #[trigger] crate::spec::wstep(g, p, e, k),
    ensures
        walk_cost(g, p, e) >= 0,
    decreases e.len(),
{
    if e.len() > 0 {
        let e1 = e.drop_last();
        assert forall|k: int| 0 <= k < e1.len() implies #[trigger] crate::spec::wstep(g, p, e1, k) by {
            assert(crate::spec::wstep(g, p, e, k));
        }
        lemma_walk_nonneg(g, p, e1);
        assert(crate::spec::wstep(g, p, e, e.len() - 1));
    }
}

/// From every walk there is a path between the same nodes that visits no
/// node twice: a walk that visits a node twice can be cut short there, and
/// under non-negative weights the shorter walk costs no more.
pub proof fn lemma_simple_path<C: Weight>(g: Seq<Seq<(usize, C)>>, p: Seq<usize>, e: Seq<int>, s: usize, t: usize)
    requires
        is_wpath(g, p, e, s, t),
    ensures
        exists|q: Seq<usize>, f: Seq<int>| #[trigger] simple_wpath(g, q, f, s) && q[q.len() - 1] == t
            && (nonneg(g) ==> walk_cost(g, q, f) <= walk_cost(g, p, e)),
    decreases p.len(),
{
    if distinct(p) {
        assert(simple_wpath(g, p, e, s));
    } else {
        let (i, j) = choose|i: int, j: int| 0 <= i < j < p.len() && p[i] == p[j];
        let q = p.take(i + 1) + p.skip(j + 1);
        let f = e.take(i) + e.skip(j);
        assert(q.len() == p.len() - (j - i));
        assert(f.len() == q.len() - 1);
        assert forall|k: int| 0 <= k < q.len() implies q[k] == (if k <= i { p[k] } else { p[k - i + j] }) by {
            if k > i {
                assert(q[k] == p.skip(j + 1)[k - i - 1]);
            }
        }
        assert forall|k: int| 0 <= k < f.len() implies f[k] == (if k < i { e[k] } else { e[k - i + j] }) by {
            if k >= i {
                assert(f[k] == e.skip(j)[k - i]);
            }
        }
        assert forall|k: int| 0 <= k < q.len() implies #[trigger] q[k] < g.len() by {
            if k > i {
                assert(q[k] == p[k - i + j]);
            } else {
                assert(q[k] == p[k]);
            }
        }
        assert forall|k: int| 0 <= k < f.len() implies #[trigger] crate::spec::wstep(g, q, f, k) by {
            if k < i {
                assert(crate::spec::wstep(g, p, e, k));
                assert(q[k] == p[k] && q[k + 1] == p[k + 1] && f[k] == e[k]);
            } else {
                assert(crate::spec::wstep(g, p, e, k - i + j));
                assert(q[k] == p[k - i + j]);
                assert(q[k + 1] == p[k + 1 - i + j]);
                assert(f[k] == e[k - i + j]);
            }
        }
        assert(q[0] == s);
        assert(q[q.len() - 1] == t) by {
            if q.len() - 1 > i {
                assert(q[q.len() - 1] == p[q.len() - 1 - i + j]);
            } else {
                assert(q[q.len() - 1] == p[i]);
            }
        }
        assert(is_wpath(g, q, f, s, t));
        if nonneg(g) {
            lemma_walk_split(g, q, f, i);
            lemma_walk_split(g, p, e, j);
            assert(f.take(i) =~= e.take(i));
            lemma_walk_congr(g, q, p, e.take(i));
            assert(q.skip(i) =~= p.skip(j));
            assert(f.skip(i) =~= e.skip(j));
            lemma_walk_split(g, p, e.take(j), i);
            assert(e.take(j).take(i) =~= e.take(i));
            assert(e.take(j).len() == j);
            assert forall|k: int| 0 <= k < e.take(j).skip(i).len() implies #[trigger] crate::spec::wstep(
                g,
                p.skip(i),
                e.take(j).skip(i),
                k,
            ) by {
                assert(crate::spec::wstep(g, p, e, k + i));
            }
            lemma_walk_nonneg(g, p.skip(i), e.take(j).skip(i));
        }
        lemma_simple_path(g, q, f, s, t);
    }
}

/// What a call of the estimate returns is the estimate.
proof fn lemma_estimate<C: Weight, F: Fn(usize) -> C>(h: F, n: usize, c: C)
    requires
        is_estimate(h),
        h.ensures((n,), c),
    ensures
        est_of(h)(n) == c.val(),
{
    let d = choose|d: C| h.ensures((n,), d);
    assert(h.ensures((n,), d));
}

/// A path that visits no node twice has at most as many nodes as the graph.
proof fn lemma_simple_len<C>(g: Seq<Seq<(usize, C)>>, q: Seq<usize>, e: Seq<int>, s: usize)
    requires
        simple_wpath(g, q, e, s),
    ensures
        q.len() <= g.len(),
{
    assert forall|k: int| 0 <= k < q.len() implies #[trigger] q[k] < g.len() by {}
    assert forall|a: int, b: int| 0 <= a < b < q.len() implies #[trigger] q[a] != #[trigger] q[b] by {}
    crate::directed::bfs::lemma_seq_distinct_len(q, g.len());
}

/// Bound the value of the prefix of `k` nodes of an extension of `(p, pe)`.
proof fn lemma_prefix_at<C: Weight>(g: Seq<Seq<(usize, C)>>, est: spec_fn(usize) -> int, p: Seq<usize>, pe: Seq<int>, q: Seq<usize>, e: Seq<int>)
    requires
        extends(p, pe, q, e),
        p.len() >= 1,
        pe.len() == p.len() - 1,
    ensures
        prefix_f(g, est, q, e, p.len() as int) == walk_cost(g, p, pe) + est(p[p.len() - 1]),
{
    assert(e.take(p.len() - 1) == pe);
    assert(q[p.len() - 1] == q.take(p.len() as int)[p.len() - 1]);
    assert forall|i: int| 0 <= i < pe.len() implies q[i] == p[i] by {
        assert(q.take(p.len() as int)[i] == q[i]);
    }
    lemma_walk_congr(g, q, p, pe);
}

/// A sorted copy of the candidates, in order of their values.
fn sort_by_value<C: Weight>(items: Vec<(usize, C, C, usize)>) -> (r: Vec<(usize, C, C, usize)>)
    ensures
        r@.len() == items@.len(),
        r@.to_multiset() == items@.to_multiset(),
        forall|i: int| 0 <= i < items@.len() ==> r@.contains(#[trigger] items@[i]),
        forall|i: int| 0 <= i < r@.len() ==> items@.contains(#[trigger] r@[i]),
        forall|i: int, j: int| 0 <= i < j < r@.len() ==> (#[trigger] r@[i]).2.val() <= (#[trigger] r@[j]).2.val(),
{
    let mut sorted: Vec<(usize, C, C, usize)> = Vec::new();
    let mut i: usize = 0;
    proof {
        assert(items@.take(0) =~= Seq::<(usize, C, C, usize)>::empty());
    }
    while i < items.len()
        invariant
            i <= items@.len(),
            sorted@.len() == i,
            sorted@.to_multiset() == items@.take(i as int).to_multiset(),
            forall|k: int| 0 <= k < i ==> sorted@.contains(#[trigger] items@[k]),
            forall|k: int| 0 <= k < sorted@.len() ==> items@.contains(#[trigger] sorted@[k]),
            forall|a: int, b: int| 0 <= a < b < sorted@.len() ==> (#[trigger] sorted@[a]).2.val() <= (#[trigger] sorted@[b]).2.val(),
        decreases items@.len() - i,
    {
        let x = items[i];
        let mut pos: usize = 0;
        while pos < sorted.len() && sorted[pos].2.le(&x.2)
            invariant
                pos <= sorted@.len(),
                forall|k: int| 0 <= k < pos ==> (#[trigger] sorted@[k]).2.val() <= x.2.val(),
            decreases sorted@.len() - pos,
        {
            pos = pos + 1;
        }
        let ghost before = sorted@;
        sorted.insert(pos, x);
        proof {
            assert(sorted@ == before.insert(pos as int, x));
            vstd::seq_lib::to_multiset_insert(before, pos as int, x);
            assert(items@.take(i + 1) == items@.take(i as int).push(x));
            vstd::seq_lib::to_multiset_build(items@.take(i as int), x);
            assert forall|a: int, b: int| 0 <= a < b < sorted@.len() implies (#[trigger] sorted@[a]).2.val() <= (#[trigger] sorted@[b]).2.val() by {
                if pos < before.len() {
                    assert(x.2.val() < before[pos as int].2.val());
                }
                if b < pos {
                    assert(sorted@[a] == before[a] && sorted@[b] == before[b]);
                } else if b == pos {
                    assert(sorted@[a] == before[a]);
                } else if a < pos {
                    assert(sorted@[a] == before[a] && sorted@[b] == before[b - 1]);
                } else if a == pos {
                    assert(sorted@[b] == before[b - 1]);
                    if b - 1 > pos { assert(before[pos as int].2.val() <= before[b - 1].2.val()); }
                } else {
                    assert(sorted@[a] == before[a - 1] && sorted@[b] == before[b - 1]);
                }
            }
            assert forall|k: int| 0 <= k < i + 1 implies sorted@.contains(#[trigger] items@[k]) by {
                if k == i {
                    assert(sorted@[pos as int] == x);
                } else {
                    let j = choose|j: int| 0 <= j < before.len() && before[j] == items@[k];
                    if j < pos {
                        assert(sorted@[j] == before[j]);
                    } else {
                        assert(sorted@[j + 1] == before[j]);
                    }
                }
            }
            assert forall|k: int| 0 <= k < sorted@.len() implies items@.contains(#[trigger] sorted@[k]) by {
                if k < pos {
                    assert(sorted@[k] == before[k]);
                } else if k == pos {
                    assert(sorted@[k] == items@[i as int]);
                } else {
                    assert(sorted@[k] == before[k - 1]);
                }
            }
        }
        i = i + 1;
    }
    proof {
        assert(items@.take(items@.len() as int) =~= items@);
    }
    sorted
}

/// The nodes of the path, in order.
fn path_nodes(path: &NodeSet) -> (r: Vec<usize>)
    ensures
        r@ == node_set_items(*path),
{
    let mut out: Vec<usize> = Vec::new();
    let n = node_set_len(path);
    let mut i: usize = 0;
    while i < n
        invariant
            n == node_set_items(*path).len(),
            i <= n,
            out@ == node_set_items(*path).take(i as int),
        decreases n - i,
    {
        match node_set_get_index(path, i) {
            Some(x) => {
                out.push(x);
                proof {
                    assert(node_set_items(*path).take(i + 1) == node_set_items(*path).take(i as int).push(x));
                }
            },
            None => {},
        }
        i = i + 1;
    }
    proof {
        assert(node_set_items(*path).take(n as int) == node_set_items(*path));
    }
    out
}

/// One bounded depth-first search from the end of the current path, whose
/// cost is `cost`. It finds a goal whose value is within the bound, or reports
/// the least value that it cut off (none if it cut nothing off).
fn search<C: Weight, FH: Fn(usize) -> C, G: Goal>(
    path: &mut NodeSet,
    cost: C,
    bound: C,
    successors: &[Vec<(usize, C)>],
    heuristic: &FH,
    success: &G,
    Ghost(s): Ghost<usize>,
    Ghost(pe): Ghost<Seq<int>>,
) -> (r: ControlFlow<(Vec<usize>, C), Option<C>>)
    requires
        wf(adj(successors@)),
        nonneg(adj(successors@)),
        is_estimate(*heuristic),
        estimates_fit(adj(successors@), est_of(*heuristic), s),
        success.ready(),
        simple_wpath(adj(successors@), node_set_items(*old(path)), pe, s),
        cost.val() == walk_cost(adj(successors@), node_set_items(*old(path)), pe),
    ensures
        match r {
            ControlFlow::Break((q, c)) => {
                &&& exists|e: Seq<int>| #[trigger] goal_walk(adj(successors@), q@, e, s, success.pred())
                    && c.val() == walk_cost(adj(successors@), q@, e) + est_of(*heuristic)(q@[q@.len() - 1])
                &&& c.val() <= bound.val()
            },
            ControlFlow::Continue(m) => {
                &&& node_set_items(*final(path)) == node_set_items(*old(path))
                &&& m matches Some(x) ==> x.val() > bound.val()
                &&& forall|q: Seq<usize>, e: Seq<int>|
                    extends(node_set_items(*old(path)), pe, q, e) && #[trigger] goal_walk(adj(successors@), q, e, s, success.pred())
                    ==> cut_off(adj(successors@), est_of(*heuristic), q, e, node_set_items(*old(path)).len() as int, bound.val(), m)
            },
        },
    decreases adj(successors@).len() - pe.len(),
{
    let ghost g = adj(successors@);
    let ghost est = est_of(*heuristic);
    let ghost p = node_set_items(*path);
    let ghost pred = success.pred();
    proof {
        lemma_simple_len(g, p, pe, s);
        C::lemma_range(cost);
    }
    let len = node_set_len(path);
    let start = match node_set_get_index(path, len - 1) {
        Some(x) => x,
        None => 0,
    };
    let hs = heuristic(start);
    proof {
        assert(start == p[p.len() - 1]);
        lemma_estimate(*heuristic, start, hs);
        assert(simple_wpath(g, p, pe, s));
        C::lemma_range(hs);
        crate::spec::lemma_walk_prefix(g, p, pe, s, start, 0);
        assert(pe.take(0) =~= Seq::<int>::empty());
        assert(cost.val() >= 0);
    }
    let f = cost.plus(hs);
    if bound.lt(&f) {
        proof {
            assert forall|q: Seq<usize>, e: Seq<int>|
                extends(p, pe, q, e) && #[trigger] goal_walk(g, q, e, s, pred)
                implies cut_off(g, est, q, e, p.len() as int, bound.val(), Some(f)) by {
                lemma_prefix_at(g, est, p, pe, q, e);
                assert(prefix_f(g, est, q, e, p.len() as int) == f.val());
            }
        }
        return ControlFlow::Continue(Some(f));
    }
    if success.test(start) {
        let nodes = path_nodes(path);
        proof {
            assert(nodes@ == p);
            assert(pred(start));
            assert(goal_walk(g, nodes@, pe, s, pred));
            assert(f.val() == walk_cost(g, nodes@, pe) + est(nodes@[nodes@.len() - 1]));
            assert(f.val() <= bound.val());
            assert(exists|e: Seq<int>| #[trigger] goal_walk(g, nodes@, e, s, pred) && f.val() == walk_cost(g, nodes@, e) + est(nodes@[nodes@.len() - 1]));
        }
        let r: ControlFlow<(Vec<usize>, C), Option<C>> = ControlFlow::Break((nodes, f));
        proof {
            assert(r matches ControlFlow::Break((q, c)) && q@ == p && c == f);
        }
        return r;
    }
    // The successors off the path, with the value of each.
    let edges = &successors[start];
    proof {
        assert(edges@ == g[start as int]);
    }
    let mut neighbs: Vec<(usize, C, C, usize)> = Vec::new();
    let mut j: usize = 0;
    while j < edges.len()
        invariant
            g == adj(successors@),
            est == est_of(*heuristic),
            is_estimate(*heuristic),
            estimates_fit(g, est, s),
            nonneg(g),
            wf(g),
            simple_wpath(g, p, pe, s),
            p == node_set_items(*path),
            start == p[p.len() - 1],
            start < g.len(),
            edges@ == g[start as int],
            cost.val() == walk_cost(g, p, pe),
            cost.val() >= 0,
            j <= edges@.len(),
            forall|i: int| 0 <= i < neighbs@.len() ==> {
                let (n, c, v, k) = #[trigger] neighbs@[i];
                &&& k < j
                &&& edges@[k as int] == (n, c)
                &&& !p.contains(n)
                &&& v.val() == c.val() + est(n)
            },
            forall|k: int| 0 <= k < j && !p.contains(edges@[k].0) ==> exists|i: int| 0 <= i < neighbs@.len() && (#[trigger] neighbs@[i]).3 == k,
        decreases edges@.len() - j,
    {
        let (n, c) = edges[j];
        if !node_set_contains(path, n) {
            let hn = heuristic(n);
            proof {
                lemma_estimate(*heuristic, n, hn);
                lemma_wpath_push(g, p, pe, s, start, j as int);
                let q2 = p.push(n);
                assert(distinct(q2)) by {
                    assert forall|a: int, b: int| 0 <= a < b < q2.len() implies q2[a] != q2[b] by {
                        if b == p.len() {
                            assert(q2[a] == p[a]);
                        }
                    }
                }
                assert(simple_wpath(g, q2, pe.push(j as int), s));
                assert(q2[q2.len() - 1] == n);
                assert(g[start as int][j as int].1.val() >= 0);
                C::lemma_range(hn);
                C::lemma_range(c);
            }
            let v = c.plus(hn);
            let ghost before = neighbs@;
            neighbs.push((n, c, v, j));
            proof {
                assert(neighbs@[before.len() as int].3 == j);
                assert forall|k: int| 0 <= k < j + 1 && !p.contains(edges@[k].0)
                    implies exists|i: int| 0 <= i < neighbs@.len() && (#[trigger] neighbs@[i]).3 == k by {
                    if k < j {
                        let i = choose|i: int| 0 <= i < before.len() && (#[trigger] before[i]).3 == k;
                        assert(neighbs@[i] == before[i]);
                    } else {
                        assert(neighbs@[before.len() as int].3 == k);
                    }
                }
            }
        } else {
            proof {
                assert forall|k: int| 0 <= k < j + 1 && !p.contains(edges@[k].0)
                    implies exists|i: int| 0 <= i < neighbs@.len() && (#[trigger] neighbs@[i]).3 == k by {
                    if k == j {
                        assert(p.contains(edges@[k].0));
                    }
                }
            }
        }
        j = j + 1;
    }
    let neighbs = sort_by_value(neighbs);
    let mut min: Option<C> = None;
    let mut i: usize = 0;
    while i < neighbs.len()
        invariant
            g == adj(successors@),
            est == est_of(*heuristic),
            pred == success.pred(),
            success.ready(),
            is_estimate(*heuristic),
            estimates_fit(g, est, s),
            nonneg(g),
            wf(g),
            simple_wpath(g, p, pe, s),
            p.len() <= g.len(),
            p == node_set_items(*path),
            start == p[p.len() - 1],
            !pred(start),
            start < g.len(),
            edges@ == g[start as int],
            cost.val() == walk_cost(g, p, pe),
            i <= neighbs@.len(),
            forall|k: int| 0 <= k < neighbs@.len() ==> {
                let (n, c, v, x) = #[trigger] neighbs@[k];
                &&& x < edges@.len()
                &&& edges@[x as int] == (n, c)
                &&& !p.contains(n)
            },
            min matches Some(x) ==> x.val() > bound.val(),
            forall|q: Seq<usize>, e: Seq<int>|
                extends(p, pe, q, e) && #[trigger] goal_walk(g, q, e, s, pred) && q.len() > p.len()
                && (exists|k: int| 0 <= k < i && (#[trigger] neighbs@[k]).3 == e[p.len() - 1])
                ==> cut_off(g, est, q, e, p.len() as int, bound.val(), min),
        decreases neighbs@.len() - i,
    {
        let (node, extra, _value, edge) = neighbs[i];
        let ghost p2 = p.push(node);
        let ghost pe2 = pe.push(edge as int);
        let (idx, _inserted) = node_set_insert_full(path, node);
        proof {
            assert(node_set_items(*path) == p2);
            assert(neighbs@[i as int].3 == edge);
            lemma_wpath_push(g, p, pe, s, start, edge as int);
            assert(distinct(p2)) by {
                assert forall|a: int, b: int| 0 <= a < b < p2.len() implies p2[a] != p2[b] by {
                    if b == p.len() {
                        assert(p2[a] == p[a]);
                    }
                }
            }
            assert(simple_wpath(g, p2, pe2, s));
            assert(p2[p2.len() - 1] == node);
            lemma_simple_len(g, p2, pe2, s);
            C::lemma_range(cost);
            C::lemma_range(extra);
            assert(g[start as int][edge as int].1.val() >= 0);
        }
        let next_cost = cost.plus(extra);
        proof {
            assert(node_set_items(*path) == p2);
            assert(p2.len() == p.len() + 1);
            assert(0 <= g.len() - p2.len() < g.len() - p.len());
        }
        let flow = search(path, next_cost, bound, successors, heuristic, success, Ghost(s), Ghost(pe2));
        match flow {
            ControlFlow::Break(found) => {
                return ControlFlow::Break(found);
            },
            ControlFlow::Continue(m) => {
                let ghost min0 = min;
                match m {
                    Some(x) => {
                        match min {
                            None => { min = Some(x); },
                            Some(y) => {
                                if x.le(&y) {
                                    min = Some(x);
                                }
                            },
                        }
                    },
                    None => {},
                }
                proof {
                    assert(min0 matches Some(y) ==> min matches Some(z) && z.val() <= y.val());
                    assert(m matches Some(x) ==> min matches Some(z) && z.val() <= x.val());
                    assert forall|q: Seq<usize>, e: Seq<int>|
                        extends(p, pe, q, e) && #[trigger] goal_walk(g, q, e, s, pred) && q.len() > p.len()
                        && (exists|k: int| 0 <= k < i + 1 && (#[trigger] neighbs@[k]).3 == e[p.len() - 1])
                        implies cut_off(g, est, q, e, p.len() as int, bound.val(), min) by {
                        let k = choose|k: int| 0 <= k < i + 1 && (#[trigger] neighbs@[k]).3 == e[p.len() - 1];
                        if k < i {
                            assert(cut_off(g, est, q, e, p.len() as int, bound.val(), min0));
                            let w = choose|w: int| p.len() <= w <= q.len() && #[trigger] prefix_f(g, est, q, e, w) > bound.val()
                                && is_at_most(min0, prefix_f(g, est, q, e, w));
                            assert(p.len() <= w <= q.len() && prefix_f(g, est, q, e, w) > bound.val());
                        } else {
                            // The path goes on along this edge.
                            assert(e.take(pe.len() as int) == pe);
                            assert(wstep_at(g, q, e, p.len() - 1));
                            assert(q[p.len() - 1] == start) by {
                                assert(q.take(p.len() as int)[p.len() - 1] == q[p.len() - 1]);
                            }
                            assert(edges@[edge as int] == (node, extra));
                            assert(q[p.len() as int] == node);
                            assert(extends(p2, pe2, q, e)) by {
                                assert(q.take(p2.len() as int) =~= p2) by {
                                    assert forall|a: int| 0 <= a < p2.len() implies q.take(p2.len() as int)[a] == p2[a] by {
                                        if a < p.len() {
                                            assert(q.take(p.len() as int)[a] == q[a]);
                                        }
                                    }
                                }
                                assert(e.take(pe2.len() as int) =~= pe2) by {
                                    assert forall|a: int| 0 <= a < pe2.len() implies e.take(pe2.len() as int)[a] == pe2[a] by {
                                        if a < pe.len() {
                                            assert(e.take(pe.len() as int)[a] == e[a]);
                                        }
                                    }
                                }
                            }
                            assert(cut_off(g, est, q, e, p2.len() as int, bound.val(), m));
                            let w = choose|w: int| p2.len() <= w <= q.len() && #[trigger] prefix_f(g, est, q, e, w) > bound.val()
                                && is_at_most(m, prefix_f(g, est, q, e, w));
                            assert(p.len() <= w <= q.len() && prefix_f(g, est, q, e, w) > bound.val());
                        }
                    }
                }
            },
        }
        let _ = node_set_swap_remove_index(path, idx);
        proof {
            assert(node_set_items(*path) =~= p);
        }
        i = i + 1;
    }
    proof {
        assert forall|q: Seq<usize>, e: Seq<int>|
            extends(p, pe, q, e) && #[trigger] goal_walk(g, q, e, s, pred)
            implies cut_off(g, est, q, e, p.len() as int, bound.val(), min) by {
            if q.len() == p.len() {
                assert(q =~= p) by {
                    assert forall|a: int| 0 <= a < p.len() implies q[a] == p[a] by {
                        assert(q.take(p.len() as int)[a] == q[a]);
                    }
                }
            } else {
                let k = e[p.len() - 1];
                assert(wstep_at(g, q, e, p.len() - 1));
                assert(q[p.len() - 1] == start) by {
                    assert(q.take(p.len() as int)[p.len() - 1] == q[p.len() - 1]);
                }
                let n = q[p.len() as int];
                assert(edges@[k].0 == n);
                assert(!p.contains(n)) by {
                    if p.contains(n) {
                        let a = choose|a: int| 0 <= a < p.len() && p[a] == n;
                        assert(q.take(p.len() as int)[a] == q[a]);
                        assert(q[a] == q[p.len() as int]);
                    }
                }
            }
        }
    }
    ControlFlow::Continue(min)
}

/// The `i`-th step of `(q, e)` follows edge `e[i]` of node `q[i]`.
spec fn wstep_at<C>(g: Seq<Seq<(usize, C)>>, q: Seq<usize>, e: Seq<int>, i: int) -> bool {
    crate::spec::wstep(g, q, e, i)
}

/// Compute a shortest path using the IDA* search algorithm.
///
/// The result is a path from `start` to a node where `success` holds that
/// visits no node twice, with its cost plus the estimate at its end; `None`
/// where no such path exists. Where the estimates never exceed the real cost,
/// no path from `start` to a goal that visits no node twice costs less than
/// the value returned.
pub fn idastar<C: Weight, FH: Fn(usize) -> C, FS: Fn(usize) -> bool>(
    start: usize,
    successors: &[Vec<(usize, C)>],
    heuristic: FH,
    success: FS,
) -> (r: Option<(Vec<usize>, C)>)
    requires
        wf(adj(successors@)),
        nonneg(adj(successors@)),
        start < successors@.len(),
        is_estimate(heuristic),
        is_predicate(success),
        estimates_fit(adj(successors@), est_of(heuristic), start),
    ensures
        match r {
            Some((p, c)) => {
                &&& exists|e: Seq<int>| #[trigger] goal_walk(adj(successors@), p@, e, start, pred_of(success))
                    && c.val() == walk_cost(adj(successors@), p@, e) + est_of(heuristic)(p@[p@.len() - 1])
                &&& admissible(adj(successors@), est_of(heuristic), pred_of(success)) ==> forall|w: usize, q: Seq<usize>, e: Seq<int>|
                    #[trigger] is_wpath(adj(successors@), q, e, start, w) && pred_of(success)(w) ==> c.val() <= walk_cost(adj(successors@), q, e)
            },
            None => {
                &&& forall|q: Seq<usize>, e: Seq<int>| !#[trigger] goal_walk(adj(successors@), q, e, start, pred_of(success))
                &&& crate::directed::dijkstra::no_goal_wpath(adj(successors@), start, pred_of(success))
            },
        },
{
    let ghost g = adj(successors@);
    let ghost est = est_of(heuristic);
    let goal = FnGoal { f: success };
    let ghost pred = goal.pred();
    let mut path = node_set_new();
    let _ = node_set_insert_full(&mut path, start);
    let ghost p0 = node_set_items(path);
    let mut bound = heuristic(start);
    proof {
        lemma_estimate(heuristic, start, bound);
        assert(p0 == seq![start]);
        assert(is_wpath(g, p0, Seq::<int>::empty(), start, start));
        assert(walk_cost(g, p0, Seq::<int>::empty()) == 0);
        assert(simple_wpath(g, p0, Seq::<int>::empty(), start));
        if admissible(g, est, pred) {
            assert forall|q: Seq<usize>, e: Seq<int>| #[trigger] goal_walk(g, q, e, start, pred)
                implies bound.val() <= walk_cost(g, q, e) by {
                assert(q[0] == start);
                assert(goal_walk(g, q, e, q[0], pred));
                assert(prefix_f(g, est, q, e, 1) <= walk_cost(g, q, e));
                assert(e.take(0) =~= Seq::<int>::empty());
            }
        }
    }
    loop
        invariant
            g == adj(successors@),
            est == est_of(heuristic),
            pred == goal.pred(),
            pred == pred_of(success),
            goal.ready(),
            is_estimate(heuristic),
            estimates_fit(g, est, start),
            nonneg(g),
            wf(g),
            start < g.len(),
            node_set_items(path) == p0,
            p0 == seq![start],
            simple_wpath(g, p0, Seq::<int>::empty(), start),
            admissible(g, est, pred) ==> forall|q: Seq<usize>, e: Seq<int>|
                #[trigger] goal_walk(g, q, e, start, pred) ==> bound.val() <= walk_cost(g, q, e),
        decreases C::hi() - bound.val(),
    {
        proof {
            C::lemma_range(bound);
            if admissible(g, est, pred) {
                assert forall|q: Seq<usize>, e: Seq<int>| #[trigger] goal_walk(g, q, e, start, pred)
                    implies bound.val() <= walk_cost(g, q, e) by {}
            }
        }
        let flow = search(&mut path, C::zero(), bound, successors, &heuristic, &goal, Ghost(start), Ghost(Seq::<int>::empty()));
        match flow {
            ControlFlow::Break((p, c)) => {
                proof {
                    let e = choose|e: Seq<int>| #[trigger] goal_walk(g, p@, e, start, pred)
                        && c.val() == walk_cost(g, p@, e) + est(p@[p@.len() - 1]);
                    assert(goal_walk(g, p@, e, start, pred_of(success)));
                    assert(exists|e: Seq<int>| #[trigger] goal_walk(g, p@, e, start, pred_of(success))
                        && c.val() == walk_cost(g, p@, e) + est_of(heuristic)(p@[p@.len() - 1]));
                    if admissible(adj(successors@), est_of(heuristic), pred_of(success)) {
                        assert forall|q: Seq<usize>, e: Seq<int>| #[trigger] goal_walk(adj(successors@), q, e, start, pred_of(success))
                            implies c.val() <= walk_cost(adj(successors@), q, e) by {
                            assert(goal_walk(g, q, e, start, pred));
                        }
                        assert forall|w: usize, q: Seq<usize>, e: Seq<int>|
                            #[trigger] is_wpath(adj(successors@), q, e, start, w) && pred_of(success)(w)
                            implies c.val() <= walk_cost(adj(successors@), q, e) by {
                            lemma_simple_path(g, q, e, start, w);
                            let (q2, f2) = choose|q2: Seq<usize>, f2: Seq<int>| #[trigger] simple_wpath(g, q2, f2, start)
                                && q2[q2.len() - 1] == w && (nonneg(g) ==> walk_cost(g, q2, f2) <= walk_cost(g, q, e));
                            assert(goal_walk(adj(successors@), q2, f2, start, pred_of(success)));
                        }
                    }
                }
                let r = Some((p, c));
                proof {
                    assert(r matches Some((p1, c1)) && p1 == p && c1 == c);
                    assert(exists|e: Seq<int>| #[trigger] goal_walk(adj(successors@), p@, e, start, pred_of(success))
                        && c.val() == walk_cost(adj(successors@), p@, e) + est_of(heuristic)(p@[p@.len() - 1]));
                    assert(admissible(adj(successors@), est_of(heuristic), pred_of(success)) ==> forall|w: usize, q: Seq<usize>, e: Seq<int>|
                        #[trigger] is_wpath(adj(successors@), q, e, start, w) && pred_of(success)(w) ==> c.val() <= walk_cost(adj(successors@), q, e));
                }
                return r;
            },
            ControlFlow::Continue(None) => {
                proof {
                    assert forall|q: Seq<usize>, e: Seq<int>| !#[trigger] goal_walk(g, q, e, start, pred) by {
                        if goal_walk(g, q, e, start, pred) {
                            assert(extends(p0, Seq::<int>::empty(), q, e)) by {
                                assert(q.take(1) =~= p0);
                                assert(e.take(0) =~= Seq::<int>::empty());
                            }
                            assert(cut_off(g, est, q, e, 1, bound.val(), None));
                        }
                    }
                    assert forall|t: usize, q: Seq<usize>, e: Seq<int>| #[trigger] is_wpath(g, q, e, start, t) implies !pred(t) by {
                        lemma_simple_path(g, q, e, start, t);
                        let (q2, f2) = choose|q2: Seq<usize>, f2: Seq<int>| #[trigger] simple_wpath(g, q2, f2, start) && q2[q2.len() - 1] == t;
                        assert(!goal_walk(g, q2, f2, start, pred));
                    }
                }
                return None;
            },
            ControlFlow::Continue(Some(m)) => {
                proof {
                    C::lemma_range(m);
                    if admissible(g, est, pred) {
                        assert forall|q: Seq<usize>, e: Seq<int>| #[trigger] goal_walk(g, q, e, start, pred)
                            implies m.val() <= walk_cost(g, q, e) by {
                            assert(extends(p0, Seq::<int>::empty(), q, e)) by {
                                assert(q.take(1) =~= p0);
                                assert(e.take(0) =~= Seq::<int>::empty());
                            }
                            assert(cut_off(g, est, q, e, 1, bound.val(), Some(m)));
                            let k = choose|k: int| 1 <= k <= q.len() && #[trigger] prefix_f(g, est, q, e, k) > bound.val()
                                && is_at_most(Some(m), prefix_f(g, est, q, e, k));
                            assert(goal_walk(g, q, e, q[0], pred));
                            assert(prefix_f(g, est, q, e, k) <= walk_cost(g, q, e));
                        }
                    }
                }
                bound = m;
            },
        }
    }
}

} // verus!
