//! Shortest weighted paths by Dijkstra's algorithm.

use vstd::prelude::*;
use crate::weight::Weight;
use crate::spec::{
    FnGoal, Goal, adj, holds, has_path_cost, is_dist, is_predicate, is_wpath, lemma_walk_prefix,
    lemma_walk_take, lemma_wpath_push, lemma_wpath_prepend, nonneg, paths_cost_at_least, pred_of,
    walk_cost, costs_fit, wf, wstep,
};
use crate::directed::bfs::lemma_seq_distinct_len;

verus! {

/// The search tree that a run of Dijkstra's algorithm leaves: every found node
/// has a cost that some walk from the start achieves, and every found node but
/// the start has a found parent, settled before it, with an edge to it whose
/// weight makes up the difference of their costs.
pub open spec fn tree_ok<C: Weight>(
    g: Seq<Seq<(usize, C)>>,
    start: usize,
    found: Seq<bool>,
    cost: Seq<C>,
    parent: Seq<usize>,
    time: Seq<int>,
    done: Seq<bool>,
) -> bool {
    let n = g.len();
    &&& found.len() == n && cost.len() == n && parent.len() == n && time.len() == n && done.len() == n
    &&& start < n
    &&& found[start as int]
    &&& cost[start as int].val() == 0
    &&& parent[start as int] == usize::MAX
    &&& forall|v: int| 0 <= v < n && #[trigger] found[v] ==> has_path_cost(g, start, v as usize, cost[v].val())
    &&& forall|v: int| 0 <= v < n && #[trigger] done[v] ==> found[v]
    &&& forall|v: int| 0 <= v < n && #[trigger] found[v] && v != start ==> parent_edge(g, found, cost, parent, time, done, v)
}

/// Node `v` hangs from a settled parent along an edge that makes up the
/// difference of their costs; a settled `v` was settled after its parent.
pub open spec fn parent_edge<C: Weight>(
    g: Seq<Seq<(usize, C)>>,
    found: Seq<bool>,
    cost: Seq<C>,
    parent: Seq<usize>,
    time: Seq<int>,
    done: Seq<bool>,
    v: int,
) -> bool {
    let p = parent[v] as int;
    &&& 0 <= p < g.len()
    &&& found[p]
    &&& done[p]
    &&& done[v] ==> time[p] < time[v]
    &&& exists|k: int| 0 <= k < g[p].len() && #[trigger] g[p][k].0 == v && cost[v].val() == cost[p].val() + g[p][k].1.val()
}

/// The state of a run between two steps.
#[verifier::opaque]
spec fn run_ok<C: Weight>(
    g: Seq<Seq<(usize, C)>>,
    start: usize,
    pred: spec_fn(usize) -> bool,
    found: Seq<bool>,
    cost: Seq<C>,
    parent: Seq<usize>,
    time: Seq<int>,
    done: Seq<bool>,
    hops: Seq<int>,
    order: Seq<usize>,
    heap: Seq<(C, usize)>,
    cur: int,
    upto: int,
) -> bool {
    let n = g.len();
    &&& tree_ok(g, start, found, cost, parent, time, done)
    &&& hops.len() == n
    &&& distinct_nodes(order)
    &&& forall|k: int| 0 <= k < order.len() ==> #[trigger] order[k] < n
    &&& forall|v: usize| v < n ==> (#[trigger] done[v as int] <==> order.contains(v))
    &&& forall|v: int| 0 <= v < n && #[trigger] done[v] ==> 0 <= time[v] < order.len()
    &&& hops[start as int] == 0
    &&& forall|v: int| 0 <= v < n && #[trigger] found[v] ==> 0 <= hops[v] <= order.len()
    &&& forall|v: int| 0 <= v < n && #[trigger] found[v] ==> cost[v].val() >= 0
    &&& forall|v: int| 0 <= v < n && #[trigger] found[v] && v != start ==> hops[v] == hops[parent[v] as int] + 1
    &&& forall|v: int| 0 <= v < n && #[trigger] done[v] ==> settled(g, start, pred, found, cost, heap, v, if v == cur { upto } else { g[v].len() as int })
    &&& forall|v: int| 0 <= v < n && #[trigger] found[v] && !done[v] ==> exists|h: int|
        0 <= h < heap.len() && #[trigger] heap[h].1 == v && heap[h].0.val() == cost[v].val()
    &&& forall|h: int| 0 <= h < heap.len() ==> #[trigger] heap[h].1 < n && found[heap[h].1 as int]
        && heap[h].0.val() >= cost[heap[h].1 as int].val()
    &&& forall|h1: int, h2: int| 0 <= h1 < heap.len() && 0 <= h2 < heap.len() && h1 != h2 && #[trigger] heap[h1].1 == #[trigger] heap[h2].1
        ==> heap[h1].0.val() != heap[h2].0.val()
}

/// Node `v` is settled: its cost is its distance from the start, `pred` fails
/// there, every edge out of it is relaxed, and the queue holds no exact entry for it.
spec fn settled<C: Weight>(
    g: Seq<Seq<(usize, C)>>,
    start: usize,
    pred: spec_fn(usize) -> bool,
    found: Seq<bool>,
    cost: Seq<C>,
    heap: Seq<(C, usize)>,
    v: int,
    upto: int,
) -> bool {
    &&& paths_cost_at_least(g, start, v as usize, cost[v].val())
    &&& !pred(v as usize)
    &&& forall|k: int| 0 <= k < upto ==> #[trigger] relaxed(g, found, cost, v, k)
    &&& forall|h: int| 0 <= h < heap.len() && #[trigger] heap[h].1 == v ==> heap[h].0.val() > cost[v].val()
}

/// Edge `k` of `v` leads to a found node whose cost is at most the cost through `v`.
spec fn relaxed<C: Weight>(g: Seq<Seq<(usize, C)>>, found: Seq<bool>, cost: Seq<C>, v: int, k: int) -> bool {
    let t = g[v][k].0 as int;
    found[t] && cost[t].val() <= cost[v].val() + g[v][k].1.val()
}

/// No node occurs twice.
spec fn distinct_nodes(s: Seq<usize>) -> bool {
    forall|a: int, b: int| 0 <= a < b < s.len() ==> s[a] != s[b]
}

/// Along any walk from the start, either every node up to position `k` is
/// settled and the prefix costs at least the cost of its last node, or the
/// prefix already costs at least `c`, the least cost in the queue.
proof fn lemma_cut<C: Weight>(
    g: Seq<Seq<(usize, C)>>,
    start: usize,
    pred: spec_fn(usize) -> bool,
    found: Seq<bool>,
    cost: Seq<C>,
    parent: Seq<usize>,
    time: Seq<int>,
    done: Seq<bool>,
    hops: Seq<int>,
    order: Seq<usize>,
    heap: Seq<(C, usize)>,
    c: int,
    p: Seq<usize>,
    e: Seq<int>,
    t: usize,
    k: int,
)
    requires
        wf(g),
        nonneg(g),
        run_ok(g, start, pred, found, cost, parent, time, done, hops, order, heap, g.len() as int, 0),
        forall|h: int| 0 <= h < heap.len() ==> c <= #[trigger] heap[h].0.val(),
        is_wpath(g, p, e, start, t),
        0 <= k < p.len(),
    ensures
        (forall|i: int| 0 <= i <= k ==> #[trigger] done[p[i] as int]) && walk_cost(g, p, e.take(k)) >= cost[p[k] as int].val()
            || walk_cost(g, p, e.take(k)) >= c,
    decreases k,
{
    reveal(run_ok);
    let n = g.len();
    if k == 0 {
        assert(e.take(0) =~= Seq::<int>::empty());
        if !done[start as int] {
            assert(found[start as int]);
            let h = choose|h: int| 0 <= h < heap.len() && #[trigger] heap[h].1 == start && heap[h].0.val() == cost[start as int].val();
        }
    } else {
        lemma_cut(g, start, pred, found, cost, parent, time, done, hops, order, heap, c, p, e, t, k - 1);
        lemma_walk_take(g, p, e, k - 1);
        assert(wstep(g, p, e, k - 1));
        let u = p[k - 1] as int;
        let w = g[u][e[k - 1]].1.val();
        assert(w >= 0);
        if walk_cost(g, p, e.take(k - 1)) >= c {
        } else {
            assert(done[u]);
            assert(settled(g, start, pred, found, cost, heap, u, g[u].len() as int));
            assert(relaxed(g, found, cost, u, e[k - 1]));
            let v = p[k] as int;
            assert(found[v]);
            if !done[v] {
                let h = choose|h: int| 0 <= h < heap.len() && #[trigger] heap[h].1 == v && heap[h].0.val() == cost[v].val();
            } else {
                assert forall|i: int| 0 <= i <= k implies #[trigger] done[p[i] as int] by {
                    if i < k {
                    }
                }
            }
        }
    }
}

/// Pop an entry of least cost from the queue.
fn pop_min<C: Weight>(heap: &mut Vec<(C, usize)>) -> (r: (C, usize, usize))
    requires
        old(heap).len() > 0,
    ensures
        r.2 < old(heap)@.len(),
        old(heap)@[r.2 as int] == (r.0, r.1),
        final(heap)@ == old(heap)@.update(r.2 as int, old(heap)@.last()).drop_last(),
        forall|i: int| 0 <= i < old(heap)@.len() ==> r.0.val() <= #[trigger] old(heap)@[i].0.val(),
{
    let mut best: usize = 0;
    let mut i: usize = 1;
    while i < heap.len()
        invariant
            heap@ == old(heap)@,
            heap.len() > 0,
            best < heap.len(),
            1 <= i <= heap.len(),
            forall|j: int| 0 <= j < i ==> heap@[best as int].0.val() <= #[trigger] heap@[j].0.val(),
        decreases heap.len() - i,
    {
        if heap[i].0.lt(&heap[best].0) {
            best = i;
        }
        i = i + 1;
    }
    let r = heap.swap_remove(best);
    (r.0, r.1, best)
}

/// After removing position `i` by a swap with the last item, every other item of
/// the old sequence is still there.
proof fn lemma_swap_remove<T>(old: Seq<T>, i: int, j: int) -> (k: int)
    requires
        0 <= i < old.len(),
        0 <= j < old.len(),
        j != i,
    ensures
        0 <= k < old.len() - 1,
        old.update(i, old.last()).drop_last()[k] == old[j],
{
    if j == old.len() - 1 {
        i
    } else {
        j
    }
}

/// A node is found and either settled or waiting in the queue at its cost; under
/// the state's invariant, an entry of least cost that is not stale belongs to an
/// unsettled node whose cost is its distance.
proof fn lemma_exact<C: Weight>(
    g: Seq<Seq<(usize, C)>>,
    start: usize,
    pred: spec_fn(usize) -> bool,
    found: Seq<bool>,
    cost: Seq<C>,
    parent: Seq<usize>,
    time: Seq<int>,
    done: Seq<bool>,
    hops: Seq<int>,
    order: Seq<usize>,
    heap: Seq<(C, usize)>,
    c: int,
    v: usize,
)
    requires
        wf(g),
        nonneg(g),
        run_ok(g, start, pred, found, cost, parent, time, done, hops, order, heap, g.len() as int, 0),
        forall|h: int| 0 <= h < heap.len() ==> c <= #[trigger] heap[h].0.val(),
        v < g.len(),
        !done[v as int],
        cost[v as int].val() == c,
    ensures
        paths_cost_at_least(g, start, v, c),
        forall|w: usize, p: Seq<usize>, e: Seq<int>| #[trigger] is_wpath(g, p, e, start, w) && walk_cost(g, p, e) < c
            ==> done[w as int],
{
    assert forall|p: Seq<usize>, e: Seq<int>| #[trigger] is_wpath(g, p, e, start, v) implies walk_cost(g, p, e) >= c by {
        lemma_cut(g, start, pred, found, cost, parent, time, done, hops, order, heap, c, p, e, v, p.len() - 1);
        assert(e.take(p.len() - 1) =~= e);
    }
    assert forall|w: usize, p: Seq<usize>, e: Seq<int>| #[trigger] is_wpath(g, p, e, start, w) && walk_cost(g, p, e) < c
        implies done[w as int] by {
        lemma_cut(g, start, pred, found, cost, parent, time, done, hops, order, heap, c, p, e, w, p.len() - 1);
        assert(e.take(p.len() - 1) =~= e);
        assert(done[p[p.len() - 1] as int]);
    }
}

/// What a run of Dijkstra's algorithm from `start` gives: the tree of found
/// nodes, and the node where `stop` held, if any.
spec fn run_result<C: Weight>(
    g: Seq<Seq<(usize, C)>>,
    start: usize,
    pred: spec_fn(usize) -> bool,
    found: Seq<bool>,
    cost: Seq<C>,
    parent: Seq<usize>,
    time: Seq<int>,
    done: Seq<bool>,
    reached: Option<usize>,
) -> bool {
    let n = g.len();
    &&& tree_ok(g, start, found, cost, parent, time, done)
    &&& forall|v: int| 0 <= v < n && #[trigger] done[v] ==> is_dist(g, start, v as usize, cost[v].val()) && !pred(v as usize)
    &&& forall|v: int| 0 <= v < n && #[trigger] done[v] ==> time[v] >= 0
    &&& match reached {
        Some(t) => {
            &&& t < n
            &&& found[t as int]
            &&& !done[t as int]
            &&& pred(t)
            &&& is_dist(g, start, t, cost[t as int].val())
            &&& forall|w: usize, p: Seq<usize>, e: Seq<int>| #[trigger] is_wpath(g, p, e, start, w) && walk_cost(g, p, e) < cost[t as int].val()
                ==> done[w as int]
            &&& forall|v: int| 0 <= v < n && #[trigger] done[v] ==> cost[v].val() <= cost[t as int].val()
        },
        None => {
            &&& forall|v: int| 0 <= v < n ==> (#[trigger] found[v] <==> done[v])
            &&& forall|w: usize, p: Seq<usize>, e: Seq<int>| #[trigger] is_wpath(g, p, e, start, w) ==> done[w as int]
        },
    }
}

/// `order` lists the settled nodes in the order in which they were settled:
/// `time` gives each its position, and every node that a walk reaches for less
/// than the distance of a listed node was listed before it.
pub open spec fn settle_order<C: Weight>(g: Seq<Seq<(usize, C)>>, start: usize, time: Seq<int>, done: Seq<bool>, order: Seq<usize>) -> bool {
    let n = g.len();
    &&& order.len() > 0 ==> order[0] == start
    &&& forall|k: int| 0 <= k < order.len() ==> time[(#[trigger] order[k]) as int] == k && done[order[k] as int] && order[k] < n
    &&& forall|v: int| 0 <= v < n && #[trigger] done[v] ==> 0 <= time[v] < order.len() && order.contains(v as usize)
    &&& forall|k: int, c: int, w: usize, p: Seq<usize>, e: Seq<int>|
        0 <= k < order.len() && #[trigger] is_dist(g, start, order[k], c) && #[trigger] is_wpath(g, p, e, start, w) && walk_cost(g, p, e) < c
        ==> done[w as int] && time[w as int] < k
}

/// Run Dijkstra's algorithm from `start` until a node where `stop` holds is taken
/// from the queue, or the queue runs dry.
fn run_dijkstra<C: Weight, G: Goal>(start: usize, successors: &[Vec<(usize, C)>], stop: &G)
    -> (r: (Vec<bool>, Vec<C>, Vec<usize>, Option<usize>, Ghost<Seq<int>>, Ghost<Seq<bool>>, Vec<usize>))
    requires
        wf(adj(successors@)),
        nonneg(adj(successors@)),
        costs_fit(adj(successors@), start),
        start < successors@.len(),
        stop.ready(),
    ensures
        run_result(adj(successors@), start, stop.pred(), r.0@, r.1@, r.2@, r.4@, r.5@, r.3),
        settle_order(adj(successors@), start, r.4@, r.5@, r.6@),
{
    let ghost g = adj(successors@);
    let ghost pred = stop.pred();
    let n = successors.len();
    let mut found: Vec<bool> = Vec::new();
    let mut cost: Vec<C> = Vec::new();
    let mut parent: Vec<usize> = Vec::new();
    let mut i: usize = 0;
    while i < n
        invariant
            i <= n,
            found@.len() == i && cost@.len() == i && parent@.len() == i,
            forall|v: int| 0 <= v < i ==> !(#[trigger] found@[v]),
            forall|v: int| 0 <= v < i ==> #[trigger] cost@[v].val() == 0,
            forall|v: int| 0 <= v < i ==> #[trigger] parent@[v] == usize::MAX,
        decreases n - i,
    {
        found.push(false);
        cost.push(C::zero());
        parent.push(usize::MAX);
        i = i + 1;
    }
    found.set(start, true);
    let mut heap: Vec<(C, usize)> = Vec::new();
    heap.push((C::zero(), start));
    let ghost mut time: Seq<int> = Seq::new(n as nat, |v: int| 0);
    let ghost mut done: Seq<bool> = Seq::new(n as nat, |v: int| false);
    let ghost mut hops: Seq<int> = Seq::new(n as nat, |v: int| 0);
    let ghost mut order: Seq<usize> = Seq::empty();
    let ghost mut lastc: int = 0;
    proof {
        assert(g.len() == n);
        assert forall|v: int| 0 <= v < g.len() implies (#[trigger] found@[v] <==> v == start) by {}
        assert forall|v: int| 0 <= v < g.len() implies #[trigger] cost@[v].val() == 0 by {}
        assert forall|v: int| 0 <= v < g.len() implies #[trigger] parent@[v] == usize::MAX by {}
        lemma_init(g, start, pred, found@, cost@, parent@, time, done, hops, order, heap@);
        lemma_done_dist(g, start, pred, found@, cost@, parent@, time, done, hops, order, heap@);
    }
    let mut reached: Option<usize> = None;
    let mut settled: Vec<usize> = Vec::new();
    while heap.len() > 0
        invariant_except_break
            reached.is_none(),
            order.len() == 0 ==> heap@.len() == 1 && heap@[0].1 == start && heap@[0].0.val() == 0,
            run_ok(g, start, pred, found@, cost@, parent@, time, done, hops, order, heap@, n as int, 0),
            tree_ok(g, start, found@, cost@, parent@, time, done),
            forall|v: int| 0 <= v < n && #[trigger] done[v] ==> is_dist(g, start, v as usize, cost@[v].val()) && !pred(v as usize),
            forall|v: int| 0 <= v < n && #[trigger] done[v] ==> time[v] >= 0,
        invariant
            found@.len() == n && cost@.len() == n && parent@.len() == n,
            done.len() == n && hops.len() == n && time.len() == n,
            g == adj(successors@),
            wf(g),
            nonneg(g),
            costs_fit(g, start),
            n == g.len(),
            stop.ready(),
            pred == stop.pred(),
            order.len() > 0 ==> order[0] == start,
            settled@ == order,
            forall|k: int| 0 <= k < order.len() ==> time[(#[trigger] order[k]) as int] == k && done[order[k] as int] && order[k] < n,
            forall|v: int| 0 <= v < n && #[trigger] done[v] ==> 0 <= time[v] < order.len() && order.contains(v as usize),
            forall|k: int, c: int, w: usize, p: Seq<usize>, e: Seq<int>|
                0 <= k < order.len() && #[trigger] is_dist(g, start, order[k], c) && #[trigger] is_wpath(g, p, e, start, w) && walk_cost(g, p, e) < c
                ==> done[w as int] && time[w as int] < k,
            forall|v: int| 0 <= v < n && #[trigger] done[v] ==> cost@[v].val() <= lastc,
            forall|h: int| 0 <= h < heap@.len() ==> lastc <= #[trigger] heap@[h].0.val(),
        ensures
            reached matches Some(t) ==> forall|v: int| 0 <= v < n && #[trigger] done[v] ==> cost@[v].val() <= cost@[t as int].val(),
            order.len() > 0 ==> order[0] == start,
            settled@ == order,
            forall|k: int| 0 <= k < order.len() ==> time[(#[trigger] order[k]) as int] == k && done[order[k] as int] && order[k] < n,
            forall|v: int| 0 <= v < n && #[trigger] done[v] ==> 0 <= time[v] < order.len() && order.contains(v as usize),
            forall|k: int, c: int, w: usize, p: Seq<usize>, e: Seq<int>|
                0 <= k < order.len() && #[trigger] is_dist(g, start, order[k], c) && #[trigger] is_wpath(g, p, e, start, w) && walk_cost(g, p, e) < c
                ==> done[w as int] && time[w as int] < k,
            tree_ok(g, start, found@, cost@, parent@, time, done),
            forall|v: int| 0 <= v < n && #[trigger] done[v] ==> is_dist(g, start, v as usize, cost@[v].val()) && !pred(v as usize),
            forall|v: int| 0 <= v < n && #[trigger] done[v] ==> time[v] >= 0,
            reached.is_none() ==> heap@.len() == 0 && run_ok(g, start, pred, found@, cost@, parent@, time, done, hops, order, heap@, n as int, 0),
            reached matches Some(t) ==> t < n && found@[t as int] && !done[t as int] && pred(t)
                && is_dist(g, start, t, cost@[t as int].val())
                && (forall|w: usize, p: Seq<usize>, e: Seq<int>| #[trigger] is_wpath(g, p, e, start, w) && walk_cost(g, p, e) < cost@[t as int].val()
                    ==> done[w as int]),
        decreases n - order.len(), heap@.len(),
    {
        let ghost heap0 = heap@;
        let (c, node, at) = pop_min(&mut heap);
        proof {
            assert(lastc <= heap0[at as int].0.val());
            assert forall|h: int| 0 <= h < heap@.len() implies lastc <= #[trigger] heap@[h].0.val() by {
                if h == at {
                    assert(heap@[h] == heap0[heap0.len() - 1]);
                } else {
                    assert(heap@[h] == heap0[h]);
                }
            }
            lemma_pop_facts(g, start, pred, found@, cost@, parent@, time, done, hops, order, heap0, at as int);
            lemma_done_dist(g, start, pred, found@, cost@, parent@, time, done, hops, order, heap0);
        }
        if stop.test(node) {
            proof {
                lemma_exact(g, start, pred, found@, cost@, parent@, time, done, hops, order, heap0, c.val(), node);
            }
            reached = Some(node);
            break;
        }
        if cost[node].lt(&c) {
            proof {
                lemma_pop_stale(g, start, pred, found@, cost@, parent@, time, done, hops, order, heap0, at as int);
                lemma_done_dist(g, start, pred, found@, cost@, parent@, time, done, hops, order, heap@);
            }
            continue;
        }
        let ghost order0 = order;
        let ghost time0 = time;
        let ghost done0 = done;
        proof {
            lemma_exact(g, start, pred, found@, cost@, parent@, time, done, hops, order, heap0, c.val(), node);
            lemma_settle(g, start, pred, found@, cost@, parent@, time, done, hops, order, heap0, at as int);
            time = time.update(node as int, order.len() as int);
            done = done.update(node as int, true);
            order = order.push(node);
            lastc = c.val();
            assert forall|h: int| 0 <= h < heap@.len() implies lastc <= #[trigger] heap@[h].0.val() by {
                if h == at {
                    assert(heap@[h] == heap0[heap0.len() - 1]);
                } else {
                    assert(heap@[h] == heap0[h]);
                }
            }
        }
        settled.push(node);
        proof {
            assert(!done0[node as int]);
            if order0.len() == 0 {
                assert(heap0[at as int].1 == start);
            }
            assert forall|k: int| 0 <= k < order.len() implies time[(#[trigger] order[k]) as int] == k && done[order[k] as int] && order[k] < n by {
                if k < order0.len() {
                    assert(order[k] == order0[k]);
                    assert(done0[order0[k] as int]);
                }
            }
            assert forall|v: int| 0 <= v < n && #[trigger] done[v] implies 0 <= time[v] < order.len() && order.contains(v as usize) by {
                if v == node {
                    assert(order[order0.len() as int] == node);
                } else {
                    assert(done0[v]);
                    let k = choose|k: int| 0 <= k < order0.len() && order0[k] == v as usize;
                    assert(order[k] == v as usize);
                }
            }
            assert forall|k: int, c2: int, w: usize, p: Seq<usize>, e: Seq<int>|
                0 <= k < order.len() && #[trigger] is_dist(g, start, order[k], c2) && #[trigger] is_wpath(g, p, e, start, w) && walk_cost(g, p, e) < c2
                implies done[w as int] && time[w as int] < k by {
                if k < order0.len() {
                    assert(order[k] == order0[k]);
                    assert(done0[w as int] && time0[w as int] < k);
                    assert(w != node);
                } else {
                    lemma_dist_unique(g, start, node, c2, c.val());
                    assert(done0[w as int]);
                    assert(w != node);
                }
            }
        }
        let edges = &successors[node];
        proof { assert(edges@ == g[node as int]); }
        let mut t: usize = 0;
        while t < edges.len()
            invariant
                found@.len() == n && cost@.len() == n && parent@.len() == n,
                done.len() == n && hops.len() == n,
                g == adj(successors@),
                wf(g),
                nonneg(g),
                costs_fit(g, start),
                n == g.len(),
                stop.ready(),
                pred == stop.pred(),
                node < n,
                edges@ == g[node as int],
                t <= edges.len(),
                done[node as int],
                is_dist(g, start, node, cost@[node as int].val()),
                order.len() <= n,
                hops[node as int] + 1 <= order.len(),
                run_ok(g, start, pred, found@, cost@, parent@, time, done, hops, order, heap@, node as int, t as int),
                order.len() > 0 && order[0] == start,
                settled@ == order,
                time.len() == n,
                forall|k: int| 0 <= k < order.len() ==> time[(#[trigger] order[k]) as int] == k && done[order[k] as int] && order[k] < n,
                forall|v: int| 0 <= v < n && #[trigger] done[v] ==> 0 <= time[v] < order.len() && order.contains(v as usize),
                forall|k: int, c: int, w: usize, p: Seq<usize>, e: Seq<int>|
                    0 <= k < order.len() && #[trigger] is_dist(g, start, order[k], c) && #[trigger] is_wpath(g, p, e, start, w) && walk_cost(g, p, e) < c
                    ==> done[w as int] && time[w as int] < k,
                lastc == cost@[node as int].val(),
                forall|v: int| 0 <= v < n && #[trigger] done[v] ==> cost@[v].val() <= lastc,
                forall|h: int| 0 <= h < heap@.len() ==> lastc <= #[trigger] heap@[h].0.val(),
            decreases edges.len() - t,
        {
            let (v, w) = edges[t];
            proof {
                assert(g[node as int][t as int] == (v, w));
                lemma_node_facts(g, start, pred, found@, cost@, parent@, time, done, hops, order, heap@, node, t as int);
                let cn = cost@[node as int].val();
                C::lemma_range(w);
                assert(is_dist(g, start, node, cn));
                assert(g[node as int][t as int].1.val() == w.val());
                assert(cn + w.val() <= C::hi());
            }
            let new_cost = cost[node].plus(w);
            if !found[v] || new_cost.lt(&cost[v]) {
                proof {
                    assert(relax_pre(g, start, pred, found@, cost@, parent@, time, done, hops, order, heap@, node, t as int, new_cost));
                    lemma_relax_target(g, start, pred, found@, cost@, parent@, time, done, hops, order, heap@, node, t as int, new_cost);
                    lemma_relax(g, start, pred, found@, cost@, parent@, time, done, hops, order, heap@, node, t as int, new_cost);
                }
                let ghost f0 = found@;
                let ghost c0 = cost@;
                let ghost p0 = parent@;
                let ghost h0 = heap@;
                found.set(v, true);
                cost.set(v, new_cost);
                parent.set(v, node);
                heap.push((new_cost, v));
                proof {
                    assert(v != node);
                    hops = hops.update(v as int, hops[node as int] + 1);
                    assert(found@ == f0.update(v as int, true));
                    assert(cost@ == c0.update(v as int, new_cost));
                    assert(parent@ == p0.update(v as int, node));
                    assert(heap@ == h0.push((new_cost, v)));
                    assert(new_cost.val() >= lastc);
                    assert forall|h: int| 0 <= h < heap@.len() implies lastc <= #[trigger] heap@[h].0.val() by {
                        if h < h0.len() {
                            assert(heap@[h] == h0[h]);
                        }
                    }
                    assert forall|x: int| 0 <= x < n && #[trigger] done[x] implies cost@[x].val() <= lastc by {
                        assert(x != v);
                        assert(cost@[x] == c0[x]);
                    }
                }
            } else {
                proof {
                    lemma_advance(g, start, pred, found@, cost@, parent@, time, done, hops, order, heap@, node, t as int);
                }
            }
            t = t + 1;
        }
        proof {
            lemma_finish(g, start, pred, found@, cost@, parent@, time, done, hops, order, heap@, node);
            lemma_done_dist(g, start, pred, found@, cost@, parent@, time, done, hops, order, heap@);
        }
    }
    proof {
        if reached.is_none() {
            lemma_empty(g, start, pred, found@, cost@, parent@, time, done, hops, order, heap@);
        }
    }
    (found, cost, parent, reached, Ghost(time), Ghost(done), settled)
}

/// A node has one distance.
proof fn lemma_dist_unique<C: Weight>(g: Seq<Seq<(usize, C)>>, start: usize, v: usize, c1: int, c2: int)
    requires
        is_dist(g, start, v, c1),
        is_dist(g, start, v, c2),
    ensures
        c1 == c2,
{
    let (p1, e1) = choose|p: Seq<usize>, e: Seq<int>| #[trigger] is_wpath(g, p, e, start, v) && walk_cost(g, p, e) == c1;
    let (p2, e2) = choose|p: Seq<usize>, e: Seq<int>| #[trigger] is_wpath(g, p, e, start, v) && walk_cost(g, p, e) == c2;
}

/// The state at the start of a run.
proof fn lemma_init<C: Weight>(
    g: Seq<Seq<(usize, C)>>,
    start: usize,
    pred: spec_fn(usize) -> bool,
    found: Seq<bool>,
    cost: Seq<C>,
    parent: Seq<usize>,
    time: Seq<int>,
    done: Seq<bool>,
    hops: Seq<int>,
    order: Seq<usize>,
    heap: Seq<(C, usize)>,
)
    requires
        start < g.len(),
        found.len() == g.len() && cost.len() == g.len() && parent.len() == g.len(),
        time.len() == g.len() && done.len() == g.len() && hops.len() == g.len(),
        forall|v: int| 0 <= v < g.len() ==> (#[trigger] found[v] <==> v == start),
        forall|v: int| 0 <= v < g.len() ==> #[trigger] cost[v].val() == 0,
        forall|v: int| 0 <= v < g.len() ==> #[trigger] parent[v] == usize::MAX,
        forall|v: int| 0 <= v < g.len() ==> !#[trigger] done[v],
        forall|v: int| 0 <= v < g.len() ==> #[trigger] hops[v] == 0,
        order.len() == 0,
        heap.len() == 1,
        heap[0].1 == start,
        heap[0].0.val() == 0,
    ensures
        run_ok(g, start, pred, found, cost, parent, time, done, hops, order, heap, g.len() as int, 0),
{
    reveal(run_ok);
    let n = g.len();
    assert forall|v: int| 0 <= v < n && #[trigger] found[v] implies has_path_cost(g, start, v as usize, cost[v].val()) by {
        let p = seq![start];
        let e = Seq::<int>::empty();
        assert(is_wpath(g, p, e, start, start));
        assert(walk_cost(g, p, e) == 0);
    }
    assert forall|v: int| 0 <= v < n && #[trigger] found[v] && !done[v] implies exists|h: int|
        0 <= h < heap.len() && #[trigger] heap[h].1 == v && heap[h].0.val() == cost[v].val() by {
        assert(heap[0].1 == v);
    }
    assert forall|v: usize| v < n implies (#[trigger] done[v as int] <==> order.contains(v)) by {}
}

/// What the entry taken from the queue tells.
proof fn lemma_pop_facts<C: Weight>(
    g: Seq<Seq<(usize, C)>>,
    start: usize,
    pred: spec_fn(usize) -> bool,
    found: Seq<bool>,
    cost: Seq<C>,
    parent: Seq<usize>,
    time: Seq<int>,
    done: Seq<bool>,
    hops: Seq<int>,
    order: Seq<usize>,
    heap: Seq<(C, usize)>,
    at: int,
)
    requires
        run_ok(g, start, pred, found, cost, parent, time, done, hops, order, heap, g.len() as int, 0),
        0 <= at < heap.len(),
        forall|h: int| 0 <= h < heap.len() ==> heap[at].0.val() <= #[trigger] heap[h].0.val(),
    ensures
        heap[at].1 < g.len(),
        found[heap[at].1 as int],
        order.len() <= g.len(),
        done[heap[at].1 as int] ==> heap[at].0.val() > cost[heap[at].1 as int].val() && !pred(heap[at].1),
        !done[heap[at].1 as int] ==> heap[at].0.val() == cost[heap[at].1 as int].val() && !order.contains(heap[at].1)
            && order.len() + 1 <= g.len(),
{
    reveal(run_ok);
    let node = heap[at].1;
    let n = g.len();
    lemma_seq_distinct_len(order, n);
    if done[node as int] {
        assert(settled(g, start, pred, found, cost, heap, node as int, g[node as int].len() as int));
    } else {
        let h = choose|h: int| 0 <= h < heap.len() && #[trigger] heap[h].1 == node && heap[h].0.val() == cost[node as int].val();
        assert(!order.contains(node));
        let o2 = order.push(node);
        assert forall|a: int, b: int| 0 <= a < b < o2.len() implies o2[a] != o2[b] by {
            if b == order.len() {
                assert(order.contains(order[a]));
            }
        }
        assert forall|k: int| 0 <= k < o2.len() implies #[trigger] o2[k] < n by {
            if k < order.len() {
                assert(o2[k] == order[k]);
            }
        }
        lemma_seq_distinct_len(o2, n);
    }
}

/// Facts about the node being expanded.
proof fn lemma_node_facts<C: Weight>(
    g: Seq<Seq<(usize, C)>>,
    start: usize,
    pred: spec_fn(usize) -> bool,
    found: Seq<bool>,
    cost: Seq<C>,
    parent: Seq<usize>,
    time: Seq<int>,
    done: Seq<bool>,
    hops: Seq<int>,
    order: Seq<usize>,
    heap: Seq<(C, usize)>,
    node: usize,
    k: int,
)
    requires
        run_ok(g, start, pred, found, cost, parent, time, done, hops, order, heap, node as int, k),
        node < g.len(),
        done[node as int],
    ensures
        found[node as int],
        cost[node as int].val() >= 0,
{
    reveal(run_ok);
}

/// An edge already relaxed needs no change.
proof fn lemma_advance<C: Weight>(
    g: Seq<Seq<(usize, C)>>,
    start: usize,
    pred: spec_fn(usize) -> bool,
    found: Seq<bool>,
    cost: Seq<C>,
    parent: Seq<usize>,
    time: Seq<int>,
    done: Seq<bool>,
    hops: Seq<int>,
    order: Seq<usize>,
    heap: Seq<(C, usize)>,
    node: usize,
    k: int,
)
    requires
        run_ok(g, start, pred, found, cost, parent, time, done, hops, order, heap, node as int, k),
        node < g.len(),
        0 <= k < g[node as int].len(),
        relaxed(g, found, cost, node as int, k),
    ensures
        run_ok(g, start, pred, found, cost, parent, time, done, hops, order, heap, node as int, k + 1),
{
    reveal(run_ok);
    assert forall|u: int| 0 <= u < g.len() && #[trigger] done[u] implies settled(g, start, pred, found, cost, heap, u,
        if u == node { k + 1 } else { g[u].len() as int }) by {
        assert(settled(g, start, pred, found, cost, heap, u, if u == node { k } else { g[u].len() as int }));
    }
}

/// Once every edge of the node being expanded is relaxed, the node is settled.
proof fn lemma_finish<C: Weight>(
    g: Seq<Seq<(usize, C)>>,
    start: usize,
    pred: spec_fn(usize) -> bool,
    found: Seq<bool>,
    cost: Seq<C>,
    parent: Seq<usize>,
    time: Seq<int>,
    done: Seq<bool>,
    hops: Seq<int>,
    order: Seq<usize>,
    heap: Seq<(C, usize)>,
    node: usize,
)
    requires
        run_ok(g, start, pred, found, cost, parent, time, done, hops, order, heap, node as int, g[node as int].len() as int),
        node < g.len(),
    ensures
        run_ok(g, start, pred, found, cost, parent, time, done, hops, order, heap, g.len() as int, 0),
{
    reveal(run_ok);
    assert forall|u: int| 0 <= u < g.len() && #[trigger] done[u] implies settled(g, start, pred, found, cost, heap, u, g[u].len() as int) by {
        assert(settled(g, start, pred, found, cost, heap, u, if u == node { g[node as int].len() as int } else { g[u].len() as int }));
    }
}

/// With the queue empty, every found node is settled, and so is every node on a
/// walk from the start.
proof fn lemma_empty<C: Weight>(
    g: Seq<Seq<(usize, C)>>,
    start: usize,
    pred: spec_fn(usize) -> bool,
    found: Seq<bool>,
    cost: Seq<C>,
    parent: Seq<usize>,
    time: Seq<int>,
    done: Seq<bool>,
    hops: Seq<int>,
    order: Seq<usize>,
    heap: Seq<(C, usize)>,
)
    requires
        run_ok(g, start, pred, found, cost, parent, time, done, hops, order, heap, g.len() as int, 0),
        heap.len() == 0,
    ensures
        forall|v: int| 0 <= v < g.len() ==> (#[trigger] found[v] <==> done[v]),
        forall|w: usize, p: Seq<usize>, e: Seq<int>| #[trigger] is_wpath(g, p, e, start, w) ==> done[w as int],
{
    reveal(run_ok);
    assert forall|v: int| 0 <= v < g.len() implies (#[trigger] found[v] <==> done[v]) by {
        if found[v] && !done[v] {
            let h = choose|h: int| 0 <= h < heap.len() && #[trigger] heap[h].1 == v && heap[h].0.val() == cost[v].val();
        }
    }
    assert forall|w: usize, p: Seq<usize>, e: Seq<int>| #[trigger] is_wpath(g, p, e, start, w) implies done[w as int] by {
        lemma_all_done(g, start, pred, found, cost, parent, time, done, hops, order, heap, p, e, w, p.len() - 1);
    }
}

/// A settled node's cost is its distance.
proof fn lemma_done_dist<C: Weight>(
    g: Seq<Seq<(usize, C)>>,
    start: usize,
    pred: spec_fn(usize) -> bool,
    found: Seq<bool>,
    cost: Seq<C>,
    parent: Seq<usize>,
    time: Seq<int>,
    done: Seq<bool>,
    hops: Seq<int>,
    order: Seq<usize>,
    heap: Seq<(C, usize)>,
)
    requires
        run_ok(g, start, pred, found, cost, parent, time, done, hops, order, heap, g.len() as int, 0),
    ensures
        tree_ok(g, start, found, cost, parent, time, done),
        forall|v: int| 0 <= v < g.len() && #[trigger] done[v] ==> is_dist(g, start, v as usize, cost[v].val()) && !pred(v as usize),
        forall|v: int| 0 <= v < g.len() && #[trigger] done[v] ==> time[v] >= 0,
{
    reveal(run_ok);
    assert forall|v: int| 0 <= v < g.len() && #[trigger] done[v] implies is_dist(g, start, v as usize, cost[v].val()) && !pred(v as usize) by {
        assert(settled(g, start, pred, found, cost, heap, v, g[v].len() as int));
        assert(found[v]);
    }
}

/// Dropping a stale entry from the queue keeps the state's invariant.
proof fn lemma_pop_stale<C: Weight>(
    g: Seq<Seq<(usize, C)>>,
    start: usize,
    pred: spec_fn(usize) -> bool,
    found: Seq<bool>,
    cost: Seq<C>,
    parent: Seq<usize>,
    time: Seq<int>,
    done: Seq<bool>,
    hops: Seq<int>,
    order: Seq<usize>,
    heap: Seq<(C, usize)>,
    at: int,
)
    requires
        run_ok(g, start, pred, found, cost, parent, time, done, hops, order, heap, g.len() as int, 0),
        0 <= at < heap.len(),
        heap[at].0.val() > cost[heap[at].1 as int].val(),
    ensures
        run_ok(g, start, pred, found, cost, parent, time, done, hops, order, heap.update(at, heap.last()).drop_last(), g.len() as int, 0),
{
    reveal(run_ok);
    let n = g.len();
    let h2 = heap.update(at, heap.last()).drop_last();
    assert forall|h: int| 0 <= h < h2.len() implies heap.contains(#[trigger] h2[h]) && (h2[h] == heap[if h == at { heap.len() - 1 } else { h }]) by {
        if h == at {
            assert(h2[h] == heap[heap.len() - 1]);
        } else {
            assert(h2[h] == heap[h]);
        }
    }
    assert forall|v: int| 0 <= v < n && #[trigger] found[v] && !done[v] implies exists|h: int|
        0 <= h < h2.len() && #[trigger] h2[h].1 == v && h2[h].0.val() == cost[v].val() by {
        let h = choose|h: int| 0 <= h < heap.len() && #[trigger] heap[h].1 == v && heap[h].0.val() == cost[v].val();
        let k = lemma_swap_remove(heap, at, h);
        assert(h2[k] == heap[h]);
    }
    assert forall|v: int| 0 <= v < n && #[trigger] done[v] implies settled(g, start, pred, found, cost, h2, v, g[v].len() as int) by {
        assert(settled(g, start, pred, found, cost, heap, v, g[v].len() as int));
        assert forall|h: int| 0 <= h < h2.len() && #[trigger] h2[h].1 == v implies h2[h].0.val() > cost[v].val() by {
            let j = if h == at { heap.len() - 1 } else { h };
            assert(heap[j].1 == v);
        }
    }
    assert forall|h: int| 0 <= h < h2.len() implies #[trigger] h2[h].1 < n && found[h2[h].1 as int]
        && h2[h].0.val() >= cost[h2[h].1 as int].val() by {
        let j = if h == at { heap.len() - 1 } else { h };
        assert(h2[h] == heap[j]);
    }
    assert forall|a: int, b: int| 0 <= a < h2.len() && 0 <= b < h2.len() && a != b && #[trigger] h2[a].1 == #[trigger] h2[b].1
        implies h2[a].0.val() != h2[b].0.val() by {
        let ja = if a == at { heap.len() - 1 } else { a };
        let jb = if b == at { heap.len() - 1 } else { b };
        assert(h2[a] == heap[ja] && h2[b] == heap[jb]);
    }
}

/// Taking the exact entry of `heap[at].1` from the queue and settling the node.
proof fn lemma_settle<C: Weight>(
    g: Seq<Seq<(usize, C)>>,
    start: usize,
    pred: spec_fn(usize) -> bool,
    found: Seq<bool>,
    cost: Seq<C>,
    parent: Seq<usize>,
    time: Seq<int>,
    done: Seq<bool>,
    hops: Seq<int>,
    order: Seq<usize>,
    heap: Seq<(C, usize)>,
    at: int,
)
    requires
        run_ok(g, start, pred, found, cost, parent, time, done, hops, order, heap, g.len() as int, 0),
        0 <= at < heap.len(),
        heap[at].0.val() == cost[heap[at].1 as int].val(),
        !done[heap[at].1 as int],
        !pred(heap[at].1),
        paths_cost_at_least(g, start, heap[at].1, cost[heap[at].1 as int].val()),
        !order.contains(heap[at].1),
        order.len() + 1 <= g.len(),
    ensures
        ({
            let node = heap[at].1;
            run_ok(g, start, pred, found, cost, parent, time.update(node as int, order.len() as int), done.update(node as int, true),
                hops, order.push(node), heap.update(at, heap.last()).drop_last(), node as int, 0)
        }),
        hops[heap[at].1 as int] + 1 <= order.len() + 1,
{
    reveal(run_ok);
    let n = g.len();
    let node = heap[at].1;
    let h2 = heap.update(at, heap.last()).drop_last();
    let time2 = time.update(node as int, order.len() as int);
    let done2 = done.update(node as int, true);
    let order2 = order.push(node);
    assert(found[node as int]);
    assert forall|h: int| 0 <= h < h2.len() implies (h2[h] == heap[if h == at { heap.len() - 1 } else { h }]) by {}
    assert(tree_ok(g, start, found, cost, parent, time2, done2)) by {
        assert forall|v: int| 0 <= v < n && #[trigger] found[v] && v != start implies parent_edge(g, found, cost, parent, time2, done2, v) by {
            assert(parent_edge(g, found, cost, parent, time, done, v));
            let p = parent[v] as int;
            assert(done[p]);
            assert(p != node);
            if v == node {
                assert(time[p] < order.len());
            }
        }
        assert forall|v: int| 0 <= v < n && #[trigger] done2[v] implies found[v] by {}
    }
    assert forall|vu: usize| vu < n implies (#[trigger] done2[vu as int] <==> order2.contains(vu)) by {
        assert(order2[order.len() as int] == node);
        if vu == node {
        } else if order2.contains(vu) {
            let k = choose|k: int| 0 <= k < order2.len() && order2[k] == vu;
            if k == order.len() {
                assert(order2[k] == node);
                assert(false);
            }
            assert(order[k] == vu);
            assert(order.contains(vu));
        } else if done[vu as int] {
            assert(order.contains(vu));
            let k = choose|k: int| 0 <= k < order.len() && order[k] == vu;
            assert(order2[k] == vu);
        }
    }
    assert forall|a: int, b: int| 0 <= a < b < order2.len() implies order2[a] != order2[b] by {
        if b == order.len() {
            assert(order.contains(order[a]));
        }
    }
    assert forall|k: int| 0 <= k < order2.len() implies #[trigger] order2[k] < n by {
        if k < order.len() {
            assert(order2[k] == order[k]);
        }
    }
    assert forall|v: int| 0 <= v < n && #[trigger] done2[v] implies 0 <= time2[v] < order2.len() by {}
    assert forall|v: int| 0 <= v < n && #[trigger] found[v] implies 0 <= hops[v] <= order2.len() by {}
    assert forall|v: int| 0 <= v < n && #[trigger] done2[v] implies settled(g, start, pred, found, cost, h2, v,
        if v == node { 0int } else { g[v].len() as int }) by {
        if v != node {
            assert(settled(g, start, pred, found, cost, heap, v, g[v].len() as int));
        }
        assert forall|h: int| 0 <= h < h2.len() && #[trigger] h2[h].1 == v implies h2[h].0.val() > cost[v].val() by {
            let j = if h == at { heap.len() - 1 } else { h };
            assert(h2[h] == heap[j]);
            assert(heap[j].1 == v);
            if v == node {
                assert(j != at);
                assert(heap[j].0.val() != heap[at].0.val());
            }
        }
    }
    assert forall|v: int| 0 <= v < n && #[trigger] found[v] && !done2[v] implies exists|h: int|
        0 <= h < h2.len() && #[trigger] h2[h].1 == v && h2[h].0.val() == cost[v].val() by {
        let h = choose|h: int| 0 <= h < heap.len() && #[trigger] heap[h].1 == v && heap[h].0.val() == cost[v].val();
        let k = lemma_swap_remove(heap, at, h);
        assert(h2[k] == heap[h]);
    }
    assert forall|h: int| 0 <= h < h2.len() implies #[trigger] h2[h].1 < n && found[h2[h].1 as int]
        && h2[h].0.val() >= cost[h2[h].1 as int].val() by {
        let j = if h == at { heap.len() - 1 } else { h };
        assert(h2[h] == heap[j]);
    }
    assert forall|a: int, b: int| 0 <= a < h2.len() && 0 <= b < h2.len() && a != b && #[trigger] h2[a].1 == #[trigger] h2[b].1
        implies h2[a].0.val() != h2[b].0.val() by {
        let ja = if a == at { heap.len() - 1 } else { a };
        let jb = if b == at { heap.len() - 1 } else { b };
        assert(h2[a] == heap[ja] && h2[b] == heap[jb]);
    }
}

/// The conditions under which the target of edge `k` of the node being
/// expanded gets a lower cost.
spec fn relax_pre<C: Weight>(
    g: Seq<Seq<(usize, C)>>,
    start: usize,
    pred: spec_fn(usize) -> bool,
    found: Seq<bool>,
    cost: Seq<C>,
    parent: Seq<usize>,
    time: Seq<int>,
    done: Seq<bool>,
    hops: Seq<int>,
    order: Seq<usize>,
    heap: Seq<(C, usize)>,
    node: usize,
    k: int,
    new_cost: C,
) -> bool {
    &&& wf(g)
    &&& nonneg(g)
    &&& run_ok(g, start, pred, found, cost, parent, time, done, hops, order, heap, node as int, k)
    &&& node < g.len()
    &&& done[node as int]
    &&& hops[node as int] + 1 <= order.len()
    &&& 0 <= k < g[node as int].len()
    &&& new_cost.val() == cost[node as int].val() + g[node as int][k].1.val()
    &&& {
        let v = g[node as int][k].0 as int;
        !found[v] || new_cost.val() < cost[v].val()
    }
}

/// The lowered cost is that of a walk, and the target is not settled.
proof fn lemma_relax_target<C: Weight>(
    g: Seq<Seq<(usize, C)>>,
    start: usize,
    pred: spec_fn(usize) -> bool,
    found: Seq<bool>,
    cost: Seq<C>,
    parent: Seq<usize>,
    time: Seq<int>,
    done: Seq<bool>,
    hops: Seq<int>,
    order: Seq<usize>,
    heap: Seq<(C, usize)>,
    node: usize,
    k: int,
    new_cost: C,
)
    requires
        relax_pre(g, start, pred, found, cost, parent, time, done, hops, order, heap, node, k, new_cost),
    ensures
        g[node as int][k].0 < g.len(),
        has_path_cost(g, start, g[node as int][k].0, new_cost.val()),
        !done[g[node as int][k].0 as int],
        g[node as int][k].0 != node,
        new_cost.val() >= 0,
{
    reveal(run_ok);
    let v = g[node as int][k].0;
    let vi = v as int;
    assert(found[node as int]);
    let (p, e) = choose|p: Seq<usize>, e: Seq<int>| #[trigger] is_wpath(g, p, e, start, node) && walk_cost(g, p, e) == cost[node as int].val();
    lemma_wpath_push(g, p, e, start, node, k);
    assert(is_wpath(g, p.push(v), e.push(k), start, v));
    assert(has_path_cost(g, start, v, new_cost.val()));
    if done[vi] {
        assert(settled(g, start, pred, found, cost, heap, vi, if vi == node { k } else { g[vi].len() as int }));
        assert(walk_cost(g, p.push(v), e.push(k)) >= cost[vi].val());
    }
}

/// Lowering the cost of the target of edge `k` of the node being expanded keeps
/// the tree.
proof fn lemma_relax_tree<C: Weight>(
    g: Seq<Seq<(usize, C)>>,
    start: usize,
    pred: spec_fn(usize) -> bool,
    found: Seq<bool>,
    cost: Seq<C>,
    parent: Seq<usize>,
    time: Seq<int>,
    done: Seq<bool>,
    hops: Seq<int>,
    order: Seq<usize>,
    heap: Seq<(C, usize)>,
    node: usize,
    k: int,
    new_cost: C,
)
    requires
        relax_pre(g, start, pred, found, cost, parent, time, done, hops, order, heap, node, k, new_cost),
    ensures
        ({
            let v = g[node as int][k].0 as int;
            tree_ok(g, start, found.update(v, true), cost.update(v, new_cost), parent.update(v, node), time, done)
        }),
{
    reveal(run_ok);
    lemma_relax_target(g, start, pred, found, cost, parent, time, done, hops, order, heap, node, k, new_cost);
    let n = g.len();
    let vi = g[node as int][k].0 as int;
    let found2 = found.update(vi, true);
    let cost2 = cost.update(vi, new_cost);
    let parent2 = parent.update(vi, node);
    assert forall|u: int| 0 <= u < n && #[trigger] found2[u] implies has_path_cost(g, start, u as usize, cost2[u].val()) by {}
    assert forall|u: int| 0 <= u < n && #[trigger] found2[u] && u != start implies parent_edge(g, found2, cost2, parent2, time, done, u) by {
        if u == vi {
            assert(g[node as int][k].0 == u);
            assert(found[node as int]);
            assert(node as int != vi);
            assert(parent2[u] == node);
            assert(found2[node as int] && done[node as int] && !done[u]);
            assert(cost2[u].val() == cost2[node as int].val() + g[node as int][k].1.val());
            assert(0 <= k < g[node as int].len() && g[node as int][k].0 == u);
        } else {
            assert(parent_edge(g, found, cost, parent, time, done, u));
            let pu = parent[u] as int;
            assert(done[pu]);
            assert(pu != vi);
            let kk = choose|kk: int| 0 <= kk < g[pu].len() && #[trigger] g[pu][kk].0 == u && cost[u].val() == cost[pu].val() + g[pu][kk].1.val();
            assert(g[pu][kk].0 == u && cost2[u].val() == cost2[pu].val() + g[pu][kk].1.val());
        }
    }
    assert forall|u: int| 0 <= u < n && #[trigger] done[u] implies found2[u] by {}
    if vi == start {
        assert(found[start as int]);
        assert(cost[start as int].val() == 0);
    }
}

/// Lowering the cost keeps the bounds on costs and hop counts.
proof fn lemma_relax_bounds<C: Weight>(
    g: Seq<Seq<(usize, C)>>,
    start: usize,
    pred: spec_fn(usize) -> bool,
    found: Seq<bool>,
    cost: Seq<C>,
    parent: Seq<usize>,
    time: Seq<int>,
    done: Seq<bool>,
    hops: Seq<int>,
    order: Seq<usize>,
    heap: Seq<(C, usize)>,
    node: usize,
    k: int,
    new_cost: C,
)
    requires
        relax_pre(g, start, pred, found, cost, parent, time, done, hops, order, heap, node, k, new_cost),
    ensures
        ({
            let v = g[node as int][k].0 as int;
            let found2 = found.update(v, true);
            let cost2 = cost.update(v, new_cost);
            let parent2 = parent.update(v, node);
            let hops2 = hops.update(v, hops[node as int] + 1);
            let n = g.len();
            &&& forall|u: int| 0 <= u < n && #[trigger] found2[u] ==> 0 <= hops2[u] <= order.len()
            &&& forall|u: int| 0 <= u < n && #[trigger] found2[u] ==> cost2[u].val() >= 0
            &&& forall|u: int| 0 <= u < n && #[trigger] found2[u] && u != start ==> hops2[u] == hops2[parent2[u] as int] + 1
        }),
{
    reveal(run_ok);
    lemma_relax_target(g, start, pred, found, cost, parent, time, done, hops, order, heap, node, k, new_cost);
    let n = g.len();
    let vi = g[node as int][k].0 as int;
    let found2 = found.update(vi, true);
    let cost2 = cost.update(vi, new_cost);
    let parent2 = parent.update(vi, node);
    let hops2 = hops.update(vi, hops[node as int] + 1);
    assert(found[node as int]);
    assert forall|u: int| 0 <= u < n && #[trigger] found2[u] && u != start implies hops2[u] == hops2[parent2[u] as int] + 1 by {
        if u != vi {
            assert(parent_edge(g, found, cost, parent, time, done, u));
            assert(parent[u] as int != vi);
        }
    }
}

/// Lowering the cost keeps the settled nodes settled and the queue in order.
proof fn lemma_relax_queue<C: Weight>(
    g: Seq<Seq<(usize, C)>>,
    start: usize,
    pred: spec_fn(usize) -> bool,
    found: Seq<bool>,
    cost: Seq<C>,
    parent: Seq<usize>,
    time: Seq<int>,
    done: Seq<bool>,
    hops: Seq<int>,
    order: Seq<usize>,
    heap: Seq<(C, usize)>,
    node: usize,
    k: int,
    new_cost: C,
)
    requires
        relax_pre(g, start, pred, found, cost, parent, time, done, hops, order, heap, node, k, new_cost),
    ensures
        ({
            let v = g[node as int][k].0;
            let found2 = found.update(v as int, true);
            let cost2 = cost.update(v as int, new_cost);
            let heap2 = heap.push((new_cost, v));
            let n = g.len();
            &&& forall|u: int| 0 <= u < n && #[trigger] done[u] ==> settled(g, start, pred, found2, cost2, heap2, u,
                if u == node { k + 1 } else { g[u].len() as int })
            &&& forall|u: int| 0 <= u < n && #[trigger] found2[u] && !done[u] ==> exists|h: int|
                0 <= h < heap2.len() && #[trigger] heap2[h].1 == u && heap2[h].0.val() == cost2[u].val()
            &&& forall|h: int| 0 <= h < heap2.len() ==> #[trigger] heap2[h].1 < n && found2[heap2[h].1 as int]
                && heap2[h].0.val() >= cost2[heap2[h].1 as int].val()
            &&& forall|a: int, b: int| 0 <= a < heap2.len() && 0 <= b < heap2.len() && a != b && #[trigger] heap2[a].1 == #[trigger] heap2[b].1
                ==> heap2[a].0.val() != heap2[b].0.val()
        }),
{
    reveal(run_ok);
    lemma_relax_target(g, start, pred, found, cost, parent, time, done, hops, order, heap, node, k, new_cost);
    let n = g.len();
    let v = g[node as int][k].0;
    let vi = v as int;
    let found2 = found.update(vi, true);
    let cost2 = cost.update(vi, new_cost);
    let heap2 = heap.push((new_cost, v));
    assert forall|u: int| 0 <= u < n && #[trigger] done[u] implies settled(g, start, pred, found2, cost2, heap2, u,
        if u == node { k + 1 } else { g[u].len() as int }) by {
        assert(settled(g, start, pred, found, cost, heap, u, if u == node { k } else { g[u].len() as int }));
        assert forall|kk: int| 0 <= kk < (if u == node { k + 1 } else { g[u].len() as int }) implies #[trigger] relaxed(g, found2, cost2, u, kk) by {
            if u == node && kk == k {
            } else {
                assert(relaxed(g, found, cost, u, kk));
            }
        }
        assert forall|h: int| 0 <= h < heap2.len() && #[trigger] heap2[h].1 == u implies heap2[h].0.val() > cost2[u].val() by {
            if h < heap.len() {
                assert(heap2[h] == heap[h]);
            }
        }
    }
    assert forall|u: int| 0 <= u < n && #[trigger] found2[u] && !done[u] implies exists|h: int|
        0 <= h < heap2.len() && #[trigger] heap2[h].1 == u && heap2[h].0.val() == cost2[u].val() by {
        if u == vi {
            assert(heap2[heap.len() as int].1 == u);
        } else {
            let h = choose|h: int| 0 <= h < heap.len() && #[trigger] heap[h].1 == u && heap[h].0.val() == cost[u].val();
            assert(heap2[h] == heap[h]);
        }
    }
    assert forall|h: int| 0 <= h < heap2.len() implies #[trigger] heap2[h].1 < n && found2[heap2[h].1 as int]
        && heap2[h].0.val() >= cost2[heap2[h].1 as int].val() by {
        if h < heap.len() {
            assert(heap2[h] == heap[h]);
        }
    }
    assert forall|a: int, b: int| 0 <= a < heap2.len() && 0 <= b < heap2.len() && a != b && #[trigger] heap2[a].1 == #[trigger] heap2[b].1
        implies heap2[a].0.val() != heap2[b].0.val() by {
        if a < heap.len() && b < heap.len() {
            assert(heap2[a] == heap[a] && heap2[b] == heap[b]);
        } else if a < heap.len() {
            assert(heap2[a] == heap[a]);
            assert(heap[a].0.val() >= cost[vi].val());
        } else {
            assert(heap2[b] == heap[b]);
            assert(heap[b].0.val() >= cost[vi].val());
        }
    }
}

/// Lowering the cost of the target of edge `k` of the node being expanded.
proof fn lemma_relax<C: Weight>(
    g: Seq<Seq<(usize, C)>>,
    start: usize,
    pred: spec_fn(usize) -> bool,
    found: Seq<bool>,
    cost: Seq<C>,
    parent: Seq<usize>,
    time: Seq<int>,
    done: Seq<bool>,
    hops: Seq<int>,
    order: Seq<usize>,
    heap: Seq<(C, usize)>,
    node: usize,
    k: int,
    new_cost: C,
)
    requires
        relax_pre(g, start, pred, found, cost, parent, time, done, hops, order, heap, node, k, new_cost),
    ensures
        ({
            let v = g[node as int][k].0;
            run_ok(g, start, pred, found.update(v as int, true), cost.update(v as int, new_cost), parent.update(v as int, node), time, done,
                hops.update(v as int, hops[node as int] + 1), order, heap.push((new_cost, v)), node as int, k + 1)
        }),
{
    reveal(run_ok);
    lemma_relax_target(g, start, pred, found, cost, parent, time, done, hops, order, heap, node, k, new_cost);
    lemma_relax_tree(g, start, pred, found, cost, parent, time, done, hops, order, heap, node, k, new_cost);
    lemma_relax_bounds(g, start, pred, found, cost, parent, time, done, hops, order, heap, node, k, new_cost);
    lemma_relax_queue(g, start, pred, found, cost, parent, time, done, hops, order, heap, node, k, new_cost);
    let v = g[node as int][k].0 as int;
    let hops2 = hops.update(v, hops[node as int] + 1);
    assert(hops2[start as int] == 0) by {
        if v == start {
            assert(found[start as int]);
        }
    }
}

/// With the queue empty, every node on a walk from the start is settled.
proof fn lemma_all_done<C: Weight>(
    g: Seq<Seq<(usize, C)>>,
    start: usize,
    pred: spec_fn(usize) -> bool,
    found: Seq<bool>,
    cost: Seq<C>,
    parent: Seq<usize>,
    time: Seq<int>,
    done: Seq<bool>,
    hops: Seq<int>,
    order: Seq<usize>,
    heap: Seq<(C, usize)>,
    p: Seq<usize>,
    e: Seq<int>,
    w: usize,
    k: int,
)
    requires
        run_ok(g, start, pred, found, cost, parent, time, done, hops, order, heap, g.len() as int, 0),
        heap.len() == 0,
        is_wpath(g, p, e, start, w),
        0 <= k < p.len(),
    ensures
        done[p[k] as int],
    decreases k,
{
    reveal(run_ok);
    if k == 0 {
        assert(found[start as int]);
        if !done[start as int] {
            let h = choose|h: int| 0 <= h < heap.len() && #[trigger] heap[h].1 == start && heap[h].0.val() == cost[start as int].val();
        }
    } else {
        lemma_all_done(g, start, pred, found, cost, parent, time, done, hops, order, heap, p, e, w, k - 1);
        assert(wstep(g, p, e, k - 1));
        let u = p[k - 1] as int;
        assert(settled(g, start, pred, found, cost, heap, u, g[u].len() as int));
        assert(relaxed(g, found, cost, u, e[k - 1]));
        let v = p[k] as int;
        if !done[v] {
            let h = choose|h: int| 0 <= h < heap.len() && #[trigger] heap[h].1 == v && heap[h].0.val() == cost[v].val();
        }
    }
}


/// `t` can be reached from `s` along a weighted path.
pub open spec fn wreach<C>(g: Seq<Seq<(usize, C)>>, s: usize, t: usize) -> bool {
    exists|p: Seq<usize>, e: Seq<int>| #[trigger] is_wpath(g, p, e, s, t)
}

/// `p` lists the nodes of a path of cost `c` from `s` to a node where `pred`
/// holds, and no path from `s` to such a node costs less.
pub open spec fn cheapest_goal_path<C: Weight>(
    g: Seq<Seq<(usize, C)>>,
    p: Seq<usize>,
    c: int,
    s: usize,
    pred: spec_fn(usize) -> bool,
) -> bool {
    &&& p.len() >= 1
    &&& pred(p[p.len() - 1])
    &&& exists|e: Seq<int>| #[trigger] is_wpath(g, p, e, s, p[p.len() - 1]) && walk_cost(g, p, e) == c
    &&& forall|t: usize, q: Seq<usize>, e: Seq<int>| #[trigger] is_wpath(g, q, e, s, t) && pred(t) ==> walk_cost(g, q, e) >= c
}

/// No path from `s` ends at a node where `pred` holds.
pub open spec fn no_goal_wpath<C>(g: Seq<Seq<(usize, C)>>, s: usize, pred: spec_fn(usize) -> bool) -> bool {
    forall|t: usize, q: Seq<usize>, e: Seq<int>| #[trigger] is_wpath(g, q, e, s, t) ==> !pred(t)
}

/// A sequence with one more item at its end, reversed, starts with that item.
pub proof fn lemma_reverse_push(s: Seq<usize>, x: usize)
    ensures
        s.push(x).reverse() =~= seq![x] + s.reverse(),
{
    let a = s.push(x).reverse();
    let b = seq![x] + s.reverse();
    assert forall|i: int| 0 <= i < a.len() implies a[i] == b[i] by {
        if i > 0 {
            assert(b[i] == s.reverse()[i - 1]);
        }
    }
}

/// The sequence `v` in the other order.
pub(crate) fn reversed(v: &Vec<usize>) -> (r: Vec<usize>)
    ensures
        r@ == v@.reverse(),
{
    let mut r: Vec<usize> = Vec::new();
    let mut i: usize = v.len();
    while i > 0
        invariant
            i <= v.len(),
            r@.len() == v.len() - i,
            forall|j: int| 0 <= j < r@.len() ==> #[trigger] r@[j] == v@[v.len() - 1 - j],
        decreases i,
    {
        i = i - 1;
        r.push(v[i]);
    }
    assert(r@ =~= v@.reverse());
    r
}

/// Follow the parents of the search tree from `t` back to the start, and give
/// the path from the start to `t` that they make.
fn build_path<C: Weight>(
    Ghost(g): Ghost<Seq<Seq<(usize, C)>>>,
    start: usize,
    t: usize,
    parent: &Vec<usize>,
    Ghost(found): Ghost<Seq<bool>>,
    Ghost(cost): Ghost<Seq<C>>,
    Ghost(time): Ghost<Seq<int>>,
    Ghost(done): Ghost<Seq<bool>>,
) -> (r: Vec<usize>)
    requires
        wf(g),
        tree_ok(g, start, found, cost, parent@, time, done),
        forall|v: int| 0 <= v < g.len() && #[trigger] done[v] ==> time[v] >= 0,
        t < g.len(),
        found[t as int],
    ensures
        crate::spec::distinct(r@),
        exists|e: Seq<int>| #[trigger] is_wpath(g, r@, e, start, t) && walk_cost(g, r@, e) == cost[t as int].val(),
{
    let mut rev: Vec<usize> = Vec::new();
    rev.push(t);
    let mut cur = t;
    let ghost mut e: Seq<int> = Seq::empty();
    proof {
        assert(rev@.reverse() =~= seq![t]);
        assert(walk_cost(g, seq![t], e) == 0);
    }
    while cur != start
        invariant
            wf(g),
            tree_ok(g, start, found, cost, parent@, time, done),
            forall|v: int| 0 <= v < g.len() && #[trigger] done[v] ==> time[v] >= 0,
            t < g.len(),
            cur < g.len(),
            found[cur as int],
            rev@.len() >= 1,
            rev@[0] == t,
            rev@[rev@.len() - 1] == cur,
            is_wpath(g, rev@.reverse(), e, cur, t),
            walk_cost(g, rev@.reverse(), e) == cost[t as int].val() - cost[cur as int].val(),
            forall|j: int| 1 <= j < rev@.len() ==> #[trigger] done[rev@[j] as int],
            forall|i: int, j: int| 0 <= i < j < rev@.len() && done[rev@[i] as int] ==> time[rev@[i] as int] > time[rev@[j] as int],
        decreases (if done[cur as int] { 0int } else { 1int }), time[cur as int],
    {
        let p = parent[cur];
        proof {
            assert(parent_edge(g, found, cost, parent@, time, done, cur as int));
            let k = choose|k: int| 0 <= k < g[p as int].len() && #[trigger] g[p as int][k].0 == cur
                && cost[cur as int].val() == cost[p as int].val() + g[p as int][k].1.val();
            let q = rev@.reverse();
            lemma_wpath_prepend(g, q, e, p, k, t);
            lemma_reverse_push(rev@, p);
            e = seq![k] + e;
        }
        let ghost r0 = rev@;
        rev.push(p);
        proof {
            assert(rev@ == r0.push(p));
            assert forall|i: int, j: int| 0 <= i < j < rev@.len() && done[rev@[i] as int] implies time[rev@[i] as int] > time[rev@[j] as int] by {
                if j == r0.len() {
                    if i < r0.len() - 1 {
                        assert(done[r0[r0.len() - 1] as int]);
                        assert(time[r0[i] as int] > time[cur as int]);
                    }
                } else {
                    assert(rev@[i] == r0[i] && rev@[j] == r0[j]);
                }
            }
        }
        cur = p;
    }
    let r = reversed(&rev);
    proof {
        assert forall|a: int, b: int| 0 <= a < b < rev@.len() implies rev@[a] != rev@[b] by {
            if a >= 1 {
                assert(done[rev@[a] as int]);
            } else if done[rev@[a] as int] {
            } else {
                assert(done[rev@[b] as int]);
            }
        }
        assert forall|a: int, b: int| 0 <= a < b < r@.len() implies r@[a] != r@[b] by {
            assert(r@[a] == rev@[rev@.len() - 1 - a]);
            assert(r@[b] == rev@[rev@.len() - 1 - b]);
        }
    }
    r
}

/// Compute a cheapest path from `start` to a node for which `success` returns
/// `true`, with Dijkstra's algorithm over the adjacency lists `successors`,
/// whose weights must not be negative.
///
/// The path holds both the start and the end node, and no node twice; it comes
/// with its total cost.
pub fn dijkstra<C: Weight, FS: Fn(usize) -> bool>(start: usize, successors: &[Vec<(usize, C)>], success: FS)
    -> (r: Option<(Vec<usize>, C)>)
    requires
        wf(adj(successors@)),
        nonneg(adj(successors@)),
        costs_fit(adj(successors@), start),
        start < successors@.len(),
        is_predicate(success),
    ensures
        match r {
            Some((p, c)) => cheapest_goal_path(adj(successors@), p@, c.val(), start, pred_of(success))
                && crate::spec::distinct(p@),
            None => no_goal_wpath(adj(successors@), start, pred_of(success)),
        },
        crate::spec::holds(success, start) ==> (r matches Some((p, c)) && p@ == seq![start] && c.val() == 0),
{
    let ghost g = adj(successors@);
    let goal = FnGoal { f: success };
    if goal.test(start) {
        let mut path: Vec<usize> = Vec::new();
        path.push(start);
        proof {
            let pred = pred_of(goal.f);
            let e = Seq::<int>::empty();
            assert(is_wpath(g, path@, e, start, start));
            assert(walk_cost(g, path@, e) == 0);
            assert forall|t: usize, q: Seq<usize>, e2: Seq<int>| #[trigger] is_wpath(g, q, e2, start, t) && pred(t)
                implies walk_cost(g, q, e2) >= 0 by {
                crate::spec::lemma_walk_prefix(g, q, e2, start, t, 0);
                assert(e2.take(0) =~= Seq::<int>::empty());
            }
            assert(crate::spec::distinct(path@));
        }
        return Some((path, C::zero()));
    }
    let (found, cost, parent, reached, Ghost(time), Ghost(done), _) = run_dijkstra(start, successors, &goal);
    match reached {
        Some(t) => {
            let path = build_path::<C>(Ghost(g), start, t, &parent, Ghost(found@), Ghost(cost@), Ghost(time), Ghost(done));
            let c = cost[t];
            proof {
                let pred = pred_of(goal.f);
                assert(path@[path@.len() - 1] == t);
                assert forall|w: usize, q: Seq<usize>, e: Seq<int>| #[trigger] is_wpath(g, q, e, start, w) && pred(w)
                    implies walk_cost(g, q, e) >= c.val() by {
                    if walk_cost(g, q, e) < c.val() {
                        assert(done[w as int]);
                    }
                }
            }
            Some((path, c))
        },
        None => {
            proof {
                let pred = pred_of(goal.f);
                assert forall|w: usize, q: Seq<usize>, e: Seq<int>| #[trigger] is_wpath(g, q, e, start, w) implies !pred(w) by {
                    assert(done[w as int]);
                }
            }
            None
        },
    }
}

/// The cost that the table `r` gives node `v`: nothing for the start, else the
/// cost in its entry.
pub open spec fn entry_cost<C: Weight>(r: Seq<Option<(usize, C)>>, start: usize, v: usize) -> int {
    if v == start {
        0
    } else {
        match r[v as int] {
            Some(x) => x.1.val(),
            None => 0,
        }
    }
}

/// Node `v` has an entry in `r`, or is the start.
pub open spec fn in_table<C>(r: Seq<Option<(usize, C)>>, start: usize, v: usize) -> bool {
    v == start || r[v as int] is Some
}

/// The entry of `v` names a parent in the table and a cost that a path from
/// the start reaches, made of the parent's cost and the weight of an edge from
/// the parent to `v`.
pub open spec fn entry_ok<C: Weight>(g: Seq<Seq<(usize, C)>>, start: usize, r: Seq<Option<(usize, C)>>, v: int) -> bool {
    let p = r[v]->Some_0.0;
    let c = r[v]->Some_0.1.val();
    &&& p < g.len()
    &&& in_table(r, start, p)
    &&& has_path_cost(g, start, v as usize, c)
    &&& exists|k: int| 0 <= k < g[p as int].len() && #[trigger] g[p as int][k].0 == v && c == entry_cost(r, start, p) + g[p as int][k].1.val()
}

/// `r` is a table of parents and costs rooted at `start`: one slot per node,
/// none for the start, and each entry well made.
pub open spec fn table_ok<C: Weight>(g: Seq<Seq<(usize, C)>>, start: usize, r: Seq<Option<(usize, C)>>) -> bool {
    &&& r.len() == g.len()
    &&& r[start as int] is None
    &&& forall|v: int| 0 <= v < g.len() && #[trigger] r[v] is Some ==> entry_ok(g, start, r, v)
}

/// The table of found nodes, with their parents and costs; the start has none.
fn parent_table<C: Weight>(start: usize, found: &Vec<bool>, cost: &Vec<C>, parent: &Vec<usize>) -> (r: Vec<Option<(usize, C)>>)
    requires
        found@.len() == cost@.len(),
        found@.len() == parent@.len(),
    ensures
        r@.len() == found@.len(),
        forall|v: int| 0 <= v < r@.len() ==> #[trigger] r@[v] == if found@[v] && v != start {
            Some((parent@[v], cost@[v]))
        } else {
            None
        },
{
    let mut r: Vec<Option<(usize, C)>> = Vec::new();
    let mut v: usize = 0;
    while v < found.len()
        invariant
            found@.len() == cost@.len(),
            found@.len() == parent@.len(),
            v <= found@.len(),
            r@.len() == v,
            forall|u: int| 0 <= u < v ==> #[trigger] r@[u] == if found@[u] && u != start {
                Some((parent@[u], cost@[u]))
            } else {
                None
            },
        decreases found@.len() - v,
    {
        if found[v] && v != start {
            r.push(Some((parent[v], cost[v])));
        } else {
            r.push(None);
        }
        v = v + 1;
    }
    r
}

/// The table made from a search tree is well made.
proof fn lemma_table<C: Weight>(
    g: Seq<Seq<(usize, C)>>,
    start: usize,
    found: Seq<bool>,
    cost: Seq<C>,
    parent: Seq<usize>,
    time: Seq<int>,
    done: Seq<bool>,
    r: Seq<Option<(usize, C)>>,
)
    requires
        tree_ok(g, start, found, cost, parent, time, done),
        r.len() == g.len(),
        forall|v: int| 0 <= v < r.len() ==> #[trigger] r[v] == if found[v] && v != start {
            Some((parent[v], cost[v]))
        } else {
            None
        },
    ensures
        table_ok(g, start, r),
        forall|v: usize| v < g.len() ==> (#[trigger] in_table(r, start, v) <==> found[v as int]),
        forall|v: usize| v < g.len() && found[v as int] ==> #[trigger] entry_cost(r, start, v) == cost[v as int].val(),
{
    let n = g.len();
    assert forall|v: usize| v < n implies (#[trigger] in_table(r, start, v) <==> found[v as int]) by {
        assert(r[v as int] == if found[v as int] && v != start { Some((parent[v as int], cost[v as int])) } else { None });
    }
    assert forall|v: usize| v < n && found[v as int] implies #[trigger] entry_cost(r, start, v) == cost[v as int].val() by {
        assert(r[v as int] == if found[v as int] && v != start { Some((parent[v as int], cost[v as int])) } else { None });
    }
    assert forall|v: int| 0 <= v < n && #[trigger] r[v] is Some implies entry_ok(g, start, r, v) by {
        assert(found[v] && v != start);
        assert(parent_edge(g, found, cost, parent, time, done, v));
        let p = parent[v];
        assert(r[v]->Some_0.0 == p);
        assert(found[p as int]);
        assert(in_table(r, start, p));
        assert(entry_cost(r, start, p) == cost[p as int].val());
    }
    assert(r[start as int] == if found[start as int] && start != start { Some((parent[start as int], cost[start as int])) } else { None });
}

/// The flags of the nodes examined before the stop: those settled, and the
/// node where the search stopped.
fn examined_flags(n: usize, settled: &Vec<usize>, t: usize, Ghost(done): Ghost<Seq<bool>>) -> (r: Vec<bool>)
    requires
        t < n,
        done.len() == n,
        forall|k: int| 0 <= k < settled@.len() ==> #[trigger] settled@[k] < n,
        forall|v: usize| v < n ==> (#[trigger] done[v as int] <==> settled@.contains(v)),
    ensures
        r@ == Seq::new(n as nat, |v: int| done[v] || v == t),
{
    let mut r: Vec<bool> = Vec::new();
    let mut i: usize = 0;
    while i < n
        invariant
            i <= n,
            r@.len() == i,
            forall|v: int| 0 <= v < i ==> !#[trigger] r@[v],
        decreases n - i,
    {
        r.push(false);
        i = i + 1;
    }
    let mut k: usize = 0;
    while k < settled.len()
        invariant
            k <= settled@.len(),
            r@.len() == n,
            forall|j: int| 0 <= j < settled@.len() ==> #[trigger] settled@[j] < n,
            forall|v: int| 0 <= v < n ==> (#[trigger] r@[v] <==> settled@.take(k as int).contains(v as usize)),
        decreases settled@.len() - k,
    {
        let v = settled[k];
        let ghost r0 = r@;
        r.set(v, true);
        proof {
            assert(settled@.take(k + 1) == settled@.take(k as int).push(v));
            assert forall|x: int| 0 <= x < n implies (#[trigger] r@[x] <==> settled@.take(k + 1).contains(x as usize)) by {
                if x == v as int {
                    assert(settled@.take(k + 1)[k as int] == v);
                } else {
                    assert(r@[x] == r0[x]);
                    let a = settled@.take(k + 1);
                    let b = settled@.take(k as int);
                    if a.contains(x as usize) {
                        let j = choose|j: int| 0 <= j < a.len() && #[trigger] a[j] == x as usize;
                        assert(j != k);
                        assert(b[j] == x as usize);
                    }
                    if b.contains(x as usize) {
                        let j = choose|j: int| 0 <= j < b.len() && #[trigger] b[j] == x as usize;
                        assert(a[j] == x as usize);
                    }
                }
            }
        }
        k = k + 1;
    }
    r.set(t, true);
    proof {
        assert(settled@.take(settled@.len() as int) =~= settled@);
        assert forall|v: int| 0 <= v < n implies #[trigger] r@[v] == (done[v] || v == t) by {
            if v != t {
                assert(done[(v as usize) as int] <==> settled@.contains(v as usize));
            }
        }
    }
    r
}

/// The table of the nodes of `keep`, a part of a search tree closed under
/// parents, is well made.
proof fn lemma_table_keep<C: Weight>(
    g: Seq<Seq<(usize, C)>>,
    start: usize,
    found: Seq<bool>,
    cost: Seq<C>,
    parent: Seq<usize>,
    time: Seq<int>,
    done: Seq<bool>,
    keep: Seq<bool>,
    r: Seq<Option<(usize, C)>>,
)
    requires
        tree_ok(g, start, found, cost, parent, time, done),
        keep.len() == g.len(),
        forall|v: int| 0 <= v < g.len() && #[trigger] keep[v] ==> found[v] && (v == start || done[v] || done[parent[v] as int]),
        forall|v: int| 0 <= v < g.len() && #[trigger] keep[v] && v != start ==> keep[parent[v] as int] || parent[v] == start,
        r.len() == g.len(),
        forall|v: int| 0 <= v < r.len() ==> #[trigger] r[v] == if keep[v] && v != start {
            Some((parent[v], cost[v]))
        } else {
            None
        },
    ensures
        table_ok(g, start, r),
        forall|v: usize| v < g.len() ==> (#[trigger] in_table(r, start, v) <==> (v == start || keep[v as int])),
        forall|v: usize| v < g.len() && keep[v as int] ==> #[trigger] entry_cost(r, start, v) == cost[v as int].val(),
{
    let n = g.len();
    assert forall|v: usize| v < n implies (#[trigger] in_table(r, start, v) <==> (v == start || keep[v as int])) by {
        assert(r[v as int] == if keep[v as int] && v != start { Some((parent[v as int], cost[v as int])) } else { None });
    }
    assert forall|v: usize| v < n && keep[v as int] implies #[trigger] entry_cost(r, start, v) == cost[v as int].val() by {
        assert(r[v as int] == if keep[v as int] && v != start { Some((parent[v as int], cost[v as int])) } else { None });
    }
    assert forall|v: int| 0 <= v < n && #[trigger] r[v] is Some implies entry_ok(g, start, r, v) by {
        assert(keep[v] && v != start);
        assert(found[v]);
        assert(parent_edge(g, found, cost, parent, time, done, v));
        let p = parent[v];
        assert(r[v]->Some_0.0 == p);
        assert(in_table(r, start, p));
        if p != start {
            assert(keep[p as int]);
            assert(entry_cost(r, start, p) == cost[p as int].val());
        }
    }
    assert(r[start as int] == if keep[start as int] && start != start { Some((parent[start as int], cost[start as int])) } else { None });
}

/// The test that never passes.
struct Never;

impl Goal for Never {
    open spec fn ready(&self) -> bool {
        true
    }

    open spec fn pred(&self) -> spec_fn(usize) -> bool {
        |n: usize| false
    }

    fn test(&self, n: usize) -> (b: bool) {
        false
    }
}

/// Determine every node that can be reached from `start`, with the least cost
/// of reaching it and a parent on a cheapest path, by Dijkstra's algorithm over
/// the adjacency lists `successors`, whose weights must not be negative.
///
/// Slot `v` of the result holds `Some((parent, cost))` for each node `v` that
/// the start reaches, the start itself excepted, and `None` for the others.
pub fn dijkstra_all<C: Weight>(start: usize, successors: &[Vec<(usize, C)>]) -> (r: Vec<Option<(usize, C)>>)
    requires
        wf(adj(successors@)),
        nonneg(adj(successors@)),
        costs_fit(adj(successors@), start),
        start < successors@.len(),
    ensures
        table_ok(adj(successors@), start, r@),
        forall|v: usize| v < successors@.len() && v != start ==> (r@[v as int] is Some <==> #[trigger] wreach(adj(successors@), start, v)),
        forall|v: usize| v < successors@.len() && #[trigger] in_table(r@, start, v) ==> is_dist(adj(successors@), start, v, entry_cost(r@, start, v)),
        exists|rank: Seq<int>| #[trigger] ranked(r@, start, rank),
{
    let ghost g = adj(successors@);
    let (found, cost, parent, reached, Ghost(time), Ghost(done), _) = run_dijkstra(start, successors, &Never);
    let r = parent_table(start, &found, &cost, &parent);
    proof {
        lemma_table(g, start, found@, cost@, parent@, time, done, r@);
        assert(reached.is_none()) by {
            if reached.is_some() {
                assert((Never.pred())(reached.unwrap()));
            }
        }
        assert forall|v: usize| v < g.len() && v != start implies (r@[v as int] is Some <==> #[trigger] wreach(g, start, v)) by {
            assert(in_table(r@, start, v) <==> found@[v as int]);
            if wreach(g, start, v) {
                let (p, e) = choose|p: Seq<usize>, e: Seq<int>| #[trigger] is_wpath(g, p, e, start, v);
                assert(done[v as int]);
            }
            if found@[v as int] {
                assert(done[v as int]);
                let (p, e) = choose|p: Seq<usize>, e: Seq<int>| #[trigger] is_wpath(g, p, e, start, v) && walk_cost(g, p, e) == cost@[v as int].val();
                assert(wreach(g, start, v));
            }
        }
        assert forall|v: usize| v < g.len() && #[trigger] in_table(r@, start, v) implies is_dist(g, start, v, entry_cost(r@, start, v)) by {
            assert(found@[v as int]);
            assert(done[v as int]);
        }
        let rank = Seq::new(g.len(), |v: int| if done[v] { time[v] } else { 0 });
        assert forall|v: int| 0 <= v < r@.len() && #[trigger] r@[v] is Some implies r@[v]->Some_0.0 < r@.len()
            && rank[r@[v]->Some_0.0 as int] < rank[v] by {
            assert(found@[v] && v != start);
            assert(found@[v] <==> done[v]);
            assert(parent_edge(g, found@, cost@, parent@, time, done, v));
        }
        assert(ranked(r@, start, rank));
    }
    r
}

/// The entries of a table hang from parents of lower rank, and no rank is
/// negative: following the parents from any entry leads to the start.
pub open spec fn ranked<C>(r: Seq<Option<(usize, C)>>, start: usize, rank: Seq<int>) -> bool {
    &&& rank.len() == r.len()
    &&& forall|v: int| 0 <= v < r.len() ==> 0 <= #[trigger] rank[v]
    &&& forall|v: int| 0 <= v < r.len() && #[trigger] r[v] is Some ==> r[v]->Some_0.0 < r.len() && rank[r[v]->Some_0.0 as int] < rank[v]
}

/// Run Dijkstra's algorithm from `start` over the adjacency lists `successors`,
/// whose weights must not be negative, until a node where `stop` returns `true`
/// is taken from the queue (the start included), or every node that the start
/// reaches has been examined.
///
/// The first part of the result is the table of the nodes found so far (the
/// start excepted), each with a parent and a cost; each node examined before
/// the stop has its least cost and a parent on a cheapest path. The second part
/// is the node where `stop` held, if any.
pub fn dijkstra_partial<C: Weight, FS: Fn(usize) -> bool>(start: usize, successors: &[Vec<(usize, C)>], stop: FS)
    -> (r: (Vec<Option<(usize, C)>>, Option<usize>))
    requires
        wf(adj(successors@)),
        nonneg(adj(successors@)),
        costs_fit(adj(successors@), start),
        start < successors@.len(),
        is_predicate(stop),
    ensures
        table_ok(adj(successors@), start, r.0@),
        match r.1 {
            None => {
                &&& forall|v: usize| v < successors@.len() && v != start ==> (r.0@[v as int] is Some <==> #[trigger] wreach(adj(successors@), start, v))
                &&& forall|v: usize| v < successors@.len() && #[trigger] in_table(r.0@, start, v) ==> is_dist(adj(successors@), start, v, entry_cost(r.0@, start, v))
                &&& no_goal_wpath(adj(successors@), start, pred_of(stop))
            },
            Some(t) => {
                &&& t < successors@.len()
                &&& holds(stop, t)
                &&& in_table(r.0@, start, t)
                &&& is_dist(adj(successors@), start, t, entry_cost(r.0@, start, t))
                &&& forall|w: usize, q: Seq<usize>, e: Seq<int>| #[trigger] is_wpath(adj(successors@), q, e, start, w)
                    && walk_cost(adj(successors@), q, e) < entry_cost(r.0@, start, t)
                    ==> !holds(stop, w) && in_table(r.0@, start, w) && is_dist(adj(successors@), start, w, entry_cost(r.0@, start, w))
                &&& forall|w: usize| w < successors@.len() && #[trigger] in_table(r.0@, start, w)
                    ==> is_dist(adj(successors@), start, w, entry_cost(r.0@, start, w))
                &&& forall|w: usize| w < successors@.len() && w != start && w != t && #[trigger] in_table(r.0@, start, w)
                    ==> !holds(stop, w)
                &&& forall|w: usize| w < successors@.len() && #[trigger] in_table(r.0@, start, w)
                    ==> entry_cost(r.0@, start, w) <= entry_cost(r.0@, start, t)
            },
        },
{
    let ghost g = adj(successors@);
    let goal = FnGoal { f: stop };
    let (found, cost, parent, reached, Ghost(time), Ghost(done), settled) = run_dijkstra(start, successors, &goal);
    let r = match reached {
        None => parent_table(start, &found, &cost, &parent),
        Some(t) => {
            let keep = examined_flags(successors.len(), &settled, t, Ghost(done));
            parent_table(start, &keep, &cost, &parent)
        },
    };
    proof {
        match reached {
            None => lemma_table(g, start, found@, cost@, parent@, time, done, r@),
            Some(t) => {
                let keep = Seq::new(g.len(), |v: int| done[v] || v == t);
                assert(r@ =~= Seq::new(g.len(), |v: int| if keep[v] && v != start { Some((parent@[v], cost@[v])) } else { None }));
                lemma_table_keep(g, start, found@, cost@, parent@, time, done, keep, r@);
            },
        }
        match reached {
            None => {
                assert forall|v: usize| v < g.len() && v != start implies (r@[v as int] is Some <==> #[trigger] wreach(g, start, v)) by {
                    assert(in_table(r@, start, v) <==> found@[v as int]);
                    if wreach(g, start, v) {
                        let (p, e) = choose|p: Seq<usize>, e: Seq<int>| #[trigger] is_wpath(g, p, e, start, v);
                        assert(done[v as int]);
                    }
                    if found@[v as int] {
                        assert(done[v as int]);
                        let (p, e) = choose|p: Seq<usize>, e: Seq<int>| #[trigger] is_wpath(g, p, e, start, v) && walk_cost(g, p, e) == cost@[v as int].val();
                        assert(wreach(g, start, v));
                    }
                }
                assert forall|v: usize| v < g.len() && #[trigger] in_table(r@, start, v) implies is_dist(g, start, v, entry_cost(r@, start, v)) by {
                    assert(found@[v as int]);
                    assert(done[v as int]);
                }
                assert forall|w: usize, q: Seq<usize>, e: Seq<int>| #[trigger] is_wpath(g, q, e, start, w) implies !(pred_of(goal.f))(w) by {
                    assert(done[w as int]);
                }
            },
            Some(t) => {
                assert(in_table(r@, start, t));
                assert(entry_cost(r@, start, t) == cost@[t as int].val());
                assert forall|w: usize, q: Seq<usize>, e: Seq<int>| #[trigger] is_wpath(g, q, e, start, w)
                    && walk_cost(g, q, e) < entry_cost(r@, start, t)
                    implies !holds(goal.f, w) && in_table(r@, start, w) && is_dist(g, start, w, entry_cost(r@, start, w)) by {
                    assert(done[w as int]);
                    assert(w < g.len());
                    assert(found@[w as int]);
                    assert(!(pred_of(goal.f))(w));
                }
                assert forall|w: usize| w < g.len() && w != start && w != t && #[trigger] in_table(r@, start, w)
                    implies !holds(stop, w) by {
                    assert(done[w as int]);
                }
                assert(entry_cost(r@, start, t) >= 0) by {
                    let (p, e) = choose|p: Seq<usize>, e: Seq<int>| #[trigger] is_wpath(g, p, e, start, t)
                        && walk_cost(g, p, e) == cost@[t as int].val();
                    crate::spec::lemma_walk_prefix(g, p, e, start, t, 0);
                    assert(e.take(0) =~= Seq::<int>::empty());
                }
                assert forall|w: usize| w < g.len() && #[trigger] in_table(r@, start, w)
                    implies entry_cost(r@, start, w) <= entry_cost(r@, start, t) by {
                    if w != start && w != t {
                        assert(done[w as int]);
                    }
                }
                assert forall|w: usize| w < g.len() && #[trigger] in_table(r@, start, w)
                    implies is_dist(g, start, w, entry_cost(r@, start, w)) by {
                    if w == start {
                        assert(is_wpath(g, seq![start], Seq::<int>::empty(), start, start));
                        assert(walk_cost(g, seq![start], Seq::<int>::empty()) == 0);
                        assert forall|q: Seq<usize>, e: Seq<int>| #[trigger] is_wpath(g, q, e, start, start)
                            implies walk_cost(g, q, e) >= 0 by {
                            crate::spec::lemma_walk_prefix(g, q, e, start, start, 0);
                            assert(e.take(0) =~= Seq::<int>::empty());
                        }
                    } else {
                        assert(entry_ok(g, start, r@, w as int));
                        assert forall|q: Seq<usize>, e: Seq<int>| #[trigger] is_wpath(g, q, e, start, w)
                            implies walk_cost(g, q, e) >= entry_cost(r@, start, w) by {
                            if walk_cost(g, q, e) < entry_cost(r@, start, w) {
                                assert(is_dist(g, start, w, entry_cost(r@, start, w)));
                            }
                        }
                    }
                }
            },
        }
    }
    (r, reached)
}

/// A node reached by [`dijkstra_reach`]: the node, the node it was reached
/// from (none for the start) and its total cost from the start.
#[derive(Debug, Hash, PartialEq, Eq, Clone)]
pub struct DijkstraReachableItem<C> {
    /// The node that was reached.
    pub node: usize,
    /// The node it was reached from; none for the start.
    pub parent: Option<usize>,
    /// The total cost from the start.
    pub total_cost: C,
}

/// `items` lists the nodes that the start reaches, each once, the start first
/// and the closest first: each with its distance, and with a node listed
/// before it from which an edge leads to it and makes up the difference.
pub open spec fn reach_list<C: Weight>(g: Seq<Seq<(usize, C)>>, start: usize, items: Seq<DijkstraReachableItem<C>>) -> bool {
    let n = g.len();
    &&& items.len() >= 1
    &&& items[0].node == start
    &&& forall|k: int| 0 <= k < items.len() ==> (#[trigger] items[k]).node < n
        && is_dist(g, start, items[k].node, items[k].total_cost.val())
    &&& forall|k1: int, k2: int| 0 <= k1 < k2 < items.len() ==> (#[trigger] items[k1]).node != (#[trigger] items[k2]).node
    &&& forall|v: usize| v < n && #[trigger] wreach(g, start, v) ==> exists|k: int| 0 <= k < items.len() && (#[trigger] items[k]).node == v
    &&& forall|k: int| 0 <= k < items.len() ==> ((#[trigger] items[k]).parent is None <==> items[k].node == start)
    &&& forall|k: int| 0 <= k < items.len() && (#[trigger] items[k]).parent is Some ==> exists|j: int, q: int|
        0 <= j < k && items[j].node == items[k].parent.unwrap() && 0 <= q < g[items[j].node as int].len()
        && #[trigger] g[items[j].node as int][q].0 == items[k].node
        && items[k].total_cost.val() == items[j].total_cost.val() + g[items[j].node as int][q].1.val()
    &&& forall|k: int, w: usize, p: Seq<usize>, e: Seq<int>|
        0 <= k < items.len() && #[trigger] is_wpath(g, p, e, start, w) && walk_cost(g, p, e) < (#[trigger] items[k]).total_cost.val()
        ==> exists|j: int| 0 <= j < k && (#[trigger] items[j]).node == w
}

/// Visit all nodes that are reachable from a start node, in order of cost,
/// with the closest nodes first.
pub fn dijkstra_reach<C: Weight>(start: usize, successors: &[Vec<(usize, C)>]) -> (r: Vec<DijkstraReachableItem<C>>)
    requires
        wf(adj(successors@)),
        nonneg(adj(successors@)),
        costs_fit(adj(successors@), start),
        start < successors@.len(),
    ensures
        reach_list(adj(successors@), start, r@),
{
    let ghost g = adj(successors@);
    let (found, cost, parent, reached, Ghost(time), Ghost(done), order) = run_dijkstra(start, successors, &Never);
    let ghost n = g.len();
    proof {
        assert(reached is None) by {
            if reached is Some {
                assert(!(Never.pred())(reached.unwrap()));
            }
        }
        let p0 = seq![start];
        let e0 = Seq::<int>::empty();
        assert(is_wpath(g, p0, e0, start, start));
        assert(done[start as int]);
    }
    let mut items: Vec<DijkstraReachableItem<C>> = Vec::new();
    let mut k: usize = 0;
    while k < order.len()
        invariant
            g == adj(successors@),
            n == g.len(),
            k <= order@.len(),
            items@.len() == k,
            cost@.len() == n && parent@.len() == n,
            settle_order(g, start, time, done, order@),
            forall|j: int| 0 <= j < k ==> (#[trigger] items@[j]).node == order@[j]
                && items@[j].total_cost == cost@[order@[j] as int]
                && items@[j].parent == (if order@[j] == start { None } else { Some(parent@[order@[j] as int]) }),
        decreases order@.len() - k,
    {
        let v = order[k];
        proof { assert(order@[k as int] < n); }
        let p = if v == start { None } else { Some(parent[v]) };
        items.push(DijkstraReachableItem { node: v, parent: p, total_cost: cost[v] });
        k = k + 1;
    }
    proof {
        let it = items@;
        let ord = order@;
        assert forall|k1: int, k2: int| 0 <= k1 < k2 < it.len() implies (#[trigger] it[k1]).node != (#[trigger] it[k2]).node by {
            assert(time[ord[k1] as int] == k1 && time[ord[k2] as int] == k2);
        }
        assert forall|v: usize| v < n && #[trigger] wreach(g, start, v) implies exists|j: int| 0 <= j < it.len() && (#[trigger] it[j]).node == v by {
            let (p, e) = choose|p: Seq<usize>, e: Seq<int>| #[trigger] is_wpath(g, p, e, start, v);
            assert(done[v as int]);
            let j = choose|j: int| 0 <= j < ord.len() && ord[j] == v;
            assert(it[j].node == v);
        }
        assert forall|j: int| 0 <= j < it.len() implies (#[trigger] it[j]).node < n && is_dist(g, start, it[j].node, it[j].total_cost.val()) by {
            assert(done[ord[j] as int]);
        }
        assert forall|j: int| 0 <= j < it.len() && (#[trigger] it[j]).parent is Some implies exists|i: int, q: int|
            0 <= i < j && it[i].node == it[j].parent.unwrap() && 0 <= q < g[it[i].node as int].len()
            && #[trigger] g[it[i].node as int][q].0 == it[j].node
            && it[j].total_cost.val() == it[i].total_cost.val() + g[it[i].node as int][q].1.val() by {
            let v = ord[j];
            assert(v != start);
            assert(done[v as int]);
            assert(parent_edge(g, found@, cost@, parent@, time, done, v as int));
            let pv = parent@[v as int];
            let i = time[pv as int];
            assert(done[pv as int]);
            let i2 = choose|i2: int| 0 <= i2 < ord.len() && ord[i2] == pv;
            assert(time[ord[i2] as int] == i2);
            assert(it[i2].node == pv);
            let q = choose|q: int| 0 <= q < g[pv as int].len() && #[trigger] g[pv as int][q].0 == v && cost@[v as int].val() == cost@[pv as int].val() + g[pv as int][q].1.val();
            assert(i2 < j);
        }
        assert forall|j: int, w: usize, p: Seq<usize>, e: Seq<int>|
            0 <= j < it.len() && #[trigger] is_wpath(g, p, e, start, w) && walk_cost(g, p, e) < (#[trigger] it[j]).total_cost.val()
            implies exists|i: int| 0 <= i < j && (#[trigger] it[i]).node == w by {
            assert(done[ord[j] as int]);
            assert(is_dist(g, start, ord[j], cost@[ord[j] as int].val()));
            assert(done[w as int] && time[w as int] < j);
            let i = choose|i: int| 0 <= i < ord.len() && ord[i] == w;
            assert(time[ord[i] as int] == i);
            assert(it[i].node == w);
        }
        assert forall|j: int| 0 <= j < it.len() implies ((#[trigger] it[j]).parent is None <==> it[j].node == start) by {}
        assert(ord.len() > 0);
    }
    items
}

/// The items that a list of `(node, parent, total cost)` triples stands for.
pub open spec fn as_items<C>(s: Seq<(usize, Option<usize>, C)>) -> Seq<DijkstraReachableItem<C>> {
    Seq::new(s.len(), |i: int| DijkstraReachableItem { node: s[i].0, parent: s[i].1, total_cost: s[i].2 })
}

} // verus!
