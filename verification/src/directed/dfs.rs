//! Paths and reachable nodes by depth-first search.

use vstd::prelude::*;
use std::collections::HashSet;
use crate::outside::{FxMap, FxSet, fx_map_get, fx_map_insert, fx_map_new, fx_set_contains, fx_set_insert, fx_set_new};
use crate::spec::{
    adj, distinct, edge, goal_path, holds, is_path, is_predicate, lemma_call, lemma_closed_reach,
    lemma_path_push, lemma_reach_self, lemma_reach_step, no_goal_path, pred_of, reachable, follows, wf,
};
use crate::directed::bfs::lemma_seq_distinct_len;

verus! {

broadcast use vstd::std_specs::hash::group_hash_axioms;

/// The parent links of a depth-first search: every visited node other than the
/// start, and every node waiting on the stack, has a parent, visited earlier,
/// with an edge to it.
spec fn links_ok<C>(
    g: Seq<Seq<(usize, C)>>,
    order: Seq<usize>,
    par: Map<usize, usize>,
    start: usize,
) -> bool {
    &&& forall|v: usize| #[trigger] par.contains_key(v) ==> order.contains(par[v]) && edge(g, par[v], v)
    &&& forall|v: usize| #[trigger] par.contains_key(v) ==> v != start
    &&& forall|k: int| 0 <= k < order.len() && order[k] != start ==> #[trigger] par.contains_key(order[k])
        && rank(order, par[order[k]]) < k
}

/// A new parent link to a node not visited yet keeps the links sound.
proof fn lemma_links_insert<C>(g: Seq<Seq<(usize, C)>>, order: Seq<usize>, par: Map<usize, usize>, start: usize, next: usize, node: usize)
    requires
        links_ok(g, order, par, start),
        !order.contains(next),
        next != start,
        order.contains(node),
        edge(g, node, next),
    ensures
        links_ok(g, order, par.insert(next, node), start),
{
    let p2 = par.insert(next, node);
    assert forall|k: int| 0 <= k < order.len() && order[k] != start implies #[trigger] p2.contains_key(order[k])
        && rank(order, p2[order[k]]) < k by {
        assert(order.contains(order[k]));
        assert(par.contains_key(order[k]));
    }
}

/// The rank of `v` among the visited nodes, in the order of their visits.
spec fn rank(order: Seq<usize>, v: usize) -> int {
    choose|k: int| 0 <= k < order.len() && order[k] == v
}

/// In a sequence without repeats, the rank of the node at position `k` is `k`.
proof fn lemma_rank(order: Seq<usize>, k: int)
    requires
        distinct(order),
        0 <= k < order.len(),
    ensures
        rank(order, order[k]) == k,
{
    let v = order[k];
    let r = rank(order, v);
    assert(0 <= r < order.len() && order[r] == v);
}

/// Follow the parent links from `node` back to the start and return the nodes
/// from the start to `node`.
fn build_path<C>(node: usize, parents: &FxMap, Ghost(g): Ghost<Seq<Seq<(usize, C)>>>, Ghost(order): Ghost<Seq<usize>>, Ghost(start): Ghost<usize>) -> (p: Vec<usize>)
    requires
        links_ok(g, order, parents@, start),
        order.contains(node),
        distinct(order),
        order.contains(start),
        forall|k: int| 0 <= k < order.len() ==> #[trigger] order[k] < g.len(),
    ensures
        is_path(g, p@),
        p@[0] == start,
        p@[p@.len() - 1] == node,
        distinct(p@),
{
    let mut rev: Vec<usize> = Vec::new();
    rev.push(node);
    let mut cur = node;
    proof {
        assert(is_path(g, rev@.reverse())) by {
            assert(rev@.reverse() =~= seq![node]);
        }
    }
    loop
        invariant
            links_ok(g, order, parents@, start),
            order.contains(cur),
            order.contains(start),
            distinct(order),
            forall|k: int| 0 <= k < order.len() ==> #[trigger] order[k] < g.len(),
            rev@.len() >= 1,
            rev@[rev@.len() - 1] == cur,
            rev@[0] == node,
            is_path(g, rev@.reverse()),
            forall|a: int, b: int| 0 <= a < b < rev@.len() ==> rank(order, rev@[a]) > rank(order, rev@[b]),
            forall|a: int| 0 <= a < rev@.len() ==> order.contains(#[trigger] rev@[a]),
        ensures
            cur == start,
            rev@[rev@.len() - 1] == cur,
            is_path(g, rev@.reverse()),
            rev@[0] == node,
            forall|a: int, b: int| 0 <= a < b < rev@.len() ==> rank(order, rev@[a]) > rank(order, rev@[b]),
        decreases rank(order, cur),
    {
        let got = fx_map_get(parents, cur);
        match got {
            None => {
                proof {
                    let k = choose|k: int| 0 <= k < order.len() && order[k] == cur;
                    if order[k] != start {
                        assert(parents@.contains_key(order[k]));
                    }
                }
                break;
            },
            Some(par) => {
                let ghost old_rev = rev@;
                proof {
                    let k = choose|k: int| 0 <= k < order.len() && order[k] == cur;
                    lemma_rank(order, k);
                    assert(parents@.contains_key(cur));
                    if order[k] == start {
                        assert(!parents@.contains_key(start));
                    }
                    assert(order.contains(par));
                    assert(rank(order, par) < rank(order, cur));
                }
                rev.push(par);
                proof {
                    let r = rev@;
                    assert(r == old_rev.push(par));
                    assert(r.reverse() =~= seq![par] + old_rev.reverse());
                    let q = old_rev.reverse();
                    assert(edge(g, par, q[0]));
                    assert forall|i: int| 0 <= i < r.reverse().len() - 1 implies #[trigger] follows(g, r.reverse(), i) by {
                        if i > 0 {
                            assert(follows(g, q, i - 1));
                            assert(r.reverse()[i] == q[i - 1]);
                            assert(r.reverse()[i + 1] == q[i]);
                        }
                    }
                    assert forall|i: int| 0 <= i < r.reverse().len() implies #[trigger] r.reverse()[i] < g.len() by {
                        if i > 0 {
                            assert(r.reverse()[i] == q[i - 1]);
                        } else {
                            let kp = choose|kp: int| 0 <= kp < order.len() && order[kp] == par;
                            assert(order[kp] < g.len());
                        }
                    }
                    assert forall|a: int, b: int| 0 <= a < b < r.len() implies rank(order, r[a]) > rank(order, r[b]) by {
                        if b == r.len() - 1 && a < b {
                            assert(rank(order, r[a]) >= rank(order, cur));
                        }
                    }
                }
                cur = par;
            },
        }
    }
    let mut p: Vec<usize> = Vec::new();
    let mut k: usize = rev.len();
    while k > 0
        invariant
            k <= rev.len(),
            p@ =~= rev@.reverse().subrange(0, (rev.len() - k) as int),
        decreases k,
    {
        k = k - 1;
        p.push(rev[k]);
    }
    proof {
        assert(p@ =~= rev@.reverse());
        assert forall|a: int, b: int| 0 <= a < b < p@.len() implies p@[a] != p@[b] by {
            let ra = rev@.len() - 1 - a;
            let rb = rev@.len() - 1 - b;
            assert(p@[a] == rev@[ra] && p@[b] == rev@[rb]);
            assert(rank(order, rev@[rb]) > rank(order, rev@[ra]));
        }
    }
    p
}

/// Compute a path from `start` to a node for which `success` returns `true`,
/// with depth-first search that tries the successors of a node in their order.
///
/// The path holds both the start and the end node, and no node twice.
pub fn dfs<C, FS: Fn(usize) -> bool>(start: usize, successors: &[Vec<(usize, C)>], success: FS) -> (r: Option<Vec<usize>>)
    requires
        wf(adj(successors@)),
        start < successors@.len(),
        is_predicate(success),
    ensures
        match r {
            Some(p) => {
                &&& goal_path(adj(successors@), p@, start, pred_of(success))
                &&& distinct(p@)
                &&& first_found(adj(successors@), start, pred_of(success), p@[p@.len() - 1])
            },
            None => no_goal_path(adj(successors@), start, pred_of(success), 1),
        },
{
    let ghost g = adj(successors@);
    let mut to_visit: Vec<usize> = Vec::new();
    to_visit.push(start);
    let mut visited: FxSet = fx_set_new();
    let mut parents: FxMap = fx_map_new();
    let ghost mut order: Seq<usize> = Seq::empty();
    let ghost mut moves: nat = 0;
    let ghost mut base: Seq<usize> = seq![start];
    proof {
        assert(to_visit@ =~= seq![start]);
    }
    loop
        invariant
            dfs_run(g, start, moves) == (base, order),
            dfs_next(g, to_visit@, order) == dfs_next(g, base, order),
            g == adj(successors@),
            wf(g),
            start < g.len(),
            is_predicate(success),
            visited@ == order.to_set(),
            distinct(order),
            order.len() <= g.len(),
            forall|k: int| 0 <= k < order.len() ==> #[trigger] order[k] < g.len(),
            forall|k: int| 0 <= k < to_visit@.len() ==> #[trigger] to_visit@[k] < g.len(),
            order.len() == 0 ==> to_visit@ == seq![start],
            order.len() > 0 ==> order[0] == start,
            links_ok(g, order, parents@, start),
            forall|k: int| 0 <= k < to_visit@.len() && #[trigger] to_visit@[k] != start ==> parents@.contains_key(to_visit@[k]),
            forall|k: int| 0 <= k < order.len() ==> !holds(success, #[trigger] order[k]),
            forall|u: usize, v: usize| order.contains(u) && #[trigger] edge(g, u, v) ==> order.contains(v) || to_visit@.contains(v),
        decreases g.len() - order.len(), to_visit@.len(),
    {
        let ghost stack0 = to_visit@;
        let popped = to_visit.pop();
        if popped.is_none() {
            proof {
                let set = order.to_set();
                assert forall|q: Seq<usize>| #[trigger] goal_path(g, q, start, pred_of(success)) implies q.len() < 1 by {
                    assert(order.contains(start)) by { assert(order[0] == start); }
                    assert forall|u: usize, w: usize| set.contains(u) && #[trigger] edge(g, u, w) implies set.contains(w) by {}
                    assert(crate::spec::is_path_from_to(g, q, start, q[q.len() - 1]));
                    lemma_closed_reach(g, set, start, q[q.len() - 1]);
                    let k = choose|k: int| 0 <= k < order.len() && order[k] == q[q.len() - 1];
                }
            }
            return None;
        }
        let node = popped.unwrap();
        let ghost stack1 = to_visit@;
        proof {
            assert(stack0.drop_last() =~= stack1);
            assert(stack0.last() == node);
        }
        let newly = fx_set_insert(&mut visited, node);
        if newly {
            let ghost old_order = order;
            proof {
                assert(!old_order.contains(node));
                assert(dfs_run(g, start, moves + 1) == dfs_next(g, base, old_order));
            }
            proof {
                order = order.push(node);
                assert(order[order.len() - 1] == node);
                if old_order.len() == 0 {
                    assert(stack0 == seq![start]);
                    assert(node == start);
                }
                assert(order[0] == start);
                assert(order.contains(start));
                assert forall|x: usize| visited@.contains(x) <==> order.to_set().contains(x) by {
                    if x == node {
                        assert(order[order.len() - 1] == node);
                    } else if old_order.contains(x) {
                        let k = choose|k: int| 0 <= k < old_order.len() && old_order[k] == x;
                        assert(order[k] == x);
                    } else if order.contains(x) {
                        let k = choose|k: int| 0 <= k < order.len() && order[k] == x;
                        if k < old_order.len() {
                            assert(old_order[k] == x);
                        }
                    }
                }
                assert(visited@ =~= order.to_set());
                assert forall|a: int, b: int| 0 <= a < b < order.len() implies order[a] != order[b] by {
                    if b == order.len() - 1 {
                        assert(old_order.contains(old_order[a]));
                    }
                }
                lemma_seq_distinct_len(order, g.len());
                assert forall|v: usize| #[trigger] parents@.contains_key(v) implies order.contains(parents@[v]) && edge(g, parents@[v], v) by {
                    let k = choose|k: int| 0 <= k < old_order.len() && old_order[k] == parents@[v];
                    assert(order[k] == parents@[v]);
                }
                assert forall|k: int| 0 <= k < order.len() && order[k] != start implies #[trigger] parents@.contains_key(order[k])
                    && rank(order, parents@[order[k]]) < k by {
                    if k < old_order.len() {
                        assert(order[k] == old_order[k]);
                        assert(parents@.contains_key(old_order[k]));
                        let pv = parents@[old_order[k]];
                        let pk = rank(old_order, pv);
                        assert(old_order.contains(pv));
                        let pk0 = choose|pk0: int| 0 <= pk0 < old_order.len() && old_order[pk0] == pv;
                        lemma_rank(old_order, pk0);
                        assert(order[pk0] == pv);
                        lemma_rank(order, pk0);
                    } else {
                        assert(order[k] == node);
                        if old_order.len() == 0 {
                            assert(node == start);
                        }
                        assert(parents@.contains_key(node));
                        let pv = parents@[node];
                        let pk = choose|pk: int| 0 <= pk < old_order.len() && old_order[pk] == pv;
                        assert(order[pk] == pv);
                        lemma_rank(order, pk);
                    }
                }
            }
            let b = success(node);
            proof { lemma_call(success, node, b); }
            if b {
                let p = build_path::<C>(node, &parents, Ghost(g), Ghost(order), Ghost(start));
                proof {
                    let o = dfs_run(g, start, moves + 1).1;
                    assert(o == order);
                    assert forall|j: int| 0 <= j < o.len() - 1 implies !pred_of(success)(o[j]) by {
                        assert(o[j] == old_order[j]);
                    }
                    assert(first_found(g, start, pred_of(success), node));
                }
                return Some(p);
            }
            let edges = &successors[node];
            proof {
                assert(edges@ == g[node as int]);
                assert(g[node as int].subrange(edges@.len() as int, edges@.len() as int) =~= Seq::<(usize, C)>::empty());
                assert(fresh(Seq::<(usize, C)>::empty(), order) =~= Seq::<usize>::empty());
                assert(to_visit@ =~= stack1 + fresh(g[node as int].subrange(edges@.len() as int, edges@.len() as int), order).reverse());
            }
            let mut t: usize = edges.len();
            while t > 0
                invariant
                    to_visit@ == stack1 + fresh(g[node as int].subrange(t as int, edges@.len() as int), order).reverse(),
                    g == adj(successors@),
                    wf(g),
                    node < g.len(),
                    edges@ == g[node as int],
                    t <= edges.len(),
                    order.contains(node),
                    visited@ == order.to_set(),
                    start < g.len(),
                    order[0] == start,
                    order.len() > 0,
                    forall|k: int| 0 <= k < to_visit@.len() ==> #[trigger] to_visit@[k] < g.len(),
                    links_ok(g, order, parents@, start),
                    forall|k: int| 0 <= k < to_visit@.len() && #[trigger] to_visit@[k] != start ==> parents@.contains_key(to_visit@[k]),
                    forall|x: usize| stack1.contains(x) ==> to_visit@.contains(x),
                    forall|u: int| t <= u < edges@.len() ==> order.contains(#[trigger] g[node as int][u].0)
                        || to_visit@.contains(g[node as int][u].0),
                decreases t,
            {
                t = t - 1;
                let next = edges[t].0;
                proof { assert(g[node as int][t as int].0 == next); assert(edge(g, node, next)); }
                let ghost st_before = to_visit@;
                let ghost rest = fresh(g[node as int].subrange(t + 1, edges@.len() as int), order);
                assert(fresh(g[node as int].subrange(t as int, edges@.len() as int), order) == (if order.contains(next) {
                    Seq::<usize>::empty()
                } else {
                    seq![next]
                }) + rest) by {
                    let out = g[node as int];
                    let len = edges@.len() as int;
                    assert(out.subrange(t as int, len) =~= seq![out[t as int]] + out.subrange(t + 1, len));
                    lemma_fresh_concat(seq![out[t as int]], out.subrange(t + 1, len), order);
                    assert(seq![out[t as int]].drop_last() =~= Seq::<(usize, C)>::empty());
                    assert(fresh(Seq::<(usize, C)>::empty(), order) =~= Seq::<usize>::empty());
                    if order.contains(next) {
                        assert(Seq::<usize>::empty() + rest =~= rest);
                    }
                }
                if !fx_set_contains(&visited, next) {
                    let ghost st0 = to_visit@;
                    let ghost par0 = parents@;
                    fx_map_insert(&mut parents, next, node);
                    to_visit.push(next);
                    proof {
                        assert(!order.contains(next));
                        assert(next != start) by { assert(order.contains(start)) by { assert(order[0] == start); } }
                        lemma_links_insert(g, order, par0, start, next, node);
                        assert forall|k: int| 0 <= k < to_visit@.len() && #[trigger] to_visit@[k] != start implies parents@.contains_key(to_visit@[k]) by {
                            if k < st0.len() {
                                assert(to_visit@[k] == st0[k]);
                            }
                        }
                        assert forall|x: usize| stack1.contains(x) implies to_visit@.contains(x) by {
                            let k = choose|k: int| 0 <= k < st0.len() && st0[k] == x;
                            assert(to_visit@[k] == x);
                        }
                        assert forall|u: int| t <= u < edges@.len() implies order.contains(#[trigger] g[node as int][u].0)
                            || to_visit@.contains(g[node as int][u].0) by {
                            if u == t {
                                assert(to_visit@[st0.len() as int] == next);
                            } else if !order.contains(g[node as int][u].0) {
                                let k = choose|k: int| 0 <= k < st0.len() && st0[k] == g[node as int][u].0;
                                assert(to_visit@[k] == st0[k]);
                            }
                        }
                        assert forall|k: int| 0 <= k < to_visit@.len() implies #[trigger] to_visit@[k] < g.len() by {
                            if k < st0.len() {
                                assert(to_visit@[k] == st0[k]);
                            }
                        }
                    }
                }
                proof {
                    let len = edges@.len() as int;
                    let r0 = fresh(g[node as int].subrange(t as int, len), order);
                    lemma_reverse_index(rest);
                    lemma_reverse_index(r0);
                    assert(to_visit@ =~= stack1 + r0.reverse());
                }
            }
            proof {
                assert(g[node as int].subrange(0, edges@.len() as int) =~= g[node as int]);
                assert(to_visit@ == dfs_next(g, stack0, old_order).0);
                base = to_visit@;
                moves = moves + 1;
            }
            proof {
                assert forall|u: usize, v: usize| order.contains(u) && #[trigger] edge(g, u, v)
                    implies order.contains(v) || to_visit@.contains(v) by {
                    if u == node {
                        let j = choose|j: int| 0 <= j < g[node as int].len() && #[trigger] g[node as int][j].0 == v;
                    } else {
                        assert(old_order.contains(u)) by {
                            let k = choose|k: int| 0 <= k < order.len() && order[k] == u;
                            assert(k < old_order.len());
                            assert(old_order[k] == u);
                        }
                        if !order.contains(v) {
                            assert(!old_order.contains(v)) by {
                                if old_order.contains(v) {
                                    let k = choose|k: int| 0 <= k < old_order.len() && old_order[k] == v;
                                    assert(order[k] == v);
                                }
                            }
                            assert(stack0.contains(v));
                            let k = choose|k: int| 0 <= k < stack0.len() && stack0[k] == v;
                            if k < stack1.len() {
                                assert(stack1[k] == v);
                                assert(stack1.contains(v));
                            } else {
                                assert(v == node);
                            }
                        }
                    }
                }
                assert forall|k: int| 0 <= k < order.len() implies !holds(success, #[trigger] order[k]) by {
                    if k < old_order.len() {
                        assert(order[k] == old_order[k]);
                    }
                }
            }
        } else {
            proof {
                assert(order.contains(node));
                assert(dfs_next(g, stack0, order) == dfs_next(g, stack1, order));
                assert forall|u: usize, v: usize| order.contains(u) && #[trigger] edge(g, u, v)
                    implies order.contains(v) || to_visit@.contains(v) by {
                    if !order.contains(v) {
                        assert(stack0.contains(v));
                        let k = choose|k: int| 0 <= k < stack0.len() && stack0[k] == v;
                        if k < stack1.len() {
                            assert(stack1[k] == v);
                            assert(to_visit@[k] == v);
                        } else {
                            assert(v == node);
                        }
                    }
                }
                assert forall|k: int| 0 <= k < to_visit@.len() && #[trigger] to_visit@[k] != start implies parents@.contains_key(to_visit@[k]) by {
                    assert(to_visit@[k] == stack1[k]);
                }
            }
        }
    }
}

/// The targets of `out`, in their order, that are not in `seen`.
pub open spec fn fresh<C>(out: Seq<(usize, C)>, seen: Seq<usize>) -> Seq<usize>
    decreases out.len(),
{
    if out.len() == 0 {
        Seq::empty()
    } else {
        let f = fresh(out.drop_last(), seen);
        if seen.contains(out.last().0) {
            f
        } else {
            f.push(out.last().0)
        }
    }
}

/// One move of a depth-first walk that keeps a stack of nodes to see and the
/// nodes visited so far, in order: visited nodes are popped and dropped; the
/// first unvisited one is popped and visited, and its successors that are still
/// unvisited are pushed so that the first of them lies on top. An empty stack
/// stays as it is.
pub open spec fn dfs_next<C>(g: Seq<Seq<(usize, C)>>, stack: Seq<usize>, order: Seq<usize>) -> (Seq<usize>, Seq<usize>)
    decreases stack.len(),
{
    if stack.len() == 0 {
        (stack, order)
    } else {
        let n = stack.last();
        if order.contains(n) {
            dfs_next(g, stack.drop_last(), order)
        } else {
            let o = order.push(n);
            (stack.drop_last() + fresh(g[n as int], o).reverse(), o)
        }
    }
}

/// The stack and the visited nodes of a depth-first walk from `start` after
/// `k` moves.
pub open spec fn dfs_run<C>(g: Seq<Seq<(usize, C)>>, start: usize, k: nat) -> (Seq<usize>, Seq<usize>)
    decreases k,
{
    if k == 0 {
        (seq![start], Seq::empty())
    } else {
        let p = dfs_run(g, start, (k - 1) as nat);
        dfs_next(g, p.0, p.1)
    }
}

/// `v` is the first node where `pred` holds that a depth-first walk from
/// `start` visits.
pub open spec fn first_found<C>(g: Seq<Seq<(usize, C)>>, start: usize, pred: spec_fn(usize) -> bool, v: usize) -> bool {
    exists|k: nat| {
        let o = #[trigger] dfs_run(g, start, k).1;
        &&& o.len() > 0
        &&& o[o.len() - 1] == v
        &&& forall|j: int| 0 <= j < o.len() - 1 ==> !pred(o[j])
    }
}

/// The unvisited targets of a list split as those of its two parts.
proof fn lemma_fresh_concat<C>(a: Seq<(usize, C)>, b: Seq<(usize, C)>, seen: Seq<usize>)
    ensures
        fresh(a + b, seen) == fresh(a, seen) + fresh(b, seen),
    decreases b.len(),
{
    if b.len() == 0 {
        assert(a + b =~= a);
        assert(fresh(b, seen) =~= Seq::<usize>::empty());
        assert(fresh(a, seen) + fresh(b, seen) =~= fresh(a, seen));
    } else {
        lemma_fresh_concat(a, b.drop_last(), seen);
        assert((a + b).drop_last() =~= a + b.drop_last());
        assert((a + b).last() == b.last());
    }
}

/// Item `i` of a reversed sequence is item `len - 1 - i` of the sequence.
proof fn lemma_reverse_index(s: Seq<usize>)
    ensures
        s.reverse().len() == s.len(),
        forall|i: int| 0 <= i < s.len() ==> #[trigger] s.reverse()[i] == s[s.len() - 1 - i],
{
}

/// The nodes reachable from a start, handed out in depth-first order, the
/// successors of a node tried in their order.
pub struct DfsReachable<'a, C> {
    to_see: Vec<usize>,
    visited: HashSet<usize>,
    successors: &'a [Vec<(usize, C)>],
    start: Ghost<usize>,
    order: Ghost<Seq<usize>>,
}

impl<'a, C> DfsReachable<'a, C> {
    /// The graph that is walked.
    pub closed spec fn graph(&self) -> Seq<Seq<(usize, C)>> {
        adj(self.successors@)
    }

    /// The node the walk started from.
    pub closed spec fn origin(&self) -> usize {
        self.start@
    }

    /// The nodes handed out so far, in order.
    pub closed spec fn visited(&self) -> Seq<usize> {
        self.order@
    }

    /// The stack of nodes still to see, its top last.
    pub closed spec fn pending(&self) -> Seq<usize> {
        self.to_see@
    }

    /// The walk's internal invariant.
    pub closed spec fn inv(&self) -> bool {
        let g = adj(self.successors@);
        let order = self.order@;
        let st = self.to_see@;
        &&& wf(g)
        &&& self.start@ < g.len()
        &&& self.visited@ == order.to_set()
        &&& distinct(order)
        &&& order.len() <= g.len()
        &&& forall|k: int| 0 <= k < order.len() ==> #[trigger] order[k] < g.len()
        &&& forall|k: int| 0 <= k < st.len() ==> #[trigger] st[k] < g.len()
        &&& forall|k: int| 0 <= k < order.len() ==> reachable(g, self.start@, #[trigger] order[k])
        &&& forall|k: int| 0 <= k < st.len() ==> reachable(g, self.start@, #[trigger] st[k])
        &&& order.len() == 0 ==> st == seq![self.start@]
        &&& order.len() > 0 ==> order[0] == self.start@
        &&& forall|u: usize, v: usize| order.contains(u) && #[trigger] edge(g, u, v) ==> order.contains(v) || st.contains(v)
    }

    /// Hand out the next node, or `None` once every reachable node was handed out.
    pub fn next(&mut self) -> (r: Option<usize>)
        requires
            old(self).inv(),
        ensures
            final(self).inv(),
            final(self).graph() == old(self).graph(),
            final(self).origin() == old(self).origin(),
            (final(self).pending(), final(self).visited()) == dfs_next(
                old(self).graph(),
                old(self).pending(),
                old(self).visited(),
            ),
            match r {
                Some(n) => {
                    &&& final(self).visited() == old(self).visited().push(n)
                    &&& reachable(old(self).graph(), old(self).origin(), n)
                    &&& !old(self).visited().contains(n)
                },
                None => {
                    &&& final(self).visited() == old(self).visited()
                    &&& final(self).pending() == Seq::<usize>::empty()
                    &&& forall|v: usize|
                        reachable(old(self).graph(), old(self).origin(), v) <==> old(self).visited().contains(v)
                },
            },
    {
        let ghost g = adj(self.successors@);
        let ghost order = self.order@;
        loop
            invariant
                self.inv(),
                self.order@ == order,
                order == old(self).order@,
                g == adj(self.successors@),
                self.successors == old(self).successors,
                self.start == old(self).start,
                dfs_next(g, self.to_see@, order) == dfs_next(g, old(self).to_see@, order),
            decreases self.to_see@.len(),
        {
            let ghost stack0 = self.to_see@;
            let popped = self.to_see.pop();
            if popped.is_none() {
                proof {
                    let set = order.to_set();
                    assert(order.len() > 0) by {
                        if order.len() == 0 {
                            assert(stack0 == seq![self.start@]);
                        }
                    }
                    assert(set.contains(self.start@)) by { assert(order[0] == self.start@); }
                    assert forall|u: usize, w: usize| set.contains(u) && #[trigger] edge(g, u, w) implies set.contains(w) by {}
                    assert forall|v: usize| reachable(g, self.start@, v) <==> order.contains(v) by {
                        if reachable(g, self.start@, v) {
                            lemma_closed_reach(g, set, self.start@, v);
                        }
                        if order.contains(v) {
                            let k = choose|k: int| 0 <= k < order.len() && order[k] == v;
                        }
                    }
                    assert(order == old(self).order@);
                    assert(g == old(self).graph());
                    assert(self.start@ == old(self).origin());
                }
                return None;
            }
            let n = popped.unwrap();
            let ghost stack1 = self.to_see@;
            proof {
                assert(stack0 == stack1.push(n));
                assert(stack0[stack0.len() - 1] == n);
                assert(stack0.drop_last() =~= stack1);
            }
            if self.visited.contains(&n) {
                proof {
                    assert forall|u: usize, v: usize| order.contains(u) && #[trigger] edge(g, u, v)
                        implies order.contains(v) || stack1.contains(v) by {
                        if !order.contains(v) {
                            let k = choose|k: int| 0 <= k < stack0.len() && stack0[k] == v;
                            if k < stack1.len() {
                                assert(stack1[k] == v);
                            }
                        }
                    }
                    assert forall|k: int| 0 <= k < stack1.len() implies reachable(g, self.start@, #[trigger] stack1[k]) by {
                        assert(stack1[k] == stack0[k]);
                    }
                    assert forall|k: int| 0 <= k < stack1.len() implies #[trigger] stack1[k] < g.len() by {
                        assert(stack1[k] == stack0[k]);
                    }
                    assert(order.contains(n));
                }
                continue;
            }
            self.visited.insert(n);
            let ghost new_order = order.push(n);
            proof {
                assert(new_order[new_order.len() - 1] == n);
                assert(reachable(g, self.start@, stack0[stack0.len() - 1]));
                assert forall|x: usize| self.visited@.contains(x) <==> new_order.to_set().contains(x) by {
                    if x == n {
                    } else if order.contains(x) {
                        let k = choose|k: int| 0 <= k < order.len() && order[k] == x;
                        assert(new_order[k] == x);
                    } else if new_order.contains(x) {
                        let k = choose|k: int| 0 <= k < new_order.len() && new_order[k] == x;
                        if k < order.len() {
                            assert(order[k] == x);
                        }
                    }
                }
                assert(self.visited@ =~= new_order.to_set());
                assert forall|a: int, b: int| 0 <= a < b < new_order.len() implies new_order[a] != new_order[b] by {
                    if b == new_order.len() - 1 {
                        assert(order.contains(order[a]));
                    }
                }
                lemma_seq_distinct_len(new_order, g.len());
                if order.len() == 0 {
                    // Before anything was handed out, only the start was waiting.
                }
            }
            let edges = &self.successors[n];
            proof { assert(edges@ == g[n as int]); }
            let mut to_insert: Vec<usize> = Vec::new();
            let mut t: usize = 0;
            while t < edges.len()
                invariant
                    g == adj(self.successors@),
                    wf(g),
                    n < g.len(),
                    edges@ == g[n as int],
                    t <= edges.len(),
                    self.visited@ == new_order.to_set(),
                    reachable(g, self.start@, n),
                    forall|k: int| 0 <= k < to_insert@.len() ==> #[trigger] to_insert@[k] < g.len(),
                    forall|k: int| 0 <= k < to_insert@.len() ==> edge(g, n, #[trigger] to_insert@[k]),
                    forall|u: int| 0 <= u < t ==> new_order.contains(#[trigger] g[n as int][u].0)
                        || to_insert@.contains(g[n as int][u].0),
                    to_insert@ == fresh(g[n as int].take(t as int), new_order),
                decreases edges.len() - t,
            {
                let s = edges[t].0;
                proof {
                    assert(g[n as int][t as int].0 == s);
                    assert(edge(g, n, s));
                    assert(g[n as int].take(t + 1).drop_last() =~= g[n as int].take(t as int));
                    assert(g[n as int].take(t + 1).last() == g[n as int][t as int]);
                }
                if !self.visited.contains(&s) {
                    let ghost ti0 = to_insert@;
                    to_insert.push(s);
                    proof {
                        assert forall|u: int| 0 <= u < t + 1 implies new_order.contains(#[trigger] g[n as int][u].0)
                            || to_insert@.contains(g[n as int][u].0) by {
                            if u == t {
                                assert(to_insert@[ti0.len() as int] == s);
                            } else if !new_order.contains(g[n as int][u].0) {
                                let k = choose|k: int| 0 <= k < ti0.len() && ti0[k] == g[n as int][u].0;
                                assert(to_insert@[k] == ti0[k]);
                            }
                        }
                    }
                }
                t = t + 1;
            }
            proof {
                assert(g[n as int].take(edges.len() as int) =~= g[n as int]);
                assert(to_insert@.subrange(to_insert@.len() as int, to_insert@.len() as int).reverse() =~= Seq::<usize>::empty());
                assert(self.to_see@ =~= stack1 + Seq::<usize>::empty());
            }
            let mut k: usize = to_insert.len();
            while k > 0
                invariant
                    g == adj(self.successors@),
                    wf(g),
                    n < g.len(),
                    k <= to_insert@.len(),
                    reachable(g, self.start@, n),
                    forall|j: int| 0 <= j < to_insert@.len() ==> #[trigger] to_insert@[j] < g.len(),
                    forall|j: int| 0 <= j < to_insert@.len() ==> edge(g, n, #[trigger] to_insert@[j]),
                    self.to_see@.len() >= stack1.len(),
                    forall|j: int| 0 <= j < stack1.len() ==> #[trigger] self.to_see@[j] == stack1[j],
                    forall|j: int| 0 <= j < self.to_see@.len() ==> #[trigger] self.to_see@[j] < g.len(),
                    forall|j: int| 0 <= j < self.to_see@.len() ==> reachable(g, self.start@, #[trigger] self.to_see@[j]),
                    forall|j: int| k <= j < to_insert@.len() ==> self.to_see@.contains(#[trigger] to_insert@[j]),
                    self.successors == old(self).successors,
                    self.start == old(self).start,
                    self.visited@ == new_order.to_set(),
                    self.to_see@ == stack1 + to_insert@.subrange(k as int, to_insert@.len() as int).reverse(),
                decreases k,
            {
                k = k - 1;
                let ghost ts0 = self.to_see@;
                let x = to_insert[k];
                proof { lemma_reach_step(g, self.start@, n, x); }
                self.to_see.push(x);
                proof {
                    assert forall|j: int| k <= j < to_insert@.len() implies self.to_see@.contains(#[trigger] to_insert@[j]) by {
                        if j == k {
                            assert(self.to_see@[ts0.len() as int] == x);
                        } else {
                            let i = choose|i: int| 0 <= i < ts0.len() && ts0[i] == to_insert@[j];
                            assert(self.to_see@[i] == ts0[i]);
                        }
                    }
                    assert forall|j: int| 0 <= j < stack1.len() implies #[trigger] self.to_see@[j] == stack1[j] by {
                        assert(self.to_see@[j] == ts0[j]);
                    }
                    let len = to_insert@.len() as int;
                    lemma_reverse_index(to_insert@.subrange(k as int, len));
                    lemma_reverse_index(to_insert@.subrange(k + 1, len));
                    assert(self.to_see@ =~= stack1 + to_insert@.subrange(k as int, len).reverse());
                }
            }
            proof {
                self.order@ = new_order;
                let st = self.to_see@;
                assert(to_insert@.subrange(0, to_insert@.len() as int) =~= to_insert@);
                assert forall|u: usize, v: usize| new_order.contains(u) && #[trigger] edge(g, u, v)
                    implies new_order.contains(v) || st.contains(v) by {
                    if u == n {
                        let j = choose|j: int| 0 <= j < g[n as int].len() && #[trigger] g[n as int][j].0 == v;
                        if !new_order.contains(v) {
                            let i = choose|i: int| 0 <= i < to_insert@.len() && to_insert@[i] == v;
                            assert(st.contains(to_insert@[i]));
                        }
                    } else {
                        assert(order.contains(u)) by {
                            let k = choose|k: int| 0 <= k < new_order.len() && new_order[k] == u;
                            assert(order[k] == u);
                        }
                        if !new_order.contains(v) {
                            assert(!order.contains(v)) by {
                                if order.contains(v) {
                                    let k = choose|k: int| 0 <= k < order.len() && order[k] == v;
                                    assert(new_order[k] == v);
                                }
                            }
                            let k = choose|k: int| 0 <= k < stack0.len() && stack0[k] == v;
                            if k < stack1.len() {
                                assert(st[k] == stack1[k]);
                            }
                        }
                    }
                }
                assert forall|k: int| 0 <= k < new_order.len() implies reachable(g, self.start@, #[trigger] new_order[k]) by {
                    if k < order.len() {
                        assert(new_order[k] == order[k]);
                    }
                }
                assert forall|k: int| 0 <= k < new_order.len() implies #[trigger] new_order[k] < g.len() by {
                    if k < order.len() {
                        assert(new_order[k] == order[k]);
                    }
                }
                if order.len() == 0 {
                    assert(stack0 == seq![self.start@]);
                    assert(new_order[0] == n);
                    // The only node waiting before the first visit is the start.
                }
                assert(!order.contains(n));
                assert(order == old(self).order@);
                assert(g == old(self).graph());
                assert(self.start@ == old(self).origin());
                assert(reachable(g, self.start@, n));
                assert(self.inv());
            }
            return Some(n);
        }
    }
}

/// Start a depth-first walk of the nodes reachable from `start`.
pub fn dfs_reach<'a, C>(start: usize, successors: &'a [Vec<(usize, C)>]) -> (r: DfsReachable<'a, C>)
    requires
        wf(adj(successors@)),
        start < successors@.len(),
    ensures
        r.inv(),
        r.graph() == adj(successors@),
        r.origin() == start,
        r.visited().len() == 0,
        r.pending() == seq![start],
{
    let mut to_see: Vec<usize> = Vec::new();
    to_see.push(start);
    proof {
        lemma_reach_self(adj(successors@), start);
        assert(to_see@ =~= seq![start]);
    }
    let visited: HashSet<usize> = HashSet::new();
    proof {
        assert(visited@ =~= Seq::<usize>::empty().to_set());
    }
    DfsReachable { to_see, visited, successors, start: Ghost(start), order: Ghost(Seq::empty()) }
}

} // verus!
