//! Shortest paths by breadth-first search.

use vstd::prelude::*;
use crate::outside::{
    NodeMap, NodeSet, node_map_entries, node_map_get_index, node_map_get_index_of,
    node_map_insert_full, node_map_len, node_map_new, node_set_get_index, node_set_insert,
    node_set_items, node_set_len, node_set_new,
};
use crate::spec::{
    Goal, FnGoal, NodeGoal, adj, distinct, edge, goal_path, is_node, is_path, is_path_from_to, is_predicate,
    lemma_closed_reach, lemma_reach_self, lemma_reach_step, no_goal_path, pred_of, reachable,
    shortest_goal_path, follows, wf,
};

verus! {

/// The node table of a search: entry `j` holds a node and the position of the
/// entry it was reached from (`usize::MAX` for the start); `d[j]` is the number
/// of edges from the start to entry `j` along these parents.
pub open spec fn table_ok<C>(g: Seq<Seq<(usize, C)>>, e: Seq<(usize, usize)>, d: Seq<int>, start: usize) -> bool {
    &&& e.len() >= 1
    &&& e.len() == d.len()
    &&& e[0] == (start, usize::MAX)
    &&& d[0] == 0
    &&& forall|j: int| 0 <= j < e.len() ==> #[trigger] e[j].0 < g.len()
    &&& forall|j: int| 1 <= j < e.len() ==> #[trigger] parent_ok(g, e, d, j)
    &&& forall|j: int, k: int| 0 <= j < k < e.len() ==> #[trigger] e[j].0 != #[trigger] e[k].0
    &&& forall|j: int, k: int| 0 <= j <= k < e.len() ==> #[trigger] d[j] <= #[trigger] d[k]
}

/// Entry `j` was reached along an edge from an earlier entry, one edge further.
pub open spec fn parent_ok<C>(g: Seq<Seq<(usize, C)>>, e: Seq<(usize, usize)>, d: Seq<int>, j: int) -> bool {
    &&& e[j].1 < j
    &&& edge(g, e[e[j].1 as int].0, e[j].0)
    &&& d[j] == d[e[j].1 as int] + 1
}

/// Node `s` is in the table at a depth of at most `bound`.
pub open spec fn listed(e: Seq<(usize, usize)>, d: Seq<int>, s: usize, bound: int) -> bool {
    exists|k: int| 0 <= k < e.len() && #[trigger] e[k].0 == s && d[k] <= bound
}

/// Every successor of entry `j` fails `f` and is listed at most one edge deeper.
pub open spec fn expanded<C>(
    g: Seq<Seq<(usize, C)>>,
    e: Seq<(usize, usize)>,
    d: Seq<int>,
    f: spec_fn(usize) -> bool,
    j: int,
) -> bool {
    forall|s: usize| #[trigger] edge(g, e[j].0, s) ==> !f(s) && listed(e, d, s, d[j] + 1)
}

/// The nodes of the parent chain that ends at entry `i`, from the root.
pub open spec fn chain(e: Seq<(usize, usize)>, i: int) -> Seq<usize>
    decreases i,
{
    if i <= 0 || e[i].1 >= i {
        seq![e[i].0]
    } else {
        chain(e, e[i].1 as int).push(e[i].0)
    }
}

/// A node listed in a table stays listed when an entry is appended.
proof fn lemma_listed_push(e: Seq<(usize, usize)>, d: Seq<int>, s: usize, bound: int, x: (usize, usize), dx: int)
    requires
        listed(e, d, s, bound),
        e.len() == d.len(),
    ensures
        listed(e.push(x), d.push(dx), s, bound),
{
    let k = choose|k: int| 0 <= k < e.len() && #[trigger] e[k].0 == s && d[k] <= bound;
    assert(e.push(x)[k].0 == s);
}

/// An expanded entry stays expanded when an entry is appended.
proof fn lemma_expanded_push<C>(
    g: Seq<Seq<(usize, C)>>,
    e: Seq<(usize, usize)>,
    d: Seq<int>,
    f: spec_fn(usize) -> bool,
    j: int,
    x: (usize, usize),
    dx: int,
)
    requires
        0 <= j < e.len(),
        e.len() == d.len(),
        expanded(g, e, d, f, j),
    ensures
        expanded(g, e.push(x), d.push(dx), f, j),
{
    assert forall|s: usize| #[trigger] edge(g, e.push(x)[j].0, s) implies !f(s) && listed(
        e.push(x),
        d.push(dx),
        s,
        d.push(dx)[j] + 1,
    ) by {
        assert(e.push(x)[j] == e[j]);
        assert(edge(g, e[j].0, s));
        lemma_listed_push(e, d, s, d[j] + 1, x, dx);
    }
}

/// The parent chain of entry `i` is a path from the start to that entry's node,
/// with `d[i] + 1` distinct nodes, each of an entry at or before `i`.
proof fn lemma_chain<C>(g: Seq<Seq<(usize, C)>>, e: Seq<(usize, usize)>, d: Seq<int>, start: usize, i: int)
    requires
        table_ok(g, e, d, start),
        0 <= i < e.len(),
    ensures
        is_path(g, chain(e, i)),
        chain(e, i)[0] == start,
        chain(e, i).len() == d[i] + 1,
        chain(e, i)[chain(e, i).len() - 1] == e[i].0,
        distinct(chain(e, i)),
        forall|t: int| #![trigger chain(e, i)[t]] 0 <= t < chain(e, i).len() ==> exists|k: int| 0 <= k <= i && #[trigger] e[k].0 == chain(e, i)[t],
    decreases i,
{
    if i <= 0 {
        assert(chain(e, i) =~= seq![start]);
        assert(e[0].0 == chain(e, i)[0]);
    } else {
        assert(parent_ok(g, e, d, i));
        let p = e[i].1 as int;
        lemma_chain(g, e, d, start, p);
        let c = chain(e, p);
        let c2 = chain(e, i);
        assert(c2 == c.push(e[i].0));
        assert forall|t: int| #![trigger c2[t]] 0 <= t < c2.len() implies exists|k: int| 0 <= k <= i && #[trigger] e[k].0 == c2[t] by {
            if t < c.len() {
                assert(c2[t] == c[t]);
                let k = choose|k: int| 0 <= k <= p && #[trigger] e[k].0 == c[t];
                assert(e[k].0 == c2[t]);
            } else {
                assert(e[i].0 == c2[t]);
            }
        }
        assert forall|a: int, b: int| 0 <= a < b < c2.len() implies c2[a] != c2[b] by {
            if b < c.len() {
            } else {
                let k = choose|k: int| 0 <= k <= p && #[trigger] e[k].0 == c[a];
                assert(e[k].0 != e[i].0);
            }
        }
        assert forall|t: int| 0 <= t < c2.len() - 1 implies #[trigger] follows(g, c2, t) by {
            if t < c.len() - 1 {
                assert(follows(g, c, t));
            } else {
                assert(c2[t] == e[p].0);
            }
        }
        assert forall|t: int| 0 <= t < c2.len() implies #[trigger] c2[t] < g.len() by {
            if t < c.len() {
                assert(c2[t] == c[t]);
            }
        }
    }
}

/// Every node on a path from the start, up to a bound, is listed no deeper than
/// its position and (past the start) fails `f`, while the entries before `i` are
/// expanded.
proof fn lemma_cover<C>(
    g: Seq<Seq<(usize, C)>>,
    e: Seq<(usize, usize)>,
    d: Seq<int>,
    start: usize,
    f: spec_fn(usize) -> bool,
    i: int,
    q: Seq<usize>,
    t: int,
)
    requires
        table_ok(g, e, d, start),
        0 <= i <= e.len(),
        forall|j: int| 0 <= j < i ==> #[trigger] expanded(g, e, d, f, j),
        is_path(g, q),
        q[0] == start,
        0 <= t < q.len(),
        i == e.len() || t <= d[i],
    ensures
        listed(e, d, q[t], t),
        t >= 1 ==> !f(q[t]),
    decreases t,
{
    if t == 0 {
        assert(e[0].0 == q[0]);
    } else {
        lemma_cover(g, e, d, start, f, i, q, t - 1);
        let k = choose|k: int| 0 <= k < e.len() && #[trigger] e[k].0 == q[t - 1] && d[k] <= t - 1;
        if k >= i {
            assert(d[i] <= d[k]);
        }
        assert(expanded(g, e, d, f, k));
        assert(follows(g, q, t - 1));
        assert(edge(g, e[k].0, q[t]));
        let k2 = choose|k2: int| 0 <= k2 < e.len() && #[trigger] e[k2].0 == q[t] && d[k2] <= d[k] + 1;
        assert(e[k2].0 == q[t] && d[k2] <= t);
    }
}

/// Walk the parents of entry `i` back to the start and return the nodes from the
/// start to entry `i`.
fn reverse_path(parents: &NodeMap, i: usize) -> (path: Vec<usize>)
    requires
        i < node_map_entries(*parents).len(),
        forall|j: int|
            1 <= j < node_map_entries(*parents).len() ==> (#[trigger] node_map_entries(*parents)[j]).1 < j,
        node_map_entries(*parents)[0].1 == usize::MAX,
    ensures
        path@ == chain(node_map_entries(*parents), i as int),
{
    let ghost e = node_map_entries(*parents);
    let mut rev: Vec<usize> = Vec::new();
    let mut idx: usize = i;
    loop
        invariant_except_break
            chain(e, i as int) == chain(e, idx as int) + rev@.reverse(),
        invariant
            e == node_map_entries(*parents),
            idx < e.len(),
            i < e.len(),
            forall|j: int| 1 <= j < e.len() ==> (#[trigger] e[j]).1 < j,
            e[0].1 == usize::MAX,
        ensures
            chain(e, i as int) == rev@.reverse(),
        decreases idx,
    {
        let (node, parent) = node_map_get_index(parents, idx).unwrap();
        let ghost old_rev = rev@;
        rev.push(node);
        assert(rev@.reverse() =~= seq![node] + old_rev.reverse());
        if parent == usize::MAX {
            assert(idx == 0 || e[idx as int].1 < idx);
            assert(chain(e, idx as int) == seq![node]);
            assert(chain(e, i as int) =~= rev@.reverse());
            break;
        }
        assert(idx > 0) by {
            if idx == 0 {
                assert(e[0].1 == usize::MAX);
            }
        }
        assert(chain(e, idx as int) == chain(e, parent as int).push(node));
        assert(chain(e, i as int) =~= chain(e, parent as int) + rev@.reverse());
        idx = parent;
    }
    let mut path: Vec<usize> = Vec::new();
    let mut k: usize = rev.len();
    while k > 0
        invariant
            k <= rev.len(),
            path@ =~= rev@.reverse().subrange(0, (rev.len() - k) as int),
        decreases k,
    {
        k = k - 1;
        path.push(rev[k]);
    }
    assert(path@ =~= rev@.reverse());
    path
}

/// Breadth-first search from `start` over the adjacency lists `successors`.
///
/// With `check_first`, a start where `success` holds is itself the answer; without
/// it, the answer is a path of at least one edge.
fn bfs_core<C, G: Goal>(
    start: usize,
    successors: &[Vec<(usize, C)>],
    goal: &G,
    check_first: bool,
) -> (r: Option<Vec<usize>>)
    requires
        wf(adj(successors@)),
        start < successors@.len(),
        goal.ready(),
    ensures
        match r {
            Some(p) => {
                &&& shortest_goal_path(adj(successors@), p@, start, goal.pred(), if check_first { 1 } else { 2 })
                &&& distinct(p@.drop_last())
                &&& check_first ==> distinct(p@)
            },
            None => no_goal_path(adj(successors@), start, goal.pred(), if check_first { 1 } else { 2 }),
        },
{
    let ghost g = adj(successors@);
    let ghost min: int = if check_first { 1 } else { 2 };
    if check_first {
        let b = goal.test(start);
        if b {
            let mut p = Vec::new();
            p.push(start);
            proof {
                assert(is_path(g, p@));
                assert forall|q: Seq<usize>| #[trigger] goal_path(g, q, start, goal.pred()) && q.len() >= min
                    implies q.len() >= p@.len() by {}
            }
            return Some(p);
        }
    }
    let mut parents: NodeMap = node_map_new();
    node_map_insert_full(&mut parents, start, usize::MAX);
    let ghost mut d: Seq<int> = seq![0];
    assert(node_map_entries(parents) =~= seq![(start, usize::MAX)]);
    let mut i: usize = 0;
    loop
        invariant
            g == adj(successors@),
            wf(g),
            goal.ready(),
            table_ok(g, node_map_entries(parents), d, start),
            i <= node_map_entries(parents).len(),
            forall|j: int| 0 <= j < i ==> #[trigger] expanded(g, node_map_entries(parents), d, goal.pred(), j),
            i < node_map_entries(parents).len() ==> forall|k: int|
                0 <= k < d.len() ==> #[trigger] d[k] <= d[i as int] + 1,
            forall|j: int| 1 <= j < node_map_entries(parents).len() ==> !(goal.pred())(#[trigger] node_map_entries(parents)[j].0),
            check_first ==> !(goal.pred())(start),
            min == if check_first { 1int } else { 2int },
        decreases g.len() - i,
    {
        let ghost e0 = node_map_entries(parents);
        let entry = node_map_get_index(&parents, i);
        if entry.is_none() {
            // Every entry is expanded: no node reachable from the start succeeds.
            proof {
                assert forall|q: Seq<usize>| #[trigger] goal_path(g, q, start, goal.pred()) implies q.len() < min by {
                    if q.len() >= min {
                        lemma_cover(g, e0, d, start, goal.pred(), i as int, q, q.len() - 1);
                        if q.len() == 1 {
                            let k = choose|k: int| 0 <= k < e0.len() && #[trigger] e0[k].0 == q[0] && d[k] <= 0;
                        }
                    }
                }
            }
            return None;
        }
        let (node, _) = entry.unwrap();
        let edges = &successors[node];
        assert(edges@ == g[node as int]);
        let mut t: usize = 0;
        while t < edges.len()
            invariant
                g == adj(successors@),
                wf(g),
                goal.ready(),
                edges@ == g[node as int],
                node == node_map_entries(parents)[i as int].0,
                node < g.len(),
                table_ok(g, node_map_entries(parents), d, start),
                i < node_map_entries(parents).len(),
                e0.len() <= node_map_entries(parents).len(),
                forall|j: int| 0 <= j < e0.len() ==> node_map_entries(parents)[j] == #[trigger] e0[j],
                forall|j: int| 0 <= j < i ==> #[trigger] expanded(g, node_map_entries(parents), d, goal.pred(), j),
                forall|k: int| 0 <= k < d.len() ==> #[trigger] d[k] <= d[i as int] + 1,
                forall|j: int| 1 <= j < node_map_entries(parents).len() ==> !(goal.pred())(#[trigger] node_map_entries(parents)[j].0),
                check_first ==> !(goal.pred())(start),
                forall|u: int| 0 <= u < t ==> !(goal.pred())(#[trigger] g[node as int][u].0) && listed(
                    node_map_entries(parents),
                    d,
                    g[node as int][u].0,
                    d[i as int] + 1,
                ),
                min == if check_first { 1int } else { 2int },
                t <= edges.len(),
            decreases edges.len() - t,
        {
            let s = edges[t].0;
            let ghost e1 = node_map_entries(parents);
            let b = goal.test(s);
            if b {
                proof {
                    assert forall|j: int| 1 <= j < e1.len() implies (#[trigger] e1[j]).1 < j by {
                        assert(parent_ok(g, e1, d, j));
                    }
                }
                let mut path = reverse_path(&parents, i);
                proof { lemma_chain(g, e1, d, start, i as int); }
                let ghost c = path@;
                path.push(s);
                proof {
                    let p = path@;
                    assert(p == c.push(s));
                    assert(edge(g, node, s));
                    assert forall|k: int| 0 <= k < p.len() - 1 implies #[trigger] follows(g, p, k) by {
                        if k < c.len() - 1 {
                            assert(follows(g, c, k));
                        } else {
                            assert(p[k] == node);
                        }
                    }
                    assert forall|k: int| 0 <= k < p.len() implies #[trigger] p[k] < g.len() by {
                        if k < c.len() {
                            assert(p[k] == c[k]);
                        }
                    }
                    assert(is_path(g, p));
                    assert(p.drop_last() =~= c);
                    // Optimality.
                    assert forall|q: Seq<usize>| #[trigger] goal_path(g, q, start, goal.pred()) && q.len() >= min
                        implies q.len() >= p.len() by {
                        if q.len() < p.len() {
                            let m = q.len() - 1;
                            assert(m <= d[i as int]);
                            lemma_cover(g, e1, d, start, goal.pred(), i as int, q, m);
                            if m == 0 {
                                assert(check_first);
                            }
                        }
                    }
                    if check_first {
                        assert forall|a: int, bb: int| 0 <= a < bb < p.len() implies p[a] != p[bb] by {
                            if bb == p.len() - 1 {
                                let k = choose|k: int| 0 <= k <= i && #[trigger] e1[k].0 == c[a];
                                if k == 0 {
                                    assert(e1[0].0 == start);
                                }
                            }
                        }
                    }
                }
                return Some(path);
            }
            let found = node_map_get_index_of(&parents, s);
            if found.is_none() {
                let ghost dn = d[i as int] + 1;
                proof {
                    assert forall|j: int| 0 <= j < i implies #[trigger] expanded(
                        g,
                        e1.push((s, i)),
                        d.push(dn),
                        goal.pred(),
                        j,
                    ) by {
                        lemma_expanded_push(g, e1, d, goal.pred(), j, (s, i), dn);
                    }
                    assert forall|u: int| 0 <= u < t implies listed(
                        e1.push((s, i)),
                        d.push(dn),
                        #[trigger] g[node as int][u].0,
                        d[i as int] + 1,
                    ) by {
                        lemma_listed_push(e1, d, g[node as int][u].0, d[i as int] + 1, (s, i), dn);
                    }
                }
                let ins = node_map_insert_full(&mut parents, s, i);
                let ghost d1 = d;
                proof {
                    if ins.1.is_some() {
                        assert(e1[ins.0 as int].0 == s);
                    }
                    d = d.push(dn);
                    let e2 = node_map_entries(parents);
                    assert(e2 == e1.push((s, i)));
                    assert(edge(g, node, s));
                    assert(parent_ok(g, e2, d, e1.len() as int));
                    assert forall|j: int| 1 <= j < e2.len() implies #[trigger] parent_ok(g, e2, d, j) by {
                        if j < e1.len() {
                            assert(parent_ok(g, e1, d1, j));
                            assert(e2[j] == e1[j]);
                            assert(e2[e2[j].1 as int] == e1[e1[j].1 as int]);
                        }
                    }
                    assert(e2[e1.len() as int].0 == s);
                    assert(listed(e2, d, s, d[i as int] + 1));
                    assert forall|j: int, k: int| 0 <= j <= k < d.len() implies #[trigger] d[j] <= #[trigger] d[k] by {
                        if k == d.len() - 1 && j < k {
                            assert(d[j] == d1[j]);
                        }
                    }
                    assert(table_ok(g, e2, d, start));
                }
            } else {
                proof {
                    let k = found.unwrap() as int;
                    assert(e1[k].0 == s);
                    if d[k] > d[i as int] + 1 {
                        assert(false);
                    }
                    assert(listed(e1, d, s, d[i as int] + 1));
                }
            }
            t = t + 1;
        }
        proof {
            let e2 = node_map_entries(parents);
            assert forall|s: usize| #[trigger] edge(g, e2[i as int].0, s) implies !(goal.pred())(s) && listed(
                e2,
                d,
                s,
                d[i as int] + 1,
            ) by {
                let u = choose|u: int| 0 <= u < g[node as int].len() && #[trigger] g[node as int][u].0 == s;
            }
            assert(expanded(g, e2, d, goal.pred(), i as int));
            if i + 1 < e2.len() {
                assert(d[i as int] <= d[i + 1]);
            }
            assert(e2.len() <= g.len()) by {
                lemma_table_len(g, e2, d, start);
            }
        }
        i = i + 1;
    }
}

/// The table of a search holds distinct nodes of `g`, so at most `g.len()` of them.
proof fn lemma_table_len<C>(g: Seq<Seq<(usize, C)>>, e: Seq<(usize, usize)>, d: Seq<int>, start: usize)
    requires
        table_ok(g, e, d, start),
    ensures
        e.len() <= g.len(),
{
    let keys = Seq::new(e.len(), |j: int| e[j].0 as int);
    let s = keys.to_set();
    assert forall|j: int, k: int| 0 <= j < k < keys.len() implies keys[j] != keys[k] by {
        assert(e[j].0 != e[k].0);
    }
    keys.unique_seq_to_set();
    let all = vstd::set_lib::set_int_range(0, g.len() as int);
    assert forall|x: int| s.contains(x) implies all.contains(x) by {
        let j = choose|j: int| 0 <= j < keys.len() && keys[j] == x;
        assert(e[j].0 < g.len());
    }
    vstd::set_lib::lemma_int_range(0, g.len() as int);
    vstd::set_lib::lemma_len_subset(s, all);
}

/// Compute a shortest path from `start` to a node for which `success` returns
/// `true`, with breadth-first search over the adjacency lists `successors`.
///
/// The path holds both the start and the end node, and no node twice; a start
/// where `success` holds is a path of its own.
pub fn bfs<C, FS: Fn(usize) -> bool>(start: usize, successors: &[Vec<(usize, C)>], success: FS) -> (r: Option<Vec<usize>>)
    requires
        wf(adj(successors@)),
        start < successors@.len(),
        is_predicate(success),
    ensures
        match r {
            Some(p) => shortest_goal_path(adj(successors@), p@, start, pred_of(success), 1) && distinct(p@),
            None => no_goal_path(adj(successors@), start, pred_of(success), 1),
        },
{
    let goal = FnGoal { f: success };
    bfs_core(start, successors, &goal, true)
}

/// Return one of the shortest loops from `start` back to `start`, if there is one.
///
/// The loop holds `start` at both ends and no other node twice.
pub fn bfs_loop<C>(start: usize, successors: &[Vec<(usize, C)>]) -> (r: Option<Vec<usize>>)
    requires
        wf(adj(successors@)),
        start < successors@.len(),
    ensures
        match r {
            Some(p) => shortest_goal_path(adj(successors@), p@, start, is_node(start), 2) && distinct(p@.drop_last()),
            None => no_goal_path(adj(successors@), start, is_node(start), 2),
        },
{
    let goal = NodeGoal { node: start };
    bfs_core(start, successors, &goal, false)
}

/// `items` followed by the targets of `out`, in their order, each one that is
/// not yet there.
pub open spec fn add_new<C>(items: Seq<usize>, out: Seq<(usize, C)>) -> Seq<usize>
    decreases out.len(),
{
    if out.len() == 0 {
        items
    } else {
        let a = add_new(items, out.drop_last());
        if a.contains(out.last().0) {
            a
        } else {
            a.push(out.last().0)
        }
    }
}

/// The nodes that a breadth-first walk from `start` has discovered once the
/// first `i` of them were expanded: the walk starts from `start` alone, and
/// expanding the next discovered node appends its successors, in the order of
/// its list, that were not discovered yet.
pub open spec fn bfs_discovered<C>(g: Seq<Seq<(usize, C)>>, start: usize, i: nat) -> Seq<usize>
    decreases i,
{
    if i == 0 {
        seq![start]
    } else {
        let s = bfs_discovered(g, start, (i - 1) as nat);
        if i - 1 < s.len() {
            add_new(s, g[s[i - 1] as int])
        } else {
            s
        }
    }
}

/// Breadth-first order from `start`: the order in which the walk above
/// discovers, and so visits, the nodes (it has expanded them all after as
/// many steps as `g` has nodes).
pub open spec fn bfs_order<C>(g: Seq<Seq<(usize, C)>>, start: usize) -> Seq<usize> {
    bfs_discovered(g, start, g.len())
}

/// Appending new targets keeps what was there in front.
pub proof fn lemma_add_new_prefix<C>(items: Seq<usize>, out: Seq<(usize, C)>)
    ensures
        add_new(items, out).len() >= items.len(),
        forall|k: int| 0 <= k < items.len() ==> #[trigger] add_new(items, out)[k] == items[k],
    decreases out.len(),
{
    if out.len() > 0 {
        lemma_add_new_prefix(items, out.drop_last());
    }
}

/// What the walk discovered after `i` steps stays in front after `j >= i` steps.
pub proof fn lemma_discovered_prefix<C>(g: Seq<Seq<(usize, C)>>, start: usize, i: nat, j: nat)
    requires
        i <= j,
    ensures
        bfs_discovered(g, start, j).len() >= bfs_discovered(g, start, i).len(),
        forall|k: int|
            0 <= k < bfs_discovered(g, start, i).len() ==> #[trigger] bfs_discovered(g, start, j)[k]
                == bfs_discovered(g, start, i)[k],
    decreases j - i,
{
    if i < j {
        lemma_discovered_prefix(g, start, i, (j - 1) as nat);
        let s = bfs_discovered(g, start, (j - 1) as nat);
        if j - 1 < s.len() {
            lemma_add_new_prefix(s, g[s[j - 1] as int]);
        }
    }
}

/// Once every discovered node was expanded, nothing changes any more.
pub proof fn lemma_discovered_stable<C>(g: Seq<Seq<(usize, C)>>, start: usize, i: nat, j: nat)
    requires
        i <= j,
        bfs_discovered(g, start, i).len() <= i,
    ensures
        bfs_discovered(g, start, j) == bfs_discovered(g, start, i),
    decreases j - i,
{
    if i < j {
        lemma_discovered_stable(g, start, i, (j - 1) as nat);
    }
}

/// The nodes reachable from a start, handed out in breadth-first order.
pub struct BfsReachable<'a, C> {
    i: usize,
    seen: NodeSet,
    successors: &'a [Vec<(usize, C)>],
    start: usize,
}

impl<'a, C> BfsReachable<'a, C> {
    /// The graph that is walked.
    pub closed spec fn graph(&self) -> Seq<Seq<(usize, C)>> {
        adj(self.successors@)
    }

    /// The node the walk started from.
    pub closed spec fn origin(&self) -> usize {
        self.start
    }

    /// The nodes handed out so far, in order.
    pub closed spec fn visited(&self) -> Seq<usize> {
        node_set_items(self.seen).take(self.i as int)
    }

    /// The walk's internal invariant.
    pub closed spec fn inv(&self) -> bool {
        let g = adj(self.successors@);
        let items = node_set_items(self.seen);
        &&& wf(g)
        &&& self.start < g.len()
        &&& items.len() >= 1
        &&& items[0] == self.start
        &&& self.i <= items.len()
        &&& items.len() <= g.len()
        &&& forall|k: int| 0 <= k < items.len() ==> #[trigger] items[k] < g.len()
        &&& forall|k: int| 0 <= k < items.len() ==> reachable(g, self.start, #[trigger] items[k])
        &&& forall|a: int, b: int| 0 <= a < b < items.len() ==> #[trigger] items[a] != #[trigger] items[b]
        &&& forall|k: int, v: usize|
            0 <= k < self.i && #[trigger] edge(g, items[k], v) ==> items.contains(v)
        &&& items == bfs_discovered(g, self.start, self.i as nat)
    }

    /// Hand out the next node, or `None` once every reachable node was handed out.
    pub fn next(&mut self) -> (r: Option<usize>)
        requires
            old(self).inv(),
        ensures
            final(self).inv(),
            final(self).graph() == old(self).graph(),
            final(self).origin() == old(self).origin(),
            final(self).visited() == bfs_order(final(self).graph(), final(self).origin()).take(
                final(self).visited().len() as int,
            ),
            match r {
                Some(n) => {
                    &&& final(self).visited() == old(self).visited().push(n)
                    &&& n == bfs_order(old(self).graph(), old(self).origin())[old(self).visited().len() as int]
                    &&& reachable(old(self).graph(), old(self).origin(), n)
                    &&& !old(self).visited().contains(n)
                },
                None => {
                    &&& final(self).visited() == old(self).visited()
                    &&& old(self).visited() == bfs_order(old(self).graph(), old(self).origin())
                    &&& forall|v: usize|
                        reachable(old(self).graph(), old(self).origin(), v) <==> old(self).visited().contains(v)
                },
            },
    {
        let ghost g = adj(self.successors@);
        let ghost items0 = node_set_items(self.seen);
        let ghost succ0 = self.successors;
        let ghost start0 = self.start;
        let ghost i0 = self.i;
        let got = node_set_get_index(&self.seen, self.i);
        if got.is_none() {
            {
                proof {
                    assert(items0.take(self.i as int) =~= items0);
                    lemma_discovered_stable(g, self.start, self.i as nat, g.len());
                    let set = items0.to_set();
                    assert forall|u: usize, w: usize| set.contains(u) && #[trigger] edge(g, u, w) implies set.contains(w) by {
                        let k = choose|k: int| 0 <= k < items0.len() && items0[k] == u;
                        assert(edge(g, items0[k], w));
                    }
                    assert forall|v: usize| reachable(g, self.start, v) <==> items0.contains(v) by {
                        if reachable(g, self.start, v) {
                            assert(set.contains(items0[0]));
                            lemma_closed_reach(g, set, self.start, v);
                        }
                        if items0.contains(v) {
                            let k = choose|k: int| 0 <= k < items0.len() && items0[k] == v;
                        }
                    }
                }
                return None;
            }
        }
        {
            {
                let n = got.unwrap();
                proof {
                    assert(n < g.len());
                    assert(self.successors@[n as int]@ == g[n as int]);
                }
                let edges = &self.successors[n];
                let mut t: usize = 0;
                while t < edges.len()
                    invariant
                        self.successors == succ0,
                        self.start == start0,
                        self.i == i0,
                        g == adj(self.successors@),
                        wf(g),
                        self.start < g.len(),
                        n < g.len(),
                        edges@ == g[n as int],
                        n == items0[self.i as int],
                        self.i < items0.len(),
                        node_set_items(self.seen).len() >= items0.len(),
                        forall|k: int| 0 <= k < items0.len() ==> #[trigger] node_set_items(self.seen)[k] == items0[k],
                        node_set_items(self.seen).len() <= g.len(),
                        forall|k: int| 0 <= k < node_set_items(self.seen).len() ==> #[trigger] node_set_items(self.seen)[k] < g.len(),
                        forall|k: int|
                            0 <= k < node_set_items(self.seen).len() ==> reachable(g, self.start, #[trigger] node_set_items(self.seen)[k]),
                        forall|a: int, b: int|
                            0 <= a < b < node_set_items(self.seen).len() ==> #[trigger] node_set_items(self.seen)[a]
                                != #[trigger] node_set_items(self.seen)[b],
                        forall|k: int, v: usize|
                            0 <= k < self.i && #[trigger] edge(g, items0[k], v) ==> node_set_items(self.seen).contains(v),
                        forall|u: int| 0 <= u < t ==> node_set_items(self.seen).contains(#[trigger] g[n as int][u].0),
                        t <= edges.len(),
                        items0 == bfs_discovered(g, self.start, self.i as nat),
                        node_set_items(self.seen) == add_new(items0, g[n as int].take(t as int)),
                    decreases edges.len() - t,
                {
                    let s = edges[t].0;
                    let ghost before = node_set_items(self.seen);
                    proof {
                        assert(g[n as int][t as int].0 == s);
                        assert(edge(g, n, s));
                        assert(reachable(g, self.start, node_set_items(self.seen)[self.i as int]));
                        lemma_reach_step(g, self.start, n, s);
                    }
                    let added = node_set_insert(&mut self.seen, s);
                    proof {
                        let after = node_set_items(self.seen);
                        assert(g[n as int].take(t + 1).drop_last() =~= g[n as int].take(t as int));
                        assert(g[n as int].take(t + 1).last() == g[n as int][t as int]);
                        if added {
                            assert(after == before.push(s));
                            assert forall|k: int, v: usize|
                                0 <= k < self.i && #[trigger] edge(g, items0[k], v) implies after.contains(v) by {
                                let j = choose|j: int| 0 <= j < before.len() && before[j] == v;
                                assert(after[j] == v);
                            }
                            assert forall|u: int| 0 <= u < t + 1 implies after.contains(#[trigger] g[n as int][u].0) by {
                                if u < t {
                                    let j = choose|j: int| 0 <= j < before.len() && before[j] == g[n as int][u].0;
                                    assert(after[j] == g[n as int][u].0);
                                } else {
                                    assert(after[before.len() as int] == s);
                                }
                            }
                            lemma_seq_distinct_len(after, g.len());
                        }
                    }
                    t = t + 1;
                }
                proof {
                    let items = node_set_items(self.seen);
                    assert(g[n as int].take(edges.len() as int) =~= g[n as int]);
                    assert(items == bfs_discovered(g, self.start, (self.i + 1) as nat));
                    lemma_discovered_prefix(g, self.start, (self.i + 1) as nat, g.len());
                    assert(items.take(self.i + 1) =~= bfs_order(g, self.start).take(self.i + 1));
                    assert forall|k: int, v: usize| 0 <= k < self.i + 1 && #[trigger] edge(g, items[k], v) implies items.contains(v) by {
                        assert(items[k] == items0[k]);
                        if k == self.i {
                            let u = choose|u: int| 0 <= u < g[n as int].len() && #[trigger] g[n as int][u].0 == v;
                        }
                    }
                    assert(items.take(self.i + 1) =~= items0.take(self.i as int).push(n));
                    assert(!items0.take(self.i as int).contains(n)) by {
                        if items0.take(self.i as int).contains(n) {
                            let j = choose|j: int| 0 <= j < self.i && items0.take(self.i as int)[j] == n;
                            assert(items0[j] == items0[self.i as int]);
                        }
                    }
                }
                self.i = self.i + 1;
                Some(n)
            }
        }
    }
}

/// Start a breadth-first walk of the nodes reachable from `start`.
pub fn bfs_reach<'a, C>(start: usize, successors: &'a [Vec<(usize, C)>]) -> (r: BfsReachable<'a, C>)
    requires
        wf(adj(successors@)),
        start < successors@.len(),
    ensures
        r.inv(),
        r.graph() == adj(successors@),
        r.origin() == start,
        r.visited().len() == 0,
        r.visited() == bfs_order(r.graph(), r.origin()).take(0),
{
    let mut seen = node_set_new();
    node_set_insert(&mut seen, start);
    proof {
        lemma_reach_self(adj(successors@), start);
        assert(node_set_items(seen) =~= seq![start]);
    }
    BfsReachable { i: 0, seen, successors, start }
}

/// Mark the nodes that `start` reaches: slot `v` of the result is `true`
/// exactly when `v` is reachable from `start`.
pub fn reachable_marks<C>(start: usize, successors: &[Vec<(usize, C)>]) -> (r: Vec<bool>)
    requires
        wf(adj(successors@)),
        start < successors@.len(),
    ensures
        r@.len() == successors@.len(),
        forall|v: usize| v < successors@.len() ==> (r@[v as int] <==> reachable(adj(successors@), start, v)),
{
    let ghost g = adj(successors@);
    let n = successors.len();
    let mut marks: Vec<bool> = Vec::new();
    let mut i: usize = 0;
    while i < n
        invariant
            i <= n,
            marks@.len() == i,
            forall|v: int| 0 <= v < i ==> !#[trigger] marks@[v],
        decreases n - i,
    {
        marks.push(false);
        i = i + 1;
    }
    let mut it = bfs_reach(start, successors);
    let ghost mut count: nat = 0;
    let mut over = false;
    while !over
        invariant
            it.inv(),
            it.graph() == g,
            it.origin() == start,
            n == g.len(),
            marks@.len() == n,
            count == it.visited().len(),
            count <= n,
            forall|a: int, b: int| 0 <= a < b < it.visited().len() ==> #[trigger] it.visited()[a] != #[trigger] it.visited()[b],
            forall|k: int| 0 <= k < it.visited().len() ==> #[trigger] it.visited()[k] < n,
            forall|v: usize| v < n ==> (marks@[v as int] <==> it.visited().contains(v)),
            over ==> forall|v: usize| reachable(g, start, v) <==> it.visited().contains(v),
        decreases n - count, if over { 0int } else { 1int },
    {
        let ghost vis0 = it.visited();
        match it.next() {
            Some(x) => {
                proof {
                    let p = choose|p: Seq<usize>| #[trigger] is_path_from_to(g, p, start, x);
                    assert(p[p.len() - 1] < g.len());
                }
                marks.set(x, true);
                proof {
                    count = count + 1;
                    let vis = it.visited();
                    assert(vis == vis0.push(x));
                    assert forall|v: usize| v < n implies (marks@[v as int] <==> vis.contains(v)) by {
                        if v == x {
                            assert(vis[vis0.len() as int] == x);
                        } else if vis.contains(v) {
                            let k = choose|k: int| 0 <= k < vis.len() && vis[k] == v;
                            assert(k < vis0.len());
                            assert(vis0[k] == v);
                        } else if vis0.contains(v) {
                            let k = choose|k: int| 0 <= k < vis0.len() && vis0[k] == v;
                            assert(vis[k] == v);
                        }
                    }
                    assert forall|a: int, b: int| 0 <= a < b < vis.len() implies #[trigger] vis[a] != #[trigger] vis[b] by {
                        if b == vis0.len() {
                            assert(vis0.contains(vis0[a]));
                        } else {
                            assert(vis[a] == vis0[a] && vis[b] == vis0[b]);
                        }
                    }
                    assert forall|k: int| 0 <= k < vis.len() implies #[trigger] vis[k] < n by {
                        if k < vis0.len() {
                            assert(vis[k] == vis0[k]);
                        }
                    }
                    lemma_seq_distinct_len(vis, n as nat);
                }
            },
            None => {
                over = true;
            },
        }
    }
    proof {
        assert forall|v: usize| v < n implies (marks@[v as int] <==> reachable(g, start, v)) by {}
    }
    marks
}

/// A sequence of distinct nodes below `n` has at most `n` items.
pub proof fn lemma_seq_distinct_len(s: Seq<usize>, n: nat)
    requires
        forall|k: int| 0 <= k < s.len() ==> #[trigger] s[k] < n,
        forall|a: int, b: int| 0 <= a < b < s.len() ==> #[trigger] s[a] != #[trigger] s[b],
    ensures
        s.len() <= n,
{
    let keys = Seq::new(s.len(), |j: int| s[j] as int);
    let set = keys.to_set();
    assert forall|j: int, k: int| 0 <= j < k < keys.len() implies keys[j] != keys[k] by {
        assert(s[j] != s[k]);
    }
    keys.unique_seq_to_set();
    let all = vstd::set_lib::set_int_range(0, n as int);
    assert forall|x: int| set.contains(x) implies all.contains(x) by {
        let j = choose|j: int| 0 <= j < keys.len() && keys[j] == x;
        assert(s[j] < n);
    }
    vstd::set_lib::lemma_int_range(0, n as int);
    vstd::set_lib::lemma_len_subset(set, all);
}

/// Reading a path of the reversed graph backwards gives a path of `g`.
pub proof fn lemma_reverse_path<C, D>(g: Seq<Seq<(usize, C)>>, h: Seq<Seq<(usize, D)>>, p: Seq<usize>)
    requires
        is_path(h, p),
        h.len() == g.len(),
        forall|u: usize, v: usize| #[trigger] edge(h, u, v) ==> edge(g, v, u),
    ensures
        is_path(g, p.reverse()),
{
    let r = p.reverse();
    assert forall|i: int| 0 <= i < r.len() - 1 implies #[trigger] follows(g, r, i) by {
        let k = p.len() - 2 - i;
        assert(follows(h, p, k));
        assert(r[i] == p[k + 1] && r[i + 1] == p[k]);
    }
    assert forall|i: int| 0 <= i < r.len() implies #[trigger] r[i] < g.len() by {
        assert(r[i] == p[p.len() - 1 - i]);
    }
}

/// A path of `g` from `s` to `m` followed by a path of `g` from `m` is a path.
pub proof fn lemma_path_concat<C>(g: Seq<Seq<(usize, C)>>, a: Seq<usize>, b: Seq<usize>)
    requires
        is_path(g, a),
        is_path(g, b),
        a[a.len() - 1] == b[0],
    ensures
        is_path(g, a + b.drop_first()),
        (a + b.drop_first())[0] == a[0],
        (a + b.drop_first())[(a + b.drop_first()).len() - 1] == b[b.len() - 1],
{
    let c = a + b.drop_first();
    assert forall|i: int| 0 <= i < c.len() - 1 implies #[trigger] follows(g, c, i) by {
        if i < a.len() - 1 {
            assert(follows(g, a, i));
        } else {
            let k = i - (a.len() - 1);
            assert(follows(g, b, k));
            assert(c[i + 1] == b[k + 1]);
            if k == 0 {
                assert(c[i] == a[a.len() - 1]);
            } else {
                assert(c[i] == b[k]);
            }
        }
    }
    assert forall|i: int| 0 <= i < c.len() implies #[trigger] c[i] < g.len() by {
        if i < a.len() {
            assert(c[i] == a[i]);
        } else {
            assert(c[i] == b[i - a.len() + 1]);
        }
    }
}

/// The lists `predecessors` are those of the reversed graph of `successors`.
pub open spec fn reverses<C, D>(g: Seq<Seq<(usize, C)>>, h: Seq<Seq<(usize, D)>>) -> bool {
    &&& h.len() == g.len()
    &&& forall|u: usize, v: usize| #[trigger] edge(h, u, v) <==> #[trigger] edge(g, v, u)
}

/// Build the adjacency lists of the reversed graph: `r[v]` lists the nodes with
/// an edge to `v`, in the order of their own lists.
pub fn predecessor_lists<C>(successors: &[Vec<(usize, C)>]) -> (r: Vec<Vec<(usize, ())>>)
    requires
        wf(adj(successors@)),
    ensures
        wf(adj(r@)),
        reverses(adj(successors@), adj(r@)),
{
    let ghost g = adj(successors@);
    let n = successors.len();
    let mut r: Vec<Vec<(usize, ())>> = Vec::new();
    let mut i: usize = 0;
    while i < n
        invariant
            i <= n,
            r@.len() == i,
            forall|v: int| 0 <= v < i ==> (#[trigger] r@[v])@.len() == 0,
        decreases n - i,
    {
        r.push(Vec::new());
        i = i + 1;
    }
    let mut from: usize = 0;
    while from < n
        invariant
            n == successors@.len(),
            g == adj(successors@),
            wf(g),
            from <= n,
            r@.len() == n,
            forall|v: int, k: int| 0 <= v < n && 0 <= k < r@[v]@.len() ==> #[trigger] r@[v]@[k].0 < from,
            forall|u: usize, v: usize| u < from && #[trigger] edge(g, u, v) ==> edge(adj(r@), v, u),
            forall|v: usize, u: usize| #[trigger] edge(adj(r@), v, u) ==> edge(g, u, v),
        decreases n - from,
    {
        let edges = &successors[from];
        proof { assert(edges@ == g[from as int]); }
        let mut t: usize = 0;
        while t < edges.len()
            invariant
                n == successors@.len(),
                g == adj(successors@),
                wf(g),
                from < n,
                edges@ == g[from as int],
                t <= edges@.len(),
                r@.len() == n,
                forall|v: int, k: int| 0 <= v < n && 0 <= k < r@[v]@.len() ==> #[trigger] r@[v]@[k].0 <= from,
                forall|u: usize, v: usize| u < from && #[trigger] edge(g, u, v) ==> edge(adj(r@), v, u),
                forall|k: int| 0 <= k < t ==> edge(adj(r@), #[trigger] g[from as int][k].0, from),
                forall|v: usize, u: usize| #[trigger] edge(adj(r@), v, u) ==> edge(g, u, v),
            decreases edges@.len() - t,
        {
            let to = edges[t].0;
            proof { assert(g[from as int][t as int].0 == to); }
            let ghost r0 = adj(r@);
            r[to].push((from, ()));
            proof {
                let r1 = adj(r@);
                assert(r1 == r0.update(to as int, r0[to as int].push((from, ()))));
                assert forall|v: int, k: int| 0 <= v < n && 0 <= k < r@[v]@.len() implies #[trigger] r@[v]@[k].0 <= from by {
                    if v == to && k == r0[to as int].len() {
                    } else {
                        assert(r1[v][k] == r0[v][k]);
                    }
                }
                assert forall|x: usize, y: usize| #[trigger] edge(r0, x, y) implies edge(r1, x, y) by {
                    let j = choose|j: int| 0 <= j < r0[x as int].len() && #[trigger] r0[x as int][j].0 == y;
                    assert(r1[x as int][j] == r0[x as int][j]);
                }
                assert forall|u: usize, v: usize| u < from && #[trigger] edge(g, u, v) implies edge(r1, v, u) by {
                    assert(edge(r0, v, u));
                }
                assert forall|k: int| 0 <= k < t + 1 implies edge(r1, #[trigger] g[from as int][k].0, from) by {
                    if k < t {
                        assert(edge(r0, g[from as int][k].0, from));
                    } else {
                        assert(r1[to as int][r0[to as int].len() as int].0 == from);
                    }
                }
                assert forall|v: usize, u: usize| #[trigger] edge(r1, v, u) implies edge(g, u, v) by {
                    let j = choose|j: int| 0 <= j < r1[v as int].len() && #[trigger] r1[v as int][j].0 == u;
                    if v == to && j == r0[to as int].len() {
                        assert(g[from as int][t as int].0 == to);
                    } else {
                        assert(r1[v as int][j] == r0[v as int][j]);
                        assert(edge(r0, v, u));
                    }
                }
            }
            t = t + 1;
        }
        proof {
            assert forall|u: usize, v: usize| u < from + 1 && #[trigger] edge(g, u, v) implies edge(adj(r@), v, u) by {
                if u == from {
                    let j = choose|j: int| 0 <= j < g[u as int].len() && #[trigger] g[u as int][j].0 == v;
                    assert(edge(adj(r@), g[from as int][j].0, from));
                }
            }
        }
        from = from + 1;
    }
    proof {
        let h = adj(r@);
        assert forall|v: int, k: int| 0 <= v < h.len() && 0 <= k < h[v].len() implies #[trigger] h[v][k].0 < h.len() by {
            assert(r@[v]@[k].0 < n);
        }
        assert forall|u: usize, v: usize| #[trigger] edge(h, u, v) <==> #[trigger] edge(g, v, u) by {
            if edge(g, v, u) {
                assert(v < n);
            }
        }
    }
    r
}

/// The predicate that holds of no node.
pub open spec fn never() -> spec_fn(usize) -> bool {
    |x: usize| false
}

/// One side of a bidirectional search, between two layers: the table is
/// sound, its entries before `i` are expanded, and the entries from `i` on all
/// lie on the deepest layer.
pub open spec fn layer_ok<C>(g: Seq<Seq<(usize, C)>>, e: Seq<(usize, usize)>, d: Seq<int>, root: usize, i: int) -> bool {
    &&& table_ok(g, e, d, root)
    &&& 0 <= i <= e.len()
    &&& forall|j: int| 0 <= j < i ==> #[trigger] expanded(g, e, d, never(), j)
    &&& forall|k: int| i <= k < e.len() ==> #[trigger] d[k] == d[i]
}

/// No node is in both tables.
pub open spec fn disjoint(a: Seq<(usize, usize)>, b: Seq<(usize, usize)>) -> bool {
    forall|j: int, k: int| 0 <= j < a.len() && 0 <= k < b.len() ==> #[trigger] a[j].0 != #[trigger] b[k].0
}

/// `m` is the only node in both tables.
pub open spec fn meet_only(a: Seq<(usize, usize)>, b: Seq<(usize, usize)>, m: usize) -> bool {
    forall|j: int, k: int|
        0 <= j < a.len() && 0 <= k < b.len() && #[trigger] a[j].0 == #[trigger] b[k].0 ==> a[j].0 == m
}

/// `m` is a node of the table.
pub open spec fn in_keys(a: Seq<(usize, usize)>, m: usize) -> bool {
    exists|j: int| 0 <= j < a.len() && #[trigger] a[j].0 == m
}

/// No path of `g` from `root` to `root2` is shorter than the one that runs
/// through `m` along the parents of both tables.
pub open spec fn short_meet<C>(
    g: Seq<Seq<(usize, C)>>,
    a: Seq<(usize, usize)>,
    da: Seq<int>,
    b: Seq<(usize, usize)>,
    db: Seq<int>,
    m: usize,
    root: usize,
    root2: usize,
) -> bool {
    forall|ja: int, jb: int, q: Seq<usize>|
        #![trigger a[ja], b[jb], is_path_from_to(g, q, root, root2)]
        0 <= ja < a.len() && 0 <= jb < b.len() && a[ja].0 == m && b[jb].0 == m && is_path_from_to(g, q, root, root2)
            ==> q.len() >= da[ja] + db[jb] + 1
}

/// Each of two graphs is the reverse of the other.
proof fn lemma_reverses_sym<C, D>(g: Seq<Seq<(usize, C)>>, h: Seq<Seq<(usize, D)>>)
    requires
        reverses(g, h),
    ensures
        reverses(h, g),
{
    assert forall|u: usize, v: usize| #[trigger] edge(g, u, v) <==> #[trigger] edge(h, v, u) by {
        assert(edge(h, v, u) <==> edge(g, u, v));
    }
}

/// What one side of the search found, read from the other side.
proof fn lemma_meet_swap<C, D>(
    g: Seq<Seq<(usize, C)>>,
    h: Seq<Seq<(usize, D)>>,
    a: Seq<(usize, usize)>,
    da: Seq<int>,
    b: Seq<(usize, usize)>,
    db: Seq<int>,
    m: usize,
    root: usize,
    root2: usize,
)
    requires
        reverses(g, h),
        short_meet(h, b, db, a, da, m, root2, root),
        meet_only(b, a, m),
    ensures
        short_meet(g, a, da, b, db, m, root, root2),
        meet_only(a, b, m),
{
    assert forall|ja: int, jb: int, q: Seq<usize>|
        #![trigger a[ja], b[jb], is_path_from_to(g, q, root, root2)]
        0 <= ja < a.len() && 0 <= jb < b.len() && a[ja].0 == m && b[jb].0 == m && is_path_from_to(g, q, root, root2)
            implies q.len() >= da[ja] + db[jb] + 1 by {
        assert forall|u: usize, v: usize| #[trigger] edge(g, u, v) implies edge(h, v, u) by {}
        lemma_reverse_path(h, g, q);
        let r = q.reverse();
        assert(r[0] == q[q.len() - 1]);
        assert(r[r.len() - 1] == q[0]);
        assert(is_path_from_to(h, r, root2, root));
        assert(b[jb].0 == m && a[ja].0 == m);
    }
    assert forall|j: int, k: int|
        0 <= j < a.len() && 0 <= k < b.len() && #[trigger] a[j].0 == #[trigger] b[k].0 implies a[j].0 == m by {
        assert(b[k].0 == a[j].0);
    }
}

/// Expand one layer of one side of a bidirectional search: every entry from
/// `i` to the end of the table `own`, in order, adds the successors it has in
/// `succ` that are not listed yet; the layer stops at the first successor that
/// the other side's table lists, which is returned as the meeting node.
fn expand_layer<C, D>(
    succ: &[Vec<(usize, C)>],
    own: &mut NodeMap,
    other: &NodeMap,
    i: usize,
    Ghost(y): Ghost<Seq<Seq<(usize, D)>>>,
    Ghost(d): Ghost<Seq<int>>,
    Ghost(d2): Ghost<Seq<int>>,
    Ghost(root): Ghost<usize>,
    Ghost(root2): Ghost<usize>,
    Ghost(i2): Ghost<int>,
) -> (r: (usize, Option<usize>, Ghost<Seq<int>>))
    requires
        wf(adj(succ@)),
        reverses(adj(succ@), y),
        layer_ok(adj(succ@), node_map_entries(*old(own)), d, root, i as int),
        layer_ok(y, node_map_entries(*other), d2, root2, i2),
    ensures
        table_ok(adj(succ@), node_map_entries(*final(own)), r.2@, root),
        node_map_entries(*final(own)).len() >= node_map_entries(*old(own)).len(),
        i == node_map_entries(*old(own)).len() ==> node_map_entries(*final(own)) == node_map_entries(*old(own)),
        match r.1 {
            None => {
                &&& r.0 == node_map_entries(*old(own)).len()
                &&& layer_ok(adj(succ@), node_map_entries(*final(own)), r.2@, root, r.0 as int)
                &&& disjoint(node_map_entries(*old(own)), node_map_entries(*other)) ==> disjoint(
                    node_map_entries(*final(own)),
                    node_map_entries(*other),
                )
            },
            Some(m) => {
                &&& in_keys(node_map_entries(*final(own)), m)
                &&& in_keys(node_map_entries(*other), m)
                &&& disjoint(node_map_entries(*old(own)), node_map_entries(*other)) ==> {
                    &&& meet_only(node_map_entries(*final(own)), node_map_entries(*other), m)
                    &&& short_meet(adj(succ@), node_map_entries(*final(own)), r.2@, node_map_entries(*other), d2, m, root, root2)
                }
            },
        },
{
    let ghost x = adj(succ@);
    let ghost e0 = node_map_entries(*own);
    let ghost eb = node_map_entries(*other);
    let ghost disj = disjoint(e0, eb);
    let ghost mut nd = d;
    let n = node_map_len(own) - i;
    let ghost a: int = if i < e0.len() { d[i as int] } else { 0 };
    let mut c: usize = 0;
    while c < n
        invariant
            x == adj(succ@),
            wf(x),
            reverses(x, y),
            layer_ok(y, eb, d2, root2, i2),
            eb == node_map_entries(*other),
            layer_ok(x, e0, d, root, i as int),
            disj == disjoint(e0, eb),
            e0.len() == i + n,
            i + n <= usize::MAX,
            e0 == node_map_entries(*old(own)),
            c <= n,
            n > 0 ==> a == d[i as int],
            table_ok(x, node_map_entries(*own), nd, root),
            node_map_entries(*own).len() >= e0.len(),
            forall|j: int| 0 <= j < e0.len() ==> #[trigger] node_map_entries(*own)[j] == e0[j],
            forall|j: int| 0 <= j < e0.len() ==> #[trigger] nd[j] == d[j],
            forall|j: int| 0 <= j < i + c ==> #[trigger] expanded(x, node_map_entries(*own), nd, never(), j),
            forall|k: int| e0.len() <= k < nd.len() ==> #[trigger] nd[k] == a + 1,
            n > 0 ==> forall|k: int| 0 <= k < nd.len() ==> #[trigger] nd[k] <= a + 1,
            c == 0 ==> node_map_entries(*own) == e0 && nd == d,
            disj ==> disjoint(node_map_entries(*own), eb),
        decreases n - c,
    {
        let idx = i + c;
        let (node, _) = node_map_get_index(own, idx).unwrap();
        proof {
            assert(node_map_entries(*own)[idx as int] == e0[idx as int]);
            assert(nd[idx as int] == a);
        }
        let edges = &succ[node];
        proof { assert(edges@ == x[node as int]); }
        let mut t: usize = 0;
        while t < edges.len()
            invariant
                x == adj(succ@),
                wf(x),
                reverses(x, y),
                layer_ok(y, eb, d2, root2, i2),
                eb == node_map_entries(*other),
                layer_ok(x, e0, d, root, i as int),
                disj == disjoint(e0, eb),
                e0.len() == i + n,
                e0 == node_map_entries(*old(own)),
                c < n,
                idx == i + c,
                a == d[i as int],
                nd[idx as int] == a,
                node < x.len(),
                edges@ == x[node as int],
                node == node_map_entries(*own)[idx as int].0,
                table_ok(x, node_map_entries(*own), nd, root),
                node_map_entries(*own).len() >= e0.len(),
                forall|j: int| 0 <= j < e0.len() ==> #[trigger] node_map_entries(*own)[j] == e0[j],
                forall|j: int| 0 <= j < e0.len() ==> #[trigger] nd[j] == d[j],
                forall|j: int| 0 <= j < idx ==> #[trigger] expanded(x, node_map_entries(*own), nd, never(), j),
                forall|k: int| e0.len() <= k < nd.len() ==> #[trigger] nd[k] == a + 1,
                forall|k: int| 0 <= k < nd.len() ==> #[trigger] nd[k] <= a + 1,
                disj ==> disjoint(node_map_entries(*own), eb),
                forall|u: int| 0 <= u < t ==> listed(node_map_entries(*own), nd, #[trigger] x[node as int][u].0, a + 1),
                t <= edges.len(),
            decreases edges.len() - t,
        {
            let s = edges[t].0;
            let ghost e1 = node_map_entries(*own);
            let ghost nd1 = nd;
            proof {
                assert(x[node as int][t as int].0 == s);
                assert(edge(x, node, s));
            }
            let found = node_map_get_index_of(own, s);
            if found.is_none() {
                let ghost dn = a + 1;
                proof {
                    assert forall|j: int| 0 <= j < idx implies #[trigger] expanded(
                        x,
                        e1.push((s, idx)),
                        nd1.push(dn),
                        never(),
                        j,
                    ) by {
                        lemma_expanded_push(x, e1, nd1, never(), j, (s, idx), dn);
                    }
                    assert forall|u: int| 0 <= u < t implies listed(
                        e1.push((s, idx)),
                        nd1.push(dn),
                        #[trigger] x[node as int][u].0,
                        a + 1,
                    ) by {
                        lemma_listed_push(e1, nd1, x[node as int][u].0, a + 1, (s, idx), dn);
                    }
                }
                let ins = node_map_insert_full(own, s, idx);
                proof {
                    if ins.1.is_some() {
                        assert(e1[ins.0 as int].0 == s);
                    }
                    nd = nd1.push(dn);
                    let e2 = node_map_entries(*own);
                    assert(e2 == e1.push((s, idx)));
                    assert(parent_ok(x, e2, nd, e1.len() as int));
                    assert forall|j: int| 1 <= j < e2.len() implies #[trigger] parent_ok(x, e2, nd, j) by {
                        if j < e1.len() {
                            assert(parent_ok(x, e1, nd1, j));
                            assert(e2[j] == e1[j]);
                            assert(e2[e2[j].1 as int] == e1[e1[j].1 as int]);
                        }
                    }
                    assert forall|j: int, k: int| 0 <= j <= k < nd.len() implies #[trigger] nd[j] <= #[trigger] nd[k] by {
                        if k == nd.len() - 1 && j < k {
                            assert(nd[j] == nd1[j]);
                        }
                    }
                    assert forall|j: int, k: int| 0 <= j < k < e2.len() implies #[trigger] e2[j].0 != #[trigger] e2[k].0 by {
                        if k == e1.len() {
                            assert(e2[j] == e1[j]);
                        } else {
                            assert(e2[j] == e1[j] && e2[k] == e1[k]);
                        }
                    }
                    assert(table_ok(x, e2, nd, root));
                    assert(e2[e1.len() as int].0 == s);
                    assert(listed(e2, nd, s, a + 1));
                    assert forall|j: int| 0 <= j < e0.len() implies #[trigger] e2[j] == e0[j] by {
                        assert(e2[j] == e1[j]);
                    }
                    assert forall|j: int| 0 <= j < e0.len() implies #[trigger] nd[j] == d[j] by {
                        assert(nd[j] == nd1[j]);
                    }
                }
            } else {
                proof {
                    let k = found.unwrap() as int;
                    assert(e1[k].0 == s);
                    assert(listed(e1, nd1, s, a + 1));
                }
            }
            let in_other = node_map_get_index_of(other, s);
            if in_other.is_some() {
                proof {
                    let e2 = node_map_entries(*own);
                    let kb = in_other.unwrap() as int;
                    assert(eb[kb].0 == s);
                    let k2 = choose|k2: int| 0 <= k2 < e2.len() && #[trigger] e2[k2].0 == s && nd[k2] <= a + 1;
                    assert(in_keys(e2, s));
                    assert(in_keys(eb, s));
                    if disj {
                        assert(found.is_none()) by {
                            if found.is_some() {
                                let k = found.unwrap() as int;
                                assert(e1[k].0 == s);
                                assert(e1[k].0 != eb[kb].0);
                            }
                        }
                        assert(e2 == e1.push((s, idx)));
                        assert forall|j: int, k: int|
                            0 <= j < e2.len() && 0 <= k < eb.len() && #[trigger] e2[j].0 == #[trigger] eb[k].0 implies e2[j].0 == s by {
                            if j < e1.len() {
                                assert(e2[j] == e1[j]);
                                assert(e1[j].0 != eb[k].0);
                            }
                        }
                        assert forall|ja: int, jb: int, q: Seq<usize>|
                            #![trigger e2[ja], eb[jb], is_path_from_to(x, q, root, root2)]
                            0 <= ja < e2.len() && 0 <= jb < eb.len() && e2[ja].0 == s && eb[jb].0 == s
                                && is_path_from_to(x, q, root, root2) implies q.len() >= nd[ja] + d2[jb] + 1 by {
                            if ja < e1.len() {
                                assert(e2[ja] == e1[ja]);
                                assert(e1[ja].0 != eb[jb].0);
                            }
                            assert(nd[ja] == a + 1);
                            assert(d2[jb] >= 0) by {
                                assert(d2[0] <= d2[jb]);
                            }
                            if q.len() < a + d2[jb] + 2 {
                                let l = q.len() - 1;
                                let t0 = if l < a { l } else { a };
                                lemma_cover(x, e1, nd1, root, never(), idx as int, q, t0);
                                assert forall|u: usize, v: usize| #[trigger] edge(x, u, v) implies edge(y, v, u) by {}
                                lemma_reverse_path(y, x, q);
                                let qr = q.reverse();
                                let u0 = l - t0;
                                assert(qr[0] == root2);
                                if i2 < eb.len() {
                                    assert(d2[jb] <= d2[i2]) by {
                                        if jb < i2 {
                                            assert(d2[jb] <= d2[i2]);
                                        }
                                    }
                                    assert(d2[0] <= d2[i2]);
                                }
                                lemma_cover(y, eb, d2, root2, never(), i2, qr, u0);
                                assert(qr[u0] == q[t0]);
                                let k1 = choose|k1: int| 0 <= k1 < e1.len() && #[trigger] e1[k1].0 == q[t0] && nd1[k1] <= t0;
                                let kk = choose|kk: int| 0 <= kk < eb.len() && #[trigger] eb[kk].0 == qr[u0] && d2[kk] <= u0;
                                assert(e1[k1].0 != eb[kk].0);
                            }
                        }
                    }
                }
                return (idx, Some(s), Ghost(nd));
            } else {
                proof {
                    let e2 = node_map_entries(*own);
                    if disj {
                        assert forall|j: int, k: int| 0 <= j < e2.len() && 0 <= k < eb.len()
                            implies #[trigger] e2[j].0 != #[trigger] eb[k].0 by {
                            if j < e1.len() {
                                assert(e2[j] == e1[j]);
                            } else {
                                assert(e2[j].0 == s);
                            }
                        }
                    }
                }
            }
            t = t + 1;
        }
        proof {
            let e2 = node_map_entries(*own);
            assert forall|s: usize| #[trigger] edge(x, e2[idx as int].0, s) implies !(never())(s) && listed(
                e2,
                nd,
                s,
                nd[idx as int] + 1,
            ) by {
                let u = choose|u: int| 0 <= u < x[node as int].len() && #[trigger] x[node as int][u].0 == s;
            }
            assert(expanded(x, e2, nd, never(), idx as int));
        }
        c = c + 1;
    }
    proof {
        let e = node_map_entries(*own);
        if n > 0 {
            assert forall|k: int| e0.len() <= k < e.len() implies #[trigger] nd[k] == nd[e0.len() as int] by {}
        }
    }
    (i + n, None, Ghost(nd))
}

/// Compute a shortest path from `start` to `end` with bidirectional
/// breadth-first search: one search forward from the start along
/// `successors`, one backward from the end along `predecessors`, a layer at a
/// time in turn, until they meet.
///
/// The result is `None` exactly when `end` cannot be reached from `start`; a
/// path holds both ends and no node twice, so a start that is also the end is
/// a path of its own.
pub fn bfs_bidirectional<C, D>(
    start: usize,
    end: usize,
    successors: &[Vec<(usize, C)>],
    predecessors: &[Vec<(usize, D)>],
) -> (r: Option<Vec<usize>>)
    requires
        wf(adj(successors@)),
        wf(adj(predecessors@)),
        reverses(adj(successors@), adj(predecessors@)),
        start < successors@.len(),
        end < successors@.len(),
    ensures
        match r {
            Some(p) => {
                &&& is_path_from_to(adj(successors@), p@, start, end)
                &&& distinct(p@)
                &&& forall|q: Seq<usize>|
                    #[trigger] is_path_from_to(adj(successors@), q, start, end) ==> q.len() >= p@.len()
            },
            None => !reachable(adj(successors@), start, end),
        },
{
    let ghost g = adj(successors@);
    let ghost h = adj(predecessors@);
    proof { lemma_reverses_sym(g, h); }
    if start == end {
        let mut p: Vec<usize> = Vec::new();
        p.push(start);
        proof {
            assert(p@ =~= seq![start]);
            assert(is_path(g, p@));
        }
        return Some(p);
    }
    let mut fwd: NodeMap = node_map_new();
    node_map_insert_full(&mut fwd, start, usize::MAX);
    let mut bwd: NodeMap = node_map_new();
    node_map_insert_full(&mut bwd, end, usize::MAX);
    let ghost mut df: Seq<int> = seq![0];
    let ghost mut db: Seq<int> = seq![0];
    proof {
        assert(node_map_entries(fwd) =~= seq![(start, usize::MAX)]);
        assert(node_map_entries(bwd) =~= seq![(end, usize::MAX)]);
    }
    let mut i_f: usize = 0;
    let mut i_b: usize = 0;
    let mut middle: Option<usize> = None;
    loop
        invariant_except_break
            middle.is_none(),
            layer_ok(g, node_map_entries(fwd), df, start, i_f as int),
            layer_ok(h, node_map_entries(bwd), db, end, i_b as int),
            disjoint(node_map_entries(fwd), node_map_entries(bwd)),
        invariant
            g == adj(successors@),
            h == adj(predecessors@),
            wf(g),
            wf(h),
            reverses(g, h),
            reverses(h, g),
            start != end,
            table_ok(g, node_map_entries(fwd), df, start),
            table_ok(h, node_map_entries(bwd), db, end),
            i_f <= node_map_entries(fwd).len(),
            i_b <= node_map_entries(bwd).len(),
        ensures
            match middle {
                None => !reachable(g, start, end),
                Some(m) => {
                    &&& in_keys(node_map_entries(fwd), m)
                    &&& in_keys(node_map_entries(bwd), m)
                    &&& meet_only(node_map_entries(fwd), node_map_entries(bwd), m)
                    &&& short_meet(g, node_map_entries(fwd), df, node_map_entries(bwd), db, m, start, end)
                },
            },
        decreases 2 * g.len() - i_f - i_b,
    {
        proof {
            lemma_table_len(g, node_map_entries(fwd), df, start);
            lemma_table_len(h, node_map_entries(bwd), db, end);
        }
        let (nf, mf, Ghost(df2)) = expand_layer::<C, D>(
            successors,
            &mut fwd,
            &bwd,
            i_f,
            Ghost(h),
            Ghost(df),
            Ghost(db),
            Ghost(start),
            Ghost(end),
            Ghost(i_b as int),
        );
        proof { df = df2; }
        if mf.is_some() {
            middle = mf;
            break;
        }
        i_f = nf;
        let (nb, mb, Ghost(db2)) = expand_layer::<D, C>(
            predecessors,
            &mut bwd,
            &fwd,
            i_b,
            Ghost(g),
            Ghost(db),
            Ghost(df),
            Ghost(end),
            Ghost(start),
            Ghost(i_f as int),
        );
        proof { db = db2; }
        if mb.is_some() {
            proof {
                let m = mb.unwrap();
                lemma_meet_swap(g, h, node_map_entries(fwd), df, node_map_entries(bwd), db, m, start, end);
            }
            middle = mb;
            break;
        }
        i_b = nb;
        if i_f == node_map_len(&fwd) && i_b == node_map_len(&bwd) {
            proof {
                let ef = node_map_entries(fwd);
                let eb = node_map_entries(bwd);
                if start != end && reachable(g, start, end) {
                    let set = Set::new(|v: usize| exists|k: int| 0 <= k < ef.len() && #[trigger] ef[k].0 == v);
                    assert(set.contains(start)) by { assert(ef[0].0 == start); }
                    assert forall|u: usize, w: usize| set.contains(u) && #[trigger] edge(g, u, w) implies set.contains(w) by {
                        let k = choose|k: int| 0 <= k < ef.len() && #[trigger] ef[k].0 == u;
                        assert(expanded(g, ef, df, never(), k));
                        assert(edge(g, ef[k].0, w));
                        assert(listed(ef, df, w, df[k] + 1));
                    }
                    lemma_closed_reach(g, set, start, end);
                    let k = choose|k: int| 0 <= k < ef.len() && #[trigger] ef[k].0 == end;
                    assert(eb[0].0 == end);
                    assert(ef[k].0 != eb[0].0);
                }
            }
            break;
        }
        proof {
            lemma_table_len(g, node_map_entries(fwd), df, start);
            lemma_table_len(h, node_map_entries(bwd), db, end);
        }
    }
    match middle {
        None => None,
        Some(m) => {
            let jf = node_map_get_index_of(&fwd, m).unwrap();
            let jb = node_map_get_index_of(&bwd, m).unwrap();
            let ghost ef = node_map_entries(fwd);
            let ghost eb = node_map_entries(bwd);
            proof {
                assert forall|j: int| 1 <= j < ef.len() implies (#[trigger] ef[j]).1 < j by {
                    assert(parent_ok(g, ef, df, j));
                }
                assert forall|j: int| 1 <= j < eb.len() implies (#[trigger] eb[j]).1 < j by {
                    assert(parent_ok(h, eb, db, j));
                }
            }
            let mut path = reverse_path(&fwd, jf);
            let back = reverse_path(&bwd, jb);
            let ghost front = path@;
            proof {
                lemma_chain(g, ef, df, start, jf as int);
                lemma_chain(h, eb, db, end, jb as int);
                assert forall|u: usize, v: usize| #[trigger] edge(h, u, v) implies edge(g, v, u) by {}
                lemma_reverse_path(g, h, back@);
                lemma_path_concat(g, front, back@.reverse());
            }
            let mut k: usize = back.len() - 1;
            while k > 0
                invariant
                    k < back.len(),
                    path@ =~= front + back@.reverse().subrange(1, (back.len() - k) as int),
                decreases k,
            {
                k = k - 1;
                path.push(back[k]);
            }
            proof {
                let p = path@;
                let br = back@.reverse();
                assert(p =~= front + br.drop_first());
                assert(p.len() == df[jf as int] + db[jb as int] + 1);
                assert forall|q: Seq<usize>|
                    #[trigger] is_path_from_to(g, q, start, end) implies q.len() >= p.len() by {
                    assert(ef[jf as int].0 == m && eb[jb as int].0 == m);
                }
                assert forall|a: int, b: int| 0 <= a < b < p.len() implies p[a] != p[b] by {
                    let fl = front.len() as int;
                    let bl = back@.len() as int;
                    if b < fl {
                    } else if a >= fl {
                        assert(p[a] == back@[bl - 1 - (a - fl + 1)]);
                        assert(p[b] == back@[bl - 1 - (b - fl + 1)]);
                    } else {
                        let kb = bl - 1 - (b - fl + 1);
                        assert(p[b] == back@[kb]);
                        assert(p[a] == front[a]);
                        let j1 = choose|j1: int| 0 <= j1 <= jf && #[trigger] ef[j1].0 == front[a];
                        let j2 = choose|j2: int| 0 <= j2 <= jb && #[trigger] eb[j2].0 == back@[kb];
                        if p[a] == p[b] {
                            assert(ef[j1].0 == eb[j2].0);
                            assert(back@[kb] == m);
                            assert(back@[bl - 1] == m);
                        }
                    }
                }
            }
            Some(path)
        },
    }
}

} // verus!
