//! Topological orders of directed graphs.

use vstd::prelude::*;
use std::collections::{HashSet, VecDeque};
use crate::spec::{adj, distinct, edge, is_path, is_path_from_to, lemma_reach_self, lemma_reach_step, reachable, follows, wf};
use crate::directed::bfs::lemma_seq_distinct_len;

verus! {

broadcast use vstd::std_specs::hash::group_hash_axioms;

/// Some node of `roots` reaches `v`.
pub open spec fn reached_from<C>(g: Seq<Seq<(usize, C)>>, roots: Seq<usize>, v: usize) -> bool {
    exists|r: usize| roots.contains(r) && #[trigger] reachable(g, r, v)
}

/// A path of at least one edge leads from `v` back to `v`.
pub open spec fn on_cycle<C>(g: Seq<Seq<(usize, C)>>, v: usize) -> bool {
    exists|p: Seq<usize>| #[trigger] is_path_from_to(g, p, v, v) && p.len() >= 2
}

/// Every edge between two nodes of `order` leads forward in `order`.
pub open spec fn edges_forward<C>(g: Seq<Seq<(usize, C)>>, order: Seq<usize>) -> bool {
    forall|i: int, j: int| 0 <= i < order.len() && 0 <= j < order.len() && #[trigger] edge(g, order[i], order[j]) ==> i < j
}

/// Every successor of a node of `order` is in `order`.
pub open spec fn closed<C>(g: Seq<Seq<(usize, C)>>, order: Seq<usize>) -> bool {
    forall|u: usize, v: usize| order.contains(u) && #[trigger] edge(g, u, v) ==> order.contains(v)
}

/// The state of the search between visits.
spec fn state_ok<C>(
    g: Seq<Seq<(usize, C)>>,
    roots: Seq<usize>,
    marked: Set<usize>,
    temp: Set<usize>,
    sorted: Seq<usize>,
    stack: Seq<usize>,
) -> bool {
    &&& marked == sorted.to_set()
    &&& distinct(sorted)
    &&& forall|k: int| 0 <= k < sorted.len() ==> #[trigger] sorted[k] < g.len()
    &&& edges_forward(g, sorted)
    &&& closed(g, sorted)
    &&& forall|k: int| 0 <= k < sorted.len() ==> reached_from(g, roots, #[trigger] sorted[k])
    &&& forall|x: usize| temp.contains(x) && !marked.contains(x) ==> stack.contains(x)
    &&& forall|k: int| 0 <= k < stack.len() ==> temp.contains(#[trigger] stack[k]) && !marked.contains(stack[k])
    &&& distinct(stack)
    &&& stack.len() > 0 ==> is_path(g, stack) && reached_from(g, roots, stack[0])
}

/// A successor of a reached node is reached.
proof fn lemma_reached_step<C>(g: Seq<Seq<(usize, C)>>, roots: Seq<usize>, u: usize, v: usize)
    requires
        reached_from(g, roots, u),
        edge(g, u, v),
        v < g.len(),
    ensures
        reached_from(g, roots, v),
{
    let r = choose|r: usize| roots.contains(r) && #[trigger] reachable(g, r, u);
    lemma_reach_step(g, r, u, v);
}

/// Every node of a path from a reached node is reached.
proof fn lemma_path_reached<C>(g: Seq<Seq<(usize, C)>>, roots: Seq<usize>, p: Seq<usize>, k: int)
    requires
        is_path(g, p),
        reached_from(g, roots, p[0]),
        0 <= k < p.len(),
    ensures
        reached_from(g, roots, p[k]),
    decreases k,
{
    if k > 0 {
        lemma_path_reached(g, roots, p, k - 1);
        assert(follows(g, p, k - 1));
        lemma_reached_step(g, roots, p[k - 1], p[k]);
    }
}

/// Visit `node`, reached along an edge from the last node of `stack` (the nodes
/// whose visit is under way), and put it and everything it reaches in front of
/// `sorted`.
fn visit<C>(
    node: usize,
    successors: &[Vec<(usize, C)>],
    marked: &mut HashSet<usize>,
    temp: &mut HashSet<usize>,
    sorted: &mut VecDeque<usize>,
    Ghost(roots): Ghost<Seq<usize>>,
    Ghost(stack): Ghost<Seq<usize>>,
) -> (r: Result<(), usize>)
    requires
        wf(adj(successors@)),
        node < successors@.len(),
        state_ok(adj(successors@), roots, old(marked)@, old(temp)@, old(sorted)@, stack),
        stack.len() > 0 ==> edge(adj(successors@), stack[stack.len() - 1], node),
        stack.len() == 0 ==> roots.contains(node),
    ensures
        match r {
            Ok(()) => {
                &&& state_ok(adj(successors@), roots, final(marked)@, final(temp)@, final(sorted)@, stack)
                &&& final(marked)@.contains(node)
                &&& old(marked)@.subset_of(final(marked)@)
            },
            Err(c) => on_cycle(adj(successors@), c) && reached_from(adj(successors@), roots, c),
        },
    decreases successors@.len() - stack.len(),
{
    let ghost g = adj(successors@);
    proof {
        if stack.len() > 0 {
            lemma_path_reached(g, roots, stack, stack.len() - 1);
            lemma_reached_step(g, roots, stack[stack.len() - 1], node);
        } else {
            lemma_reach_self(g, node);
        }
        assert(reached_from(g, roots, node));
    }
    if marked.contains(&node) {
        return Ok(());
    }
    if temp.contains(&node) {
        proof {
            assert(stack.contains(node));
            let k = choose|k: int| 0 <= k < stack.len() && stack[k] == node;
            let p = stack.subrange(k, stack.len() as int).push(node);
            assert forall|i: int| 0 <= i < p.len() - 1 implies #[trigger] follows(g, p, i) by {
                if i < p.len() - 2 {
                    assert(follows(g, stack, k + i));
                    assert(p[i] == stack[k + i] && p[i + 1] == stack[k + i + 1]);
                } else {
                    assert(p[i] == stack[stack.len() - 1]);
                }
            }
            assert forall|i: int| 0 <= i < p.len() implies #[trigger] p[i] < g.len() by {
                if i < p.len() - 1 {
                    assert(p[i] == stack[k + i]);
                }
            }
            assert(is_path_from_to(g, p, node, node));
        }
        return Err(node);
    }
    temp.insert(node);
    let ghost stack2 = stack.push(node);
    proof {
        assert(stack2[stack2.len() - 1] == node);
        assert forall|a: int, b: int| 0 <= a < b < stack2.len() implies stack2[a] != stack2[b] by {
            if b == stack2.len() - 1 {
                assert(stack.contains(stack[a]));
            }
        }
        if stack.len() > 0 {
            crate::spec::lemma_path_push(g, stack, node);
        } else {
            assert(is_path(g, stack2));
        }
        assert forall|k: int| 0 <= k < stack2.len() implies temp@.contains(#[trigger] stack2[k]) && !marked@.contains(stack2[k]) by {
            if k < stack.len() {
                assert(stack2[k] == stack[k]);
            }
        }
        assert forall|x: usize| temp@.contains(x) && !marked@.contains(x) implies stack2.contains(x) by {
            if x == node {
                assert(stack2[stack2.len() - 1] == node);
            } else {
                let k = choose|k: int| 0 <= k < stack.len() && stack[k] == x;
                assert(stack2[k] == x);
            }
        }
        assert(stack2[0] == if stack.len() > 0 { stack[0] } else { node });
        assert forall|k: int| 0 <= k < stack2.len() implies #[trigger] stack2[k] < g.len() by {}
        lemma_seq_distinct_len(stack2, g.len());
    }
    let edges = &successors[node];
    proof { assert(edges@ == g[node as int]); }
    let ghost marked0 = marked@;
    let mut t: usize = 0;
    while t < edges.len()
        invariant
            g == adj(successors@),
            wf(g),
            node < g.len(),
            edges@ == g[node as int],
            t <= edges.len(),
            stack2 == stack.push(node),
            stack2.len() <= g.len(),
            state_ok(g, roots, marked@, temp@, sorted@, stack2),
            marked0.subset_of(marked@),
            old(marked)@ == marked0,
            forall|u: int| 0 <= u < t ==> marked@.contains(#[trigger] g[node as int][u].0),
        decreases edges.len() - t,
    {
        let next = edges[t].0;
        proof {
            assert(g[node as int][t as int].0 == next);
            assert(edge(g, node, next));
            assert(stack2[stack2.len() - 1] == node);
        }
        let res = visit(next, successors, marked, temp, sorted, Ghost(roots), Ghost(stack2));
        match res {
            Err(c) => {
                return Err(c);
            },
            Ok(()) => {},
        }
        t = t + 1;
    }
    let ghost s0 = sorted@;
    proof {
        assert(stack2[stack2.len() - 1] == node);
        assert(!marked@.contains(node));
        assert(!s0.contains(node)) by {
            if s0.contains(node) {
                assert(s0.to_set().contains(node));
            }
        }
    }
    marked.insert(node);
    temp.insert(node);
    sorted.push_front(node);
    proof {
        let s1 = sorted@;
        assert(s1 == seq![node] + s0);
        assert(!marked0.contains(node));
        assert forall|x: usize| marked@.contains(x) <==> s1.to_set().contains(x) by {
            if x == node {
                assert(s1[0] == node);
            } else if s0.contains(x) {
                let k = choose|k: int| 0 <= k < s0.len() && s0[k] == x;
                assert(s1[k + 1] == x);
            } else if s1.contains(x) {
                let k = choose|k: int| 0 <= k < s1.len() && s1[k] == x;
                assert(k > 0);
                assert(s0[k - 1] == x);
            }
        }
        assert(marked@ =~= s1.to_set());
        assert forall|a: int, b: int| 0 <= a < b < s1.len() implies s1[a] != s1[b] by {
            if a == 0 {
                assert(s0.contains(s1[b]));
            } else {
                assert(s1[a] == s0[a - 1] && s1[b] == s0[b - 1]);
            }
        }
        assert forall|i: int, j: int| 0 <= i < s1.len() && 0 <= j < s1.len() && #[trigger] edge(g, s1[i], s1[j]) implies i < j by {
            if i > 0 && j > 0 {
                assert(s1[i] == s0[i - 1] && s1[j] == s0[j - 1]);
                assert(edge(g, s0[i - 1], s0[j - 1]));
            } else if i > 0 && j == 0 {
                // An edge from a finished node back to `node` would make `node` finished.
                assert(s1[i] == s0[i - 1]);
                assert(s0.contains(s0[i - 1]));
                assert(s0.contains(node));
            } else if i == 0 && j == 0 {
                let u = choose|u: int| 0 <= u < g[node as int].len() && #[trigger] g[node as int][u].0 == node;
                assert(marked0.subset_of(marked@));
                assert(s0.to_set().contains(g[node as int][u].0));
            }
        }
        assert forall|u: usize, v: usize| s1.contains(u) && #[trigger] edge(g, u, v) implies s1.contains(v) by {
            if u == node {
                let w = choose|w: int| 0 <= w < g[node as int].len() && #[trigger] g[node as int][w].0 == v;
                assert(s0.to_set().contains(v));
                let k = choose|k: int| 0 <= k < s0.len() && s0[k] == v;
                assert(s1[k + 1] == v);
            } else {
                let k = choose|k: int| 0 <= k < s1.len() && s1[k] == u;
                assert(s0[k - 1] == u);
                assert(s0.contains(v));
                let k2 = choose|k2: int| 0 <= k2 < s0.len() && s0[k2] == v;
                assert(s1[k2 + 1] == v);
            }
        }
        assert forall|k: int| 0 <= k < s1.len() implies reached_from(g, roots, #[trigger] s1[k]) by {
            if k > 0 {
                assert(s1[k] == s0[k - 1]);
            }
        }
        assert forall|k: int| 0 <= k < s1.len() implies #[trigger] s1[k] < g.len() by {
            if k > 0 {
                assert(s1[k] == s0[k - 1]);
            }
        }
        assert forall|x: usize| temp@.contains(x) && !marked@.contains(x) implies stack.contains(x) by {
            let k = choose|k: int| 0 <= k < stack2.len() && stack2[k] == x;
            if k < stack.len() {
                assert(stack[k] == x);
            }
        }
        assert forall|k: int| 0 <= k < stack.len() implies temp@.contains(#[trigger] stack[k]) && !marked@.contains(stack[k]) by {
            assert(stack2[k] == stack[k]);
            assert(stack[k] != node);
        }
    }
    Ok(())
}

/// Find a topological order of the nodes reached from `roots`: an order where
/// every edge leads forward.
///
/// # Errors
///
/// Where a node reached from the roots lies on a cycle, `Err(n)` is returned with
/// `n` a node on a cycle.
pub fn topological_sort<C>(roots: &[usize], successors: &[Vec<(usize, C)>]) -> (r: Result<Vec<usize>, usize>)
    requires
        wf(adj(successors@)),
        forall|k: int| 0 <= k < roots@.len() ==> #[trigger] roots@[k] < successors@.len(),
    ensures
        match r {
            Ok(order) => {
                &&& distinct(order@)
                &&& edges_forward(adj(successors@), order@)
                &&& forall|v: usize| order@.contains(v) <==> reached_from(adj(successors@), roots@, v)
            },
            Err(c) => on_cycle(adj(successors@), c) && reached_from(adj(successors@), roots@, c),
        },
{
    let ghost g = adj(successors@);
    let mut marked: HashSet<usize> = HashSet::new();
    let mut temp: HashSet<usize> = HashSet::new();
    let mut sorted: VecDeque<usize> = VecDeque::new();
    proof {
        assert(marked@ =~= sorted@.to_set());
    }
    let mut i: usize = 0;
    while i < roots.len()
        invariant
            g == adj(successors@),
            wf(g),
            forall|k: int| 0 <= k < roots@.len() ==> #[trigger] roots@[k] < successors@.len(),
            i <= roots.len(),
            state_ok(g, roots@, marked@, temp@, sorted@, Seq::empty()),
            forall|k: int| 0 <= k < i ==> marked@.contains(#[trigger] roots@[k]),
        decreases roots.len() - i,
    {
        temp.clear();
        proof {
            assert forall|x: usize| temp@.contains(x) && !marked@.contains(x) implies Seq::<usize>::empty().contains(x) by {}
        }
        let root = roots[i];
        proof { assert(roots@.contains(root)) by { assert(roots@[i as int] == root); } }
        let res = visit(root, successors, &mut marked, &mut temp, &mut sorted, Ghost(roots@), Ghost(Seq::empty()));
        match res {
            Err(c) => {
                return Err(c);
            },
            Ok(()) => {},
        }
        i = i + 1;
    }
    let mut order: Vec<usize> = Vec::new();
    let ghost s = sorted@;
    let mut k: usize = 0;
    let n = sorted.len();
    while k < n
        invariant
            sorted@ == s,
            n == s.len(),
            k <= n,
            order@ == s.subrange(0, k as int),
        decreases n - k,
    {
        order.push(sorted[k]);
        k = k + 1;
    }
    proof {
        assert(order@ =~= s);
        assert forall|v: usize| order@.contains(v) <==> reached_from(g, roots@, v) by {
            if order@.contains(v) {
                let k = choose|k: int| 0 <= k < s.len() && s[k] == v;
                assert(reached_from(g, roots@, s[k]));
            }
            if reached_from(g, roots@, v) {
                let r = choose|r: usize| roots@.contains(r) && #[trigger] reachable(g, r, v);
                let kr = choose|kr: int| 0 <= kr < roots@.len() && roots@[kr] == r;
                assert(marked@.contains(roots@[kr]));
                assert(s.to_set().contains(r));
                crate::spec::lemma_closed_reach(g, s.to_set(), r, v);
            }
        }
    }
    Ok(order)
}

/// A graph whose nodes have an order in which every edge leads forward holds
/// no cycle through those nodes.
pub proof fn lemma_forward_order_acyclic<C>(g: Seq<Seq<(usize, C)>>, order: Seq<usize>, v: usize)
    requires
        edges_forward(g, order),
        closed(g, order),
        order.contains(v),
    ensures
        !on_cycle(g, v),
{
    if on_cycle(g, v) {
        let p = choose|p: Seq<usize>| #[trigger] is_path_from_to(g, p, v, v) && p.len() >= 2;
        let pos = |x: usize| choose|k: int| 0 <= k < order.len() && order[k] == x;
        assert forall|k: int| 0 <= k < p.len() implies order.contains(#[trigger] p[k]) by {
            lemma_in_order(g, order, p, k);
        }
        // Positions strictly increase along the path.
        assert forall|k: int| 0 < k < p.len() implies #[trigger] pos(p[k]) > pos(p[0]) by {
            lemma_pos_increase(g, order, p, k);
        }
        assert(pos(p[p.len() - 1]) > pos(p[0]));
    }
}

/// A path that starts in a closed set of nodes stays in it.
proof fn lemma_in_order<C>(g: Seq<Seq<(usize, C)>>, order: Seq<usize>, p: Seq<usize>, k: int)
    requires
        closed(g, order),
        is_path(g, p),
        order.contains(p[0]),
        0 <= k < p.len(),
    ensures
        order.contains(p[k]),
    decreases k,
{
    if k > 0 {
        lemma_in_order(g, order, p, k - 1);
        assert(follows(g, p, k - 1));
    }
}

/// In an order where every edge goes forward, each node of a path comes
/// after the first one.
proof fn lemma_pos_increase<C>(g: Seq<Seq<(usize, C)>>, order: Seq<usize>, p: Seq<usize>, k: int)
    requires
        closed(g, order),
        edges_forward(g, order),
        is_path(g, p),
        order.contains(p[0]),
        0 < k < p.len(),
    ensures
        (choose|j: int| 0 <= j < order.len() && order[j] == p[k]) > (choose|j: int| 0 <= j < order.len() && order[j] == p[0]),
    decreases k,
{
    lemma_in_order(g, order, p, k);
    lemma_in_order(g, order, p, k - 1);
    let a = choose|j: int| 0 <= j < order.len() && order[j] == p[k - 1];
    let b = choose|j: int| 0 <= j < order.len() && order[j] == p[k];
    assert(follows(g, p, k - 1));
    assert(edge(g, order[a], order[b]));
    if k > 1 {
        lemma_pos_increase(g, order, p, k - 1);
    }
}

} // verus!
