//! Single-source shortest paths by the bounded multi-source shortest path
//! recursion (BMSSP) of Duan, Mao, Mao, Shu and Yin, "Breaking the Sorting
//! Barrier for Directed Single-Source Shortest Paths".
//!
//! The recursion runs on a port graph of bounded degree built from the input.
//! Its result is then checked: each entry must hang from a parent in the table
//! along an edge whose weight makes up the difference of their costs, the
//! parents must lead back to the start, and no edge may improve a cost. A
//! table that passes is a table of shortest paths; one that does not is
//! replaced by the result of Dijkstra's algorithm.

use vstd::prelude::*;
use vstd::arithmetic::power2::{lemma2_to64, lemma_pow2_unfold, pow2};
use std::collections::VecDeque;
use crate::weight::Weight;
use crate::spec::{adj, has_path_cost, is_dist, is_predicate, is_wpath, lemma_walk_take, lemma_wpath_push, nonneg, paths_cost_at_least,
    pred_of, walk_cost, costs_fit, wf, wstep};
use crate::directed::dijkstra::{cheapest_goal_path, entry_cost, entry_ok, in_table, no_goal_wpath, ranked, table_ok, wreach};
use crate::spec::Goal;

verus! {

/// No edge from a node of the table improves the cost of its target, which is
/// in the table too.
pub open spec fn relaxed_table<C: Weight>(g: Seq<Seq<(usize, C)>>, start: usize, r: Seq<Option<(usize, C)>>) -> bool {
    forall|u: int, k: int| 0 <= u < g.len() && 0 <= k < g[u].len() && #[trigger] in_table(r, start, u as usize) && #[trigger] g[u][k].0 < g.len()
        ==> in_table(r, start, g[u][k].0) && entry_cost(r, start, g[u][k].0) <= entry_cost(r, start, u as usize) + g[u][k].1.val()
}

/// What a table of shortest paths from `start` promises: it is a well-made
/// table, it holds exactly the nodes that the start reaches, and each cost is
/// the least cost of a path.
pub open spec fn shortest_table<C: Weight>(g: Seq<Seq<(usize, C)>>, start: usize, r: Seq<Option<(usize, C)>>) -> bool {
    &&& table_ok(g, start, r)
    &&& forall|v: usize| v < g.len() && v != start ==> (r[v as int] is Some <==> #[trigger] wreach(g, start, v))
    &&& forall|v: usize| v < g.len() && #[trigger] in_table(r, start, v) ==> is_dist(g, start, v, entry_cost(r, start, v))
    &&& exists|rank: Seq<int>| #[trigger] ranked(r, start, rank)
}

/// Along a path from the start through a relaxed table, each node is in the
/// table at no more than the cost of the path so far.
proof fn lemma_relaxed_bound<C: Weight>(g: Seq<Seq<(usize, C)>>, start: usize, r: Seq<Option<(usize, C)>>, p: Seq<usize>, e: Seq<int>, t: usize, k: int)
    requires
        wf(g),
        relaxed_table(g, start, r),
        is_wpath(g, p, e, start, t),
        0 <= k < p.len(),
    ensures
        in_table(r, start, p[k]),
        entry_cost(r, start, p[k]) <= walk_cost(g, p, e.take(k)),
    decreases k,
{
    if k == 0 {
        assert(e.take(0) =~= Seq::<int>::empty());
    } else {
        lemma_relaxed_bound(g, start, r, p, e, t, k - 1);
        lemma_walk_take(g, p, e, k - 1);
        assert(wstep(g, p, e, k - 1));
        let u = p[k - 1] as int;
        let j = e[k - 1];
        assert(g[u][j].0 < g.len());
        assert(in_table(r, start, u as usize));
    }
}

/// A well-made, relaxed table that holds the start at cost 0 is a table of
/// shortest paths.
pub proof fn lemma_certified<C: Weight>(g: Seq<Seq<(usize, C)>>, start: usize, r: Seq<Option<(usize, C)>>, rank: Seq<int>)
    requires
        wf(g),
        start < g.len(),
        table_ok(g, start, r),
        relaxed_table(g, start, r),
        ranked(r, start, rank),
    ensures
        shortest_table(g, start, r),
{
    assert forall|v: usize| v < g.len() && v != start implies (r[v as int] is Some <==> #[trigger] wreach(g, start, v)) by {
        if r[v as int] is Some {
            assert(entry_ok(g, start, r, v as int));
            let (p, e) = choose|p: Seq<usize>, e: Seq<int>| #[trigger] is_wpath(g, p, e, start, v as usize) && walk_cost(g, p, e) == r[v as int]->Some_0.1.val();
        }
        if wreach(g, start, v) {
            let (p, e) = choose|p: Seq<usize>, e: Seq<int>| #[trigger] is_wpath(g, p, e, start, v);
            lemma_relaxed_bound(g, start, r, p, e, v, p.len() - 1);
        }
    }
    assert forall|v: usize| v < g.len() && #[trigger] in_table(r, start, v) implies is_dist(g, start, v, entry_cost(r, start, v)) by {
        if v == start {
            let p = seq![start];
            let e = Seq::<int>::empty();
            assert(is_wpath(g, p, e, start, start));
            assert(walk_cost(g, p, e) == 0);
        } else {
            assert(entry_ok(g, start, r, v as int));
        }
        assert forall|p: Seq<usize>, e: Seq<int>| #[trigger] is_wpath(g, p, e, start, v) implies walk_cost(g, p, e) >= entry_cost(r, start, v) by {
            lemma_relaxed_bound(g, start, r, p, e, v, p.len() - 1);
            assert(e.take(p.len() - 1) =~= e);
        }
    }
    assert(ranked(r, start, rank));
}

/// In a table of shortest paths over weights that are not negative, no cost
/// is negative.
proof fn lemma_shortest_cost_nonneg<C: Weight>(g: Seq<Seq<(usize, C)>>, start: usize, r: Seq<Option<(usize, C)>>, v: usize)
    requires
        wf(g),
        nonneg(g),
        shortest_table(g, start, r),
        v < g.len(),
        in_table(r, start, v),
    ensures
        entry_cost(r, start, v) >= 0,
{
    if v != start {
        assert(is_dist(g, start, v, entry_cost(r, start, v)));
        let (p, e) = choose|p: Seq<usize>, e: Seq<int>| #[trigger] is_wpath(g, p, e, start, v) && walk_cost(g, p, e) == entry_cost(r, start, v);
        crate::directed::idastar::lemma_walk_nonneg(g, p, e);
    }
}

/// In a table of shortest paths, an edge from a node of the table leads to a
/// node of the table, whose cost it does not improve.
proof fn lemma_shortest_edge<C: Weight>(g: Seq<Seq<(usize, C)>>, start: usize, r: Seq<Option<(usize, C)>>, u: usize, k: int)
    requires
        wf(g),
        start < g.len(),
        shortest_table(g, start, r),
        u < g.len(),
        in_table(r, start, u),
        0 <= k < g[u as int].len(),
    ensures
        in_table(r, start, g[u as int][k].0),
        entry_cost(r, start, g[u as int][k].0) <= entry_cost(r, start, u) + g[u as int][k].1.val(),
{
    let t = g[u as int][k].0;
    assert(is_dist(g, start, u, entry_cost(r, start, u)));
    let (p, e) = choose|p: Seq<usize>, e: Seq<int>| #[trigger] is_wpath(g, p, e, start, u) && walk_cost(g, p, e) == entry_cost(r, start, u);
    lemma_wpath_push(g, p, e, start, u, k);
    let p2 = p.push(t);
    let e2 = e.push(k);
    assert(is_wpath(g, p2, e2, start, t));
    assert(t < g.len());
    if t != start {
        assert(wreach(g, start, t));
        assert(r[t as int] is Some);
    }
    assert(in_table(r, start, t));
    assert(is_dist(g, start, t, entry_cost(r, start, t)));
    assert(paths_cost_at_least(g, start, t, entry_cost(r, start, t)));
    assert(walk_cost(g, p2, e2) >= entry_cost(r, start, t));
}

/// Every entry of the table has its parent in the table.
#[verifier::opaque]
spec fn parents_in_table<C>(r: Seq<Option<(usize, C)>>, start: usize) -> bool {
    forall|y: int| 0 <= y < r.len() && #[trigger] r[y] is Some ==> r[y]->Some_0.0 < r.len() && in_table(r, start, r[y]->Some_0.0)
}

/// Each entry whose parent is marked is marked too.
#[verifier::opaque]
spec fn closed_under_parents<C>(r: Seq<Option<(usize, C)>>, seen: Seq<bool>) -> bool {
    forall|y: int| 0 <= y < r.len() && #[trigger] r[y] is Some && seen[r[y]->Some_0.0 as int] ==> seen[y]
}

/// Where the parents are ranked, marks that hold at the start and pass from
/// parents to their entries reach every entry.
proof fn lemma_ranked_marked<C>(r: Seq<Option<(usize, C)>>, start: usize, rank: Seq<int>, seen: Seq<bool>, x: int)
    requires
        ranked(r, start, rank),
        seen.len() == r.len(),
        start < r.len(),
        seen[start as int],
        parents_in_table(r, start),
        closed_under_parents(r, seen),
        0 <= x < r.len(),
        r[x] is Some,
    ensures
        seen[x],
    decreases rank[x],
{
    reveal(parents_in_table);
    reveal(closed_under_parents);
    let p = r[x]->Some_0.0;
    if p != start {
        lemma_ranked_marked(r, start, rank, seen, p as int);
    }
}

/// The cost that the table gives `v`.
fn table_cost<C: Weight>(table: &Vec<Option<(usize, C)>>, start: usize, v: usize) -> (c: C)
    requires
        v < table@.len(),
        in_table(table@, start, v),
    ensures
        c.val() == entry_cost(table@, start, v),
{
    if v == start {
        C::zero()
    } else {
        match table[v] {
            Some((_, c)) => c,
            None => C::zero(),
        }
    }
}

/// Check that a table is a table of shortest paths from `start`: that each
/// entry hangs from a parent in the table along an edge that makes up the
/// difference of their costs, that the parents lead back to the start, and that
/// no edge improves a cost.
#[verifier::rlimit(50)]
pub fn certify<C: Weight>(start: usize, successors: &[Vec<(usize, C)>], table: &Vec<Option<(usize, C)>>) -> (ok: bool)
    requires
        wf(adj(successors@)),
        nonneg(adj(successors@)),
        start < successors@.len(),
    ensures
        ok == shortest_table(adj(successors@), start, table@),
{
    let ghost g = adj(successors@);
    let n = successors.len();
    if table.len() != n || table[start].is_some() {
        return false;
    }
    // Every entry names a parent in the table and an edge from it.
    let mut v: usize = 0;
    while v < n
        invariant
            g == adj(successors@),
            wf(g),
            n == g.len(),
            table@.len() == n,
            start < n,
            nonneg(g),
            table@[start as int] is None,
            v <= n,
            forall|x: int| 0 <= x < v && #[trigger] table@[x] is Some ==> entry_link(g, start, table@, x),
        decreases n - v,
    {
        match table[v] {
            Some((p, c)) => {
                if p >= n || !(p == start || table[p].is_some()) {
                    proof {
                        assert(table@[v as int] is Some);
                    }
                    return false;
                }
                let cp = table_cost(table, start, p);
                let edges = &successors[p];
                proof { assert(edges@ == g[p as int]); }
                let mut k: usize = 0;
                let mut found = false;
                while k < edges.len() && !found
                    invariant
                        g == adj(successors@),
                        edges@ == g[p as int],
                        k <= edges@.len(),
                        p < g.len(),
                        table@.len() == n,
                        v < n,
                        nonneg(g),
                        table@[v as int] == Some((p, c)),
                        cp.val() == entry_cost(table@, start, p),
                        !found ==> forall|j: int| 0 <= j < k && #[trigger] g[p as int][j].0 == v
                            && c.val() == cp.val() + g[p as int][j].1.val() ==> cp.val() < 0,
                        found ==> exists|j: int| 0 <= j < g[p as int].len() && #[trigger] g[p as int][j].0 == v
                            && c.val() == entry_cost(table@, start, p) + g[p as int][j].1.val(),
                    decreases edges@.len() - k, if found { 0int } else { 1int },
                {
                    let (to, w) = edges[k];
                    proof { assert(g[p as int][k as int] == (to, w)); }
                    if to == v && w.le(&c) {
                        proof { C::lemma_range(c); C::lemma_range(w); }
                        if C::zero().le(&w) {
                            let diff = c.minus(w);
                            if diff.same(&cp) {
                                found = true;
                            }
                        }
                    }
                    k = k + 1;
                }
                if !found {
                    proof {
                        if shortest_table(g, start, table@) {
                            assert(table@[v as int] is Some);
                            assert(entry_ok(g, start, table@, v as int));
                            let j = choose|j: int| 0 <= j < g[p as int].len() && #[trigger] g[p as int][j].0 == v
                                && c.val() == entry_cost(table@, start, p) + g[p as int][j].1.val();
                            lemma_shortest_cost_nonneg(g, start, table@, p);
                        }
                    }
                    return false;
                }
            },
            None => {},
        }
        v = v + 1;
    }
    // The parents lead back to the start: walk the tree of parents from the start.
    let mut children: Vec<Vec<usize>> = Vec::new();
    let mut i: usize = 0;
    while i < n
        invariant
            i <= n,
            children@.len() == i,
            forall|x: int| 0 <= x < i ==> (#[trigger] children@[x])@.len() == 0,
        decreases n - i,
    {
        children.push(Vec::new());
        i = i + 1;
    }
    let mut v2: usize = 0;
    while v2 < n
        invariant
            n == g.len(),
            table@.len() == n,
            forall|x: int| 0 <= x < n && #[trigger] table@[x] is Some ==> entry_link(g, start, table@, x),
            children@.len() == n,
            v2 <= n,
            forall|p: int, k: int| 0 <= p < n && 0 <= k < children@[p]@.len() ==> #[trigger] children@[p]@[k] < v2
                && table@[children@[p]@[k] as int] is Some && table@[children@[p]@[k] as int]->Some_0.0 == p,
            forall|x: int| 0 <= x < v2 && #[trigger] table@[x] is Some ==> children@[table@[x]->Some_0.0 as int]@.contains(x as usize),
        decreases n - v2,
    {
        match table[v2] {
            Some((p, _)) => {
                proof { assert(entry_link(g, start, table@, v2 as int)); }
                let ghost c0 = children@;
                children[p].push(v2);
                proof {
                    assert forall|q: int, k: int| 0 <= q < n && 0 <= k < children@[q]@.len() implies #[trigger] children@[q]@[k] < v2 + 1
                        && table@[children@[q]@[k] as int] is Some && table@[children@[q]@[k] as int]->Some_0.0 == q by {
                        if q != p {
                            assert(children@[q] == c0[q]);
                        } else if k < c0[q]@.len() {
                            assert(children@[q]@[k] == c0[q]@[k]);
                        }
                    }
                    assert forall|x: int| 0 <= x < v2 + 1 && #[trigger] table@[x] is Some implies children@[table@[x]->Some_0.0 as int]@.contains(x as usize) by {
                        let q = table@[x]->Some_0.0 as int;
                        if x == v2 {
                            assert(children@[q]@[c0[q]@.len() as int] == x as usize);
                        } else {
                            assert(c0[q]@.contains(x as usize));
                            let k = choose|k: int| 0 <= k < c0[q]@.len() && c0[q]@[k] == x as usize;
                            if q == p {
                                assert(children@[q]@[k] == x as usize);
                            } else {
                                assert(children@[q] == c0[q]);
                            }
                        }
                    }
                }
            },
            None => {},
        }
        v2 = v2 + 1;
    }
    let mut seen: Vec<bool> = Vec::new();
    let mut i2: usize = 0;
    while i2 < n
        invariant
            i2 <= n,
            seen@.len() == i2,
            forall|x: int| 0 <= x < i2 ==> !#[trigger] seen@[x],
        decreases n - i2,
    {
        seen.push(false);
        i2 = i2 + 1;
    }
    seen.set(start, true);
    let mut queue: Vec<usize> = Vec::new();
    queue.push(start);
    let mut head: usize = 0;
    let ghost mut pos: Seq<int> = Seq::new(n as nat, |x: int| 0);
    proof {
        let p = seq![start];
        let e = Seq::<int>::empty();
        assert(is_wpath(g, p, e, start, start));
        assert(walk_cost(g, p, e) == 0);
        assert forall|x: usize| x < n implies (#[trigger] seen@[x as int] <==> queue@.contains(x)) by {
            if x == start {
                assert(queue@[0] == start);
            }
        }
    }
    while head < queue.len()
        invariant
            g == adj(successors@),
            wf(g),
            n == g.len(),
            start < n,
            table@.len() == n,
            table@[start as int] is None,
            forall|x: int| 0 <= x < n && #[trigger] table@[x] is Some ==> entry_link(g, start, table@, x),
            children@.len() == n,
            forall|p: int, k: int| 0 <= p < n && 0 <= k < children@[p]@.len() ==> #[trigger] children@[p]@[k] < n
                && table@[children@[p]@[k] as int] is Some && table@[children@[p]@[k] as int]->Some_0.0 == p,
            seen@.len() == n,
            seen@[start as int],
            head <= queue@.len(),
            forall|a: int, b: int| 0 <= a < b < queue@.len() ==> #[trigger] queue@[a] != #[trigger] queue@[b],
            forall|k: int| 0 <= k < queue@.len() ==> #[trigger] queue@[k] < n,
            forall|x: usize| x < n ==> (#[trigger] seen@[x as int] <==> queue@.contains(x)),
            forall|x: usize| x < n && #[trigger] seen@[x as int] ==> in_table(table@, start, x)
                && has_path_cost(g, start, x, entry_cost(table@, start, x)),
            pos.len() == n,
            forall|x: int| 0 <= x < n ==> 0 <= #[trigger] pos[x],
            forall|x: int| 0 <= x < n && #[trigger] seen@[x] ==> pos[x] < queue@.len() && queue@[pos[x]] == x,
            forall|x: int| 0 <= x < n && #[trigger] seen@[x] && table@[x] is Some ==> seen@[table@[x]->Some_0.0 as int]
                && pos[table@[x]->Some_0.0 as int] < pos[x],
            forall|x: int| 0 <= x < n && #[trigger] table@[x] is Some ==> children@[table@[x]->Some_0.0 as int]@.contains(x as usize),
            forall|j: int, kk: int| 0 <= j < head && 0 <= kk < children@[queue@[j] as int]@.len()
                ==> seen@[#[trigger] children@[queue@[j] as int]@[kk] as int],
        decreases n - queue@.len(), queue@.len() - head,
    {
        proof { crate::directed::bfs::lemma_seq_distinct_len(queue@, n as nat); }
        let u = queue[head];
        head = head + 1;
        proof {
            assert(queue@.contains(u));
        }
        let kids = &children[u];
        let mut k: usize = 0;
        let ghost qstart = queue@.len();
        while k < kids.len()
            invariant
                queue@.len() >= qstart,
                g == adj(successors@),
                wf(g),
                n == g.len(),
                start < n,
                u < n,
                seen@[u as int],
                table@.len() == n,
                table@[start as int] is None,
                forall|x: int| 0 <= x < n && #[trigger] table@[x] is Some ==> entry_link(g, start, table@, x),
                children@.len() == n,
                kids@ == children@[u as int]@,
                forall|p: int, kk: int| 0 <= p < n && 0 <= kk < children@[p]@.len() ==> #[trigger] children@[p]@[kk] < n
                    && table@[children@[p]@[kk] as int] is Some && table@[children@[p]@[kk] as int]->Some_0.0 == p,
                k <= kids@.len(),
                seen@.len() == n,
                seen@[start as int],
                head <= queue@.len(),
                forall|a: int, b: int| 0 <= a < b < queue@.len() ==> #[trigger] queue@[a] != #[trigger] queue@[b],
                forall|j: int| 0 <= j < queue@.len() ==> #[trigger] queue@[j] < n,
                forall|x: usize| x < n ==> (#[trigger] seen@[x as int] <==> queue@.contains(x)),
                forall|x: usize| x < n && #[trigger] seen@[x as int] ==> in_table(table@, start, x)
                    && has_path_cost(g, start, x, entry_cost(table@, start, x)),
                pos.len() == n,
                forall|x: int| 0 <= x < n ==> 0 <= #[trigger] pos[x],
                forall|x: int| 0 <= x < n && #[trigger] seen@[x] ==> pos[x] < queue@.len() && queue@[pos[x]] == x,
                forall|x: int| 0 <= x < n && #[trigger] seen@[x] && table@[x] is Some ==> seen@[table@[x]->Some_0.0 as int]
                    && pos[table@[x]->Some_0.0 as int] < pos[x],
                queue@[head - 1] == u,
                head >= 1,
                forall|x: int| 0 <= x < n && #[trigger] table@[x] is Some ==> children@[table@[x]->Some_0.0 as int]@.contains(x as usize),
                forall|j: int, kk: int| 0 <= j < head - 1 && 0 <= kk < children@[queue@[j] as int]@.len()
                    ==> seen@[#[trigger] children@[queue@[j] as int]@[kk] as int],
                forall|kk: int| 0 <= kk < k ==> seen@[#[trigger] kids@[kk] as int],
            decreases kids@.len() - k,
        {
            let ghost seen0 = seen@;
            let ghost queue0 = queue@;
            let c = kids[k];
            proof {
                assert(children@[u as int]@[k as int] == c);
            }
            if !seen[c] {
                proof {
                    assert(table@[c as int] is Some);
                    assert(entry_link(g, start, table@, c as int));
                    assert(in_table(table@, start, u));
                    let (p, e) = choose|p: Seq<usize>, e: Seq<int>| #[trigger] is_wpath(g, p, e, start, u)
                        && walk_cost(g, p, e) == entry_cost(table@, start, u);
                    let j = choose|j: int| 0 <= j < g[u as int].len() && #[trigger] g[u as int][j].0 == c
                        && table@[c as int]->Some_0.1.val() == entry_cost(table@, start, u) + g[u as int][j].1.val();
                    lemma_wpath_push(g, p, e, start, u, j);
                    assert(c != start);
                    assert(has_path_cost(g, start, c, entry_cost(table@, start, c)));
                }
                let ghost q0 = queue@;
                proof {
                    assert(seen@[u as int]);
                    assert(queue@[pos[u as int]] == u);
                    if pos[u as int] != head - 1 {
                        assert(queue@[pos[u as int]] != queue@[head - 1]);
                    }
                    pos = pos.update(c as int, q0.len() as int);
                }
                seen.set(c, true);
                queue.push(c);
                proof {
                    assert forall|x: usize| x < n implies (#[trigger] seen@[x as int] <==> queue@.contains(x)) by {
                        if x == c {
                            assert(queue@[q0.len() as int] == c);
                        } else if queue@.contains(x) {
                            let kk = choose|kk: int| 0 <= kk < queue@.len() && queue@[kk] == x;
                            assert(q0[kk] == x);
                            assert(q0.contains(x));
                        } else if q0.contains(x) {
                            let kk = choose|kk: int| 0 <= kk < q0.len() && q0[kk] == x;
                            assert(queue@[kk] == x);
                        }
                    }
                    assert forall|a: int, b: int| 0 <= a < b < queue@.len() implies #[trigger] queue@[a] != #[trigger] queue@[b] by {
                        if b == q0.len() {
                            assert(q0.contains(q0[a]));
                        } else {
                            assert(queue@[a] == q0[a] && queue@[b] == q0[b]);
                        }
                    }
                    assert forall|x: int| 0 <= x < n && #[trigger] seen@[x] implies pos[x] < queue@.len() && queue@[pos[x]] == x by {
                        if x != c {
                            assert(queue@[pos[x]] == q0[pos[x]]);
                        }
                    }
                    assert forall|x: int| 0 <= x < n && #[trigger] seen@[x] && table@[x] is Some implies seen@[table@[x]->Some_0.0 as int]
                        && pos[table@[x]->Some_0.0 as int] < pos[x] by {
                        if x == c {
                            assert(table@[c as int]->Some_0.0 == u);
                        } else {
                            let px = table@[x]->Some_0.0 as int;
                            assert(px < n) by {
                                assert(entry_link(g, start, table@, x));
                            }
                            if px == c {
                                assert(false);
                            }
                        }
                    }
                }
            }
            proof {
                assert forall|i: int| 0 <= i < queue0.len() implies queue@[i] == queue0[i] by {}
                assert forall|x: int| 0 <= x < n && seen0[x] implies seen@[x] by {}
                assert forall|j: int, kk: int| 0 <= j < head - 1 && 0 <= kk < children@[queue@[j] as int]@.len()
                    implies seen@[#[trigger] children@[queue@[j] as int]@[kk] as int] by {
                    assert(queue@[j] == queue0[j]);
                    assert(seen0[children@[queue0[j] as int]@[kk] as int]);
                }
                assert forall|kk: int| 0 <= kk < k + 1 implies seen@[#[trigger] kids@[kk] as int] by {
                    if kk < k {
                        assert(seen0[kids@[kk] as int]);
                    }
                }
            }
            k = k + 1;
        }
        proof {
            crate::directed::bfs::lemma_seq_distinct_len(queue@, n as nat);
            assert forall|j: int, kk: int| 0 <= j < head && 0 <= kk < children@[queue@[j] as int]@.len()
                implies seen@[#[trigger] children@[queue@[j] as int]@[kk] as int] by {
                if j == head - 1 {
                    assert(children@[queue@[j] as int]@[kk] == kids@[kk]);
                }
            }
        }
    }
    // Every entry was reached from the start.
    proof {
        assert forall|y: int| 0 <= y < table@.len() && #[trigger] table@[y] is Some && seen@[table@[y]->Some_0.0 as int] implies seen@[y] by {
            let q = table@[y]->Some_0.0 as int;
            assert(entry_link(g, start, table@, y));
            assert(pos[q] < queue@.len() && queue@[pos[q]] == q);
            assert(children@[q]@.contains(y as usize));
            let kk = choose|kk: int| 0 <= kk < children@[q]@.len() && children@[q]@[kk] == y as usize;
            assert(children@[queue@[pos[q]] as int]@[kk] == y as usize);
        }
        assert forall|y: int| 0 <= y < table@.len() && #[trigger] table@[y] is Some implies table@[y]->Some_0.0 < table@.len()
            && in_table(table@, start, table@[y]->Some_0.0) by {
            assert(entry_link(g, start, table@, y));
        }
        reveal(parents_in_table);
        reveal(closed_under_parents);
    }
    let mut v3: usize = 0;
    while v3 < n
        invariant
            g == adj(successors@),
            n == g.len(),
            table@.len() == n,
            seen@.len() == n,
            start < n,
            seen@[start as int],
            parents_in_table(table@, start),
            closed_under_parents(table@, seen@),
            v3 <= n,
            forall|x: int| 0 <= x < v3 && #[trigger] table@[x] is Some ==> seen@[x],
        decreases n - v3,
    {
        if table[v3].is_some() && !seen[v3] {
            proof {
                if shortest_table(g, start, table@) {
                    let rank = choose|rank: Seq<int>| #[trigger] ranked(table@, start, rank);
                    lemma_ranked_marked(table@, start, rank, seen@, v3 as int);
                }
            }
            return false;
        }
        v3 = v3 + 1;
    }
    // No edge improves a cost.
    let mut u: usize = 0;
    while u < n
        invariant
            g == adj(successors@),
            wf(g),
            nonneg(g),
            n == g.len(),
            start < n,
            table@.len() == n,
            table@[start as int] is None,
            u <= n,
            forall|x: int, k: int| 0 <= x < u && 0 <= k < g[x].len() && #[trigger] in_table(table@, start, x as usize) && #[trigger] g[x][k].0 < g.len()
                ==> in_table(table@, start, g[x][k].0) && entry_cost(table@, start, g[x][k].0) <= entry_cost(table@, start, x as usize) + g[x][k].1.val(),
        decreases n - u,
    {
        if u == start || table[u].is_some() {
            let cu = table_cost(table, start, u);
            let edges = &successors[u];
            proof { assert(edges@ == g[u as int]); }
            let mut k: usize = 0;
            while k < edges.len()
                invariant
                    g == adj(successors@),
                    wf(g),
                    nonneg(g),
                    n == g.len(),
                    start < n,
                    table@.len() == n,
                    u < n,
                    in_table(table@, start, u),
                    cu.val() == entry_cost(table@, start, u),
                    edges@ == g[u as int],
                    k <= edges@.len(),
                    forall|j: int| 0 <= j < k ==> in_table(table@, start, #[trigger] g[u as int][j].0)
                        && entry_cost(table@, start, g[u as int][j].0) <= entry_cost(table@, start, u) + g[u as int][j].1.val(),
                decreases edges@.len() - k,
            {
                let (to, w) = edges[k];
                proof {
                    assert(g[u as int][k as int] == (to, w));
                    assert(to < n);
                    assert(w.val() >= 0);
                }
                if !(to == start || table[to].is_some()) {
                    proof {
                        if shortest_table(g, start, table@) {
                            lemma_shortest_edge(g, start, table@, u, k as int);
                        }
                    }
                    return false;
                }
                let ct = table_cost(table, start, to);
                proof {
                    C::lemma_range(w);
                    C::lemma_range(cu);
                }
                let room = C::max_value().minus(w);
                if cu.le(&room) {
                    let through = cu.plus(w);
                    if through.lt(&ct) {
                        proof {
                            if shortest_table(g, start, table@) {
                                lemma_shortest_edge(g, start, table@, u, k as int);
                            }
                        }
                        return false;
                    }
                } else {
                    proof { C::lemma_range(ct); }
                }
                k = k + 1;
            }
        }
        u = u + 1;
    }
    proof {
        assert forall|x: int| 0 <= x < n && #[trigger] table@[x] is Some implies entry_ok(g, start, table@, x) by {
            assert(entry_link(g, start, table@, x));
            assert(seen@[x]);
        }
        assert forall|x: int| 0 <= x < table@.len() && #[trigger] table@[x] is Some implies table@[x]->Some_0.0 < table@.len()
            && pos[table@[x]->Some_0.0 as int] < pos[x] by {
            assert(seen@[x]);
            assert(entry_link(g, start, table@, x));
        }
        assert(ranked(table@, start, pos));
        lemma_certified(g, start, table@, pos);
    }
    true
}

/// The entry of `v` names a parent in the table and an edge from it that
/// makes up the difference of their costs.
pub open spec fn entry_link<C: Weight>(g: Seq<Seq<(usize, C)>>, start: usize, r: Seq<Option<(usize, C)>>, v: int) -> bool {
    let p = r[v]->Some_0.0;
    let c = r[v]->Some_0.1.val();
    &&& p < g.len()
    &&& in_table(r, start, p)
    &&& exists|k: int| 0 <= k < g[p as int].len() && #[trigger] g[p as int][k].0 == v && c == entry_cost(r, start, p) + g[p as int][k].1.val()
}

/// A tentative distance label: cost, number of edges, node and the node it
/// was reached from. Labels are ordered by cost, then edges, node and
/// predecessor.
#[derive(Clone, Copy)]
struct Label<C> {
    cost: C,
    hops: usize,
    node: usize,
    pred: usize,
}

/// The order of labels.
spec fn label_less<C: Weight>(a: Label<C>, b: Label<C>) -> bool {
    ||| a.cost.val() < b.cost.val()
    ||| a.cost.val() == b.cost.val() && a.hops < b.hops
    ||| a.cost.val() == b.cost.val() && a.hops == b.hops && a.node < b.node
    ||| a.cost.val() == b.cost.val() && a.hops == b.hops && a.node == b.node && a.pred < b.pred
}

/// Whether `a` comes before `b`.
fn label_lt<C: Weight>(a: &Label<C>, b: &Label<C>) -> (r: bool)
    ensures
        r == label_less(*a, *b),
{
    if a.cost.lt(&b.cost) {
        true
    } else if !a.cost.same(&b.cost) {
        false
    } else if a.hops != b.hops {
        a.hops < b.hops
    } else if a.node != b.node {
        a.node < b.node
    } else {
        a.pred < b.pred
    }
}

/// An upper bound on labels; `None` bounds nothing.
type Bound<C> = Option<Label<C>>;

/// The label lies below the bound.
spec fn below_bound<C: Weight>(l: Label<C>, b: Bound<C>) -> bool {
    match b {
        None => true,
        Some(x) => label_less(l, x),
    }
}

/// Each of `sources` is in `w`.
spec fn covers(w: Seq<usize>, sources: Seq<usize>) -> bool {
    forall|j: int| 0 <= j < sources.len() ==> w.contains(#[trigger] sources[j])
}

/// The smaller of two bounds.
fn bound_min<C: Weight>(a: Bound<C>, b: Bound<C>) -> (r: Bound<C>)
    ensures
        r == (match (a, b) {
            (None, x) => x,
            (x, None) => x,
            (Some(x), Some(y)) => if label_less(y, x) { Some(y) } else { Some(x) },
        }),
{
    match (a, b) {
        (None, x) => x,
        (x, None) => x,
        (Some(x), Some(y)) => if label_lt(&y, &x) { Some(y) } else { Some(x) },
    }
}

/// The label is below the bound.
fn bound_lt<C: Weight>(a: &Label<C>, b: &Bound<C>) -> (r: bool)
    ensures
        r == (match *b {
            None => true,
            Some(x) => label_less(*a, x),
        }),
{
    match b {
        None => true,
        Some(b) => label_lt(a, b),
    }
}

/// The label is at least `lo` and below `hi`.
fn in_range<C: Weight>(x: &Label<C>, lo: &Bound<C>, hi: &Bound<C>) -> (r: bool)
    ensures
        r == ((match *lo {
            None => false,
            Some(l) => !label_less(*x, l),
        }) && (match *hi {
            None => true,
            Some(h) => label_less(*x, h),
        })),
{
    let ge_lo = match lo {
        Some(lo) => !label_lt(x, lo),
        None => false,
    };
    ge_lo && bound_lt(x, hi)
}

/// What the search knows of a node of the port graph.
#[derive(Clone, Copy)]
struct NodeState<C> {
    label: Option<Label<C>>,
    pred: usize,
    complete: bool,
}

/// Marks on the nodes, cleared all at once by moving to a new epoch.
struct MarkSet {
    marks: Vec<u32>,
    epoch: u32,
}

impl MarkSet {
    fn new(len: usize) -> (r: Self)
        ensures
            r.marks@.len() == len,
            r.epoch == 1,
            forall|k: int| 0 <= k < len ==> #[trigger] r.marks@[k] == 0,
    {
        let mut marks: Vec<u32> = Vec::new();
        let mut i: usize = 0;
        while i < len
            invariant
                i <= len,
                marks@.len() == i,
                forall|k: int| 0 <= k < i ==> #[trigger] marks@[k] == 0,
            decreases len - i,
        {
            marks.push(0);
            i = i + 1;
        }
        MarkSet { marks, epoch: 1 }
    }

    /// Start a new epoch, in which no node is marked.
    fn next_epoch(&mut self) -> (e: u32)
        ensures
            final(self).marks@.len() == old(self).marks@.len(),
            e == final(self).epoch,
            e >= 1,
            (forall|k: int| 0 <= k < old(self).marks@.len() ==> #[trigger] old(self).marks@[k] <= old(self).epoch)
                ==> forall|k: int| 0 <= k < final(self).marks@.len() ==> #[trigger] final(self).marks@[k] < e,
    {
        if self.epoch == u32::MAX {
            let mut i: usize = 0;
            while i < self.marks.len()
                invariant
                    i <= self.marks@.len(),
                    self.marks@.len() == old(self).marks@.len(),
                    forall|k: int| 0 <= k < i ==> #[trigger] self.marks@[k] == 0,
                decreases self.marks@.len() - i,
            {
                self.marks.set(i, 0);
                i = i + 1;
            }
            self.epoch = 1;
        } else {
            self.epoch = self.epoch + 1;
        }
        self.epoch
    }

    /// Whether the node was marked in `epoch`.
    fn is_marked(&self, idx: usize, epoch: u32) -> (r: bool)
        requires
            idx < self.marks@.len(),
        ensures
            r == (self.marks@[idx as int] == epoch),
    {
        self.marks[idx] == epoch
    }

    /// Mark the node in `epoch`.
    fn mark(&mut self, idx: usize, epoch: u32)
        requires
            idx < old(self).marks@.len(),
        ensures
            final(self).marks@ == old(self).marks@.update(idx as int, epoch),
            final(self).epoch == old(self).epoch,
    {
        self.marks.set(idx, epoch);
    }
}

/// Work space of the recursion, one slot per node of the port graph.
struct Scratch {
    in_w: MarkSet,
    extracted: MarkSet,
    out_set: MarkSet,
    parent_in_w: Vec<usize>,
    subtree_size: Vec<usize>,
    children: Vec<Vec<usize>>,
}

impl Scratch {
    spec fn wf(&self, n: nat) -> bool {
        &&& self.in_w.marks@.len() == n
        &&& forall|k: int| 0 <= k < n ==> #[trigger] self.in_w.marks@[k] <= self.in_w.epoch
        &&& forall|k: int| 0 <= k < n ==> #[trigger] self.extracted.marks@[k] <= self.extracted.epoch
        &&& self.extracted.marks@.len() == n
        &&& self.out_set.marks@.len() == n
        &&& self.parent_in_w@.len() == n
        &&& self.subtree_size@.len() == n
        &&& self.children@.len() == n
        &&& forall|v: int, k: int| 0 <= v < n && 0 <= k < self.children@[v]@.len() ==> #[trigger] self.children@[v]@[k] < n
    }

    fn new(len: usize) -> (r: Self)
        ensures
            r.wf(len as nat),
    {
        let mut parent_in_w: Vec<usize> = Vec::new();
        let mut subtree_size: Vec<usize> = Vec::new();
        let mut children: Vec<Vec<usize>> = Vec::new();
        let mut i: usize = 0;
        while i < len
            invariant
                i <= len,
                parent_in_w@.len() == i,
                subtree_size@.len() == i,
                children@.len() == i,
                forall|v: int| 0 <= v < i ==> (#[trigger] children@[v])@.len() == 0,
            decreases len - i,
        {
            parent_in_w.push(usize::MAX);
            subtree_size.push(0);
            children.push(Vec::new());
            i = i + 1;
        }
        Scratch {
            in_w: MarkSet::new(len),
            extracted: MarkSet::new(len),
            out_set: MarkSet::new(len),
            parent_in_w,
            subtree_size,
            children,
        }
    }
}

/// Where a key sits: its block, and its position there when it was placed.
#[derive(Clone, Copy)]
struct Location {
    block_id: usize,
    index: usize,
}

/// The two kinds of blocks: those prepended in batches, and those kept in
/// order of their largest label.
#[derive(Clone, Copy, PartialEq, Eq, Structural)]
enum BlockKind {
    D0,
    D1,
}

/// A block of keys; `max` is the label of `max_key`.
struct Block<C> {
    items: Vec<usize>,
    max: Label<C>,
    max_key: usize,
    kind: BlockKind,
}

/// A value that counts only in the epoch in which it was set.
#[derive(Clone, Copy)]
struct EpochOption<T> {
    epoch: u32,
    value: Option<T>,
}

impl<T: Copy> EpochOption<T> {
    /// The value, if it was set in `epoch`.
    spec fn at(self, epoch: u32) -> Option<T> {
        if self.epoch == epoch { self.value } else { None }
    }

    fn get(&self, epoch: u32) -> (r: Option<T>)
        ensures
            r == self.at(epoch),
    {
        if self.epoch == epoch { self.value } else { None }
    }

    fn empty() -> (r: Self)
        ensures
            r.epoch == 0 && r.value is None,
    {
        EpochOption { epoch: 0, value: None }
    }
}

/// The order of keys of the ordered blocks: by label, then block.
spec fn key_less<C: Weight>(a: (Label<C>, usize), b: (Label<C>, usize)) -> bool {
    label_less(a.0, b.0) || (a.0 == b.0 && a.1 < b.1)
}

/// A list of keys without repeats.
spec fn no_repeats(s: Seq<usize>) -> bool {
    forall|i: int, j: int| 0 <= i < j < s.len() ==> s[i] != s[j]
}

/// The place of key `k` in the table, in `epoch`.
spec fn loc_at(loc: Seq<EpochOption<Location>>, epoch: u32, k: usize) -> Option<Location> {
    loc[k as int].at(epoch)
}

/// The label of key `k` in the table, in `epoch`.
spec fn best_in<C: Weight>(best: Seq<EpochOption<Label<C>>>, epoch: u32, k: usize) -> Option<Label<C>> {
    best[k as int].at(epoch)
}

/// Block `b` of the list exists.
spec fn live_in<C>(blocks: Seq<Option<Block<C>>>, b: int) -> bool {
    0 <= b < blocks.len() && blocks[b] is Some
}

/// A queue of keys by their best labels, kept in blocks: blocks of batches
/// prepended at the front (`d0`), and blocks ordered by their largest label
/// (`d1`). A pull takes the `max_pull` keys with the smallest labels. The tables `best`, `loc` and `scratch`
/// hold one entry per key, valid in the current epoch only, so that they are
/// cleared all at once by moving to the next epoch.
struct PartitionQueue<C> {
    max_pull: usize,
    max_block: usize,
    upper_bound: Bound<C>,
    blocks: Vec<Option<Block<C>>>,
    d0: VecDeque<usize>,
    d1: Vec<(Label<C>, usize)>,
    epoch: u32,
    scratch_epoch: u32,
    best: Vec<EpochOption<Label<C>>>,
    loc: Vec<EpochOption<Location>>,
    scratch: Vec<EpochOption<Label<C>>>,
}

impl<C: Weight> PartitionQueue<C> {
    /// The place of key `k`, in the current epoch.
    #[verifier::inline]
    spec fn located(&self, k: usize) -> Option<Location> {
        loc_at(self.loc@, self.epoch, k)
    }

    /// The best label of key `k`, in the current epoch.
    #[verifier::inline]
    spec fn best_at(&self, k: usize) -> Option<Label<C>> {
        best_in(self.best@, self.epoch, k)
    }

    /// Block `b` exists.
    #[verifier::inline]
    spec fn live(&self, b: int) -> bool {
        live_in(self.blocks@, b)
    }

    #[verifier::inline]
    spec fn block(&self, b: int) -> Block<C> {
        self.blocks@[b].unwrap()
    }

    /// The shape of the queue, except that the keys of `free` may be recorded
    /// in a block that does not hold them; no block holds them.
    spec fn wf_but(&self, n: nat, free: Set<usize>) -> bool {
        &&& self.max_pull >= 1
        &&& self.max_block >= 1
        &&& self.best@.len() == n && self.loc@.len() == n && self.scratch@.len() == n
        &&& self.epoch >= 1 && self.scratch_epoch >= 1
        &&& forall|k: int| 0 <= k < n ==> (#[trigger] self.best@[k]).epoch <= self.epoch
        &&& forall|k: int| 0 <= k < n ==> (#[trigger] self.loc@[k]).epoch <= self.epoch
        &&& forall|k: int| 0 <= k < n ==> (#[trigger] self.scratch@[k]).epoch <= self.scratch_epoch
        &&& forall|k: usize| k < n && !free.contains(k) && #[trigger] self.located(k) is Some
            ==> self.live(self.located(k).unwrap().block_id as int)
                && self.block(self.located(k).unwrap().block_id as int).items@.contains(k)
        &&& forall|b: int, i: int| self.live(b) && 0 <= i < self.block(b).items@.len() ==> {
            let k = #[trigger] self.block(b).items@[i];
            &&& k < n
            &&& !free.contains(k)
            &&& self.located(k) is Some
            &&& self.located(k).unwrap().block_id == b
            &&& self.best_at(k) is Some
        }
        &&& forall|b: int| #[trigger] self.live(b) ==> no_repeats(self.block(b).items@)
        &&& forall|b: usize| #[trigger] self.live(b as int) && self.block(b as int).kind == BlockKind::D1 ==> self.d1@.contains((self.block(b as int).max, b))
        &&& forall|j: int| 0 <= j < self.d1@.len() ==> {
            let e = #[trigger] self.d1@[j];
            &&& self.live(e.1 as int)
            &&& self.block(e.1 as int).kind == BlockKind::D1
            &&& self.block(e.1 as int).max == e.0
        }
        &&& forall|i: int, j: int| 0 <= i < j < self.d1@.len() ==> key_less(#[trigger] self.d1@[i], #[trigger] self.d1@[j])
        &&& forall|j: int| 0 <= j < self.d0@.len() ==> #[trigger] self.d0@[j] < self.blocks@.len()
    }

    spec fn wf(&self, n: nat) -> bool {
        self.wf_but(n, Set::empty())
    }

    /// The keys in the queue, each with its label.
    spec fn contents(&self, n: nat) -> Map<usize, Label<C>> {
        Map::new(|k: usize| k < n && self.best_at(k) is Some, |k: usize| self.best_at(k).unwrap())
    }

    /// Every key with a label sits in a block.
    spec fn synced(&self, n: nat) -> bool {
        forall|k: usize| k < n && #[trigger] self.best_at(k) is Some ==> self.located(k) is Some
    }
}

/// A pull from the keys `c` with their labels gave the keys `out` and the
/// bound `bound`: as many keys as the batch size `m` allows, none twice, each
/// with a label no larger than that of any key left; the queue's own bound
/// `ub` where no key is left, and otherwise the least label left, which no
/// pulled label exceeds.
spec fn pulled<C: Weight>(c: Map<usize, Label<C>>, out: Seq<usize>, bound: Bound<C>, ub: Bound<C>, m: int) -> bool {
    &&& no_repeats(out)
    &&& out.len() == (if m < c.dom().len() { m } else { c.dom().len() as int })
    &&& forall|i: int| 0 <= i < out.len() ==> c.contains_key(#[trigger] out[i])
    &&& forall|x: usize, y: usize| out.contains(x) && c.contains_key(y) && !out.contains(y) ==> !label_less(c[y], c[x])
    &&& (forall|y: usize| c.contains_key(y) ==> out.contains(y)) ==> bound == ub
    &&& (exists|y: usize| c.contains_key(y) && !out.contains(y)) ==> (bound matches Some(b)
        && (exists|y: usize| c.contains_key(y) && !out.contains(y) && c[y] == b)
        && (forall|y: usize| c.contains_key(y) && !out.contains(y) ==> !label_less(c[y], b))
        && (forall|i: int| 0 <= i < out.len() ==> !label_less(b, #[trigger] c[out[i]])))
}

/// Some item of the batch offers a label for `k`.
spec fn offered_in<C>(items: Seq<(usize, Label<C>)>, k: usize) -> bool {
    exists|j: int| 0 <= j < items.len() && #[trigger] items[j].0 == k
}

/// `c1` is what prepending the batch `items` to the contents `c0` leaves:
/// every key of either, each with the least label that it held or was
/// offered.
spec fn prepended<C: Weight>(c0: Map<usize, Label<C>>, items: Seq<(usize, Label<C>)>, c1: Map<usize, Label<C>>) -> bool {
    &&& forall|k: usize| #[trigger] c1.contains_key(k) <==> (c0.contains_key(k) || offered_in(items, k))
    &&& forall|k: usize| #[trigger] c1.contains_key(k) ==> {
        &&& (c0.contains_key(k) && c1[k] == c0[k]) || (exists|j: int| 0 <= j < items.len() && #[trigger] items[j] == (k, c1[k]))
        &&& c0.contains_key(k) ==> !label_less(c0[k], c1[k])
        &&& forall|j: int| 0 <= j < items.len() && #[trigger] items[j].0 == k ==> !label_less(items[j].1, c1[k])
    }
}

/// The queue's contents after offering `key` with `label`: the key takes the
/// label unless it holds one that is no larger.
spec fn offered<C: Weight>(c: Map<usize, Label<C>>, key: usize, label: Label<C>) -> Map<usize, Label<C>> {
    if c.contains_key(key) && !label_less(label, c[key]) {
        c
    } else {
        c.insert(key, label)
    }
}

const MIN_PULL: usize = 1;
const EXTRA_BLOCK: usize = 64;

/// The batch size of a queue asked for `m`: at least the least batch size.
spec fn pull_size(m: usize) -> usize {
    if m < MIN_PULL { MIN_PULL } else { m }
}

/// The block size of a queue whose batch size is `m`: twice it, or it and a
/// fixed margin, whichever is smaller, each saturated at the greatest `usize`.
spec fn block_size(m: usize) -> int {
    let doubled = if m * 2 > usize::MAX { usize::MAX as int } else { m * 2 };
    let padded = if m + EXTRA_BLOCK > usize::MAX { usize::MAX as int } else { m + EXTRA_BLOCK };
    if doubled < padded { doubled } else { padded }
}

/// `x`, or the greatest `usize` where it is larger.
spec fn sat(x: int) -> int {
    if x > usize::MAX { usize::MAX as int } else { x }
}

/// The size of `W` past which the pivot search keeps every source as a pivot:
/// `k` times the number of sources (at least one), saturated.
spec fn pivot_limit(k: usize, sources: int) -> int {
    sat(k * (if sources > 1 { sources } else { 1 }))
}

/// The number of nodes that a call of the recursion at `layer` settles before
/// it stops early: `k * 2^(layer * t)`, saturated.
spec fn layer_budget(k: usize, layer: usize, t: usize) -> int {
    sat(k * sat(pow2(sat(layer * t) as nat) as int))
}

/// The sum, or the greatest `usize` where it does not fit.
fn sat_add(a: usize, b: usize) -> (r: usize)
    ensures
        r == if a + b > usize::MAX { usize::MAX as int } else { a + b },
{
    a.saturating_add(b)
}

/// Whether `a` and `b` are the same label.
fn label_same<C: Weight>(a: &Label<C>, b: &Label<C>) -> (r: bool)
    ensures
        r == (*a == *b),
{
    proof { C::lemma_injective(a.cost, b.cost); }
    a.cost.same(&b.cost) && a.hops == b.hops && a.node == b.node && a.pred == b.pred
}

/// Labels are ordered totally.
proof fn lemma_label_order<C: Weight>(a: Label<C>, b: Label<C>, c: Label<C>)
    ensures
        !label_less(a, a),
        label_less(a, b) ==> !label_less(b, a),
        label_less(a, b) || label_less(b, a) || a == b,
        label_less(a, b) && label_less(b, c) ==> label_less(a, c),
{
    C::lemma_injective(a.cost, b.cost);
}

/// Whether `a` comes before `b` among the keys of the ordered blocks.
fn key_lt<C: Weight>(a: &(Label<C>, usize), b: &(Label<C>, usize)) -> (r: bool)
    ensures
        r == key_less(*a, *b),
{
    label_lt(&a.0, &b.0) || (label_same(&a.0, &b.0) && a.1 < b.1)
}

/// The keys of the ordered blocks are ordered totally.
proof fn lemma_key_order<C: Weight>(a: (Label<C>, usize), b: (Label<C>, usize), c: (Label<C>, usize))
    ensures
        !key_less(a, a),
        key_less(a, b) ==> !key_less(b, a),
        key_less(a, b) || key_less(b, a) || a == b,
        key_less(a, b) && key_less(b, c) ==> key_less(a, c),
{
    lemma_label_order(a.0, b.0, c.0);
    lemma_label_order(b.0, c.0, a.0);
    lemma_label_order(a.0, c.0, b.0);
}

/// A list without repeats keeps none when it is reordered.
proof fn lemma_perm_no_repeats(a: Seq<usize>, b: Seq<usize>)
    requires
        a.to_multiset() == b.to_multiset(),
        no_repeats(a),
    ensures
        no_repeats(b),
        forall|x: usize| a.contains(x) <==> b.contains(x),
{
    broadcast use vstd::seq_lib::to_multiset_contains;
    assert(a.no_duplicates()) by {
        assert forall|i: int, j: int| 0 <= i < a.len() && 0 <= j < a.len() && i != j implies a[i] != a[j] by {
            if i < j {
            } else {
            }
        }
    }
    a.lemma_multiset_has_no_duplicates();
    b.lemma_multiset_has_no_duplicates_conv();
    assert forall|x: usize| a.contains(x) <==> b.contains(x) by {
        vstd::seq_lib::to_multiset_contains(a, x);
        vstd::seq_lib::to_multiset_contains(b, x);
    }
}

/// Grow the table with empty entries, or cut it, to `len` entries.
fn fit_len<T: Copy>(v: &mut Vec<EpochOption<T>>, len: usize, Ghost(e): Ghost<u32>)
    requires
        forall|k: int| 0 <= k < old(v)@.len() ==> (#[trigger] old(v)@[k]).epoch <= e,
    ensures
        final(v)@.len() == len,
        forall|k: int| 0 <= k < final(v)@.len() ==> (#[trigger] final(v)@[k]).epoch <= e,
{
    while v.len() < len
        invariant
            forall|k: int| 0 <= k < v@.len() ==> (#[trigger] v@[k]).epoch <= e,
        decreases len - v@.len(),
    {
        v.push(EpochOption::empty());
    }
    v.truncate(len);
}

impl<C: Weight> PartitionQueue<C> {
    fn new(max_pull: usize, upper_bound: Bound<C>, node_count: usize) -> (r: Self)
        ensures
            r.wf(node_count as nat),
            r.synced(node_count as nat),
            r.contents(node_count as nat) == Map::<usize, Label<C>>::empty(),
            r.upper_bound == upper_bound,
            r.max_pull == pull_size(max_pull),
            r.max_block == block_size(pull_size(max_pull)),
    {
        let max_pull = if max_pull < MIN_PULL { MIN_PULL } else { max_pull };
        let doubled = sat_mul(max_pull, 2);
        let padded = sat_add(max_pull, EXTRA_BLOCK);
        let max_block = if doubled < padded { doubled } else { padded };
        let mut best: Vec<EpochOption<Label<C>>> = Vec::new();
        let mut loc: Vec<EpochOption<Location>> = Vec::new();
        let mut scratch: Vec<EpochOption<Label<C>>> = Vec::new();
        let mut i: usize = 0;
        while i < node_count
            invariant
                i <= node_count,
                best@.len() == i && loc@.len() == i && scratch@.len() == i,
                forall|k: int| 0 <= k < i ==> (#[trigger] best@[k]).epoch == 0 && best@[k].value is None,
                forall|k: int| 0 <= k < i ==> (#[trigger] loc@[k]).epoch == 0 && loc@[k].value is None,
                forall|k: int| 0 <= k < i ==> (#[trigger] scratch@[k]).epoch == 0 && scratch@[k].value is None,
            decreases node_count - i,
        {
            best.push(EpochOption::empty());
            loc.push(EpochOption::empty());
            scratch.push(EpochOption::empty());
            i = i + 1;
        }
        let q = PartitionQueue {
            max_pull,
            max_block,
            upper_bound,
            blocks: Vec::new(),
            d0: VecDeque::new(),
            d1: Vec::new(),
            epoch: 1,
            scratch_epoch: 1,
            best,
            loc,
            scratch,
        };
        proof {
            assert forall|k: usize| k < node_count && !Set::<usize>::empty().contains(k) && #[trigger] q.located(k) is Some
                implies false by {
                assert(q.loc@[k as int].epoch == 0);
            }
            assert forall|k: usize| k < node_count implies #[trigger] q.best_at(k) is None by {
                assert(q.best@[k as int].epoch == 0);
            }
            assert(q.contents(node_count as nat) =~= Map::<usize, Label<C>>::empty());
        }
        q
    }

    /// Empty the queue for a new use with the given batch size, bound and
    /// number of keys.
    fn reset(&mut self, max_pull: usize, upper_bound: Bound<C>, node_count: usize)
        requires
            old(self).wf(old(self).best@.len() as nat),
        ensures
            final(self).wf(node_count as nat),
            final(self).synced(node_count as nat),
            final(self).contents(node_count as nat) == Map::<usize, Label<C>>::empty(),
            final(self).upper_bound == upper_bound,
            final(self).max_pull == pull_size(max_pull),
            final(self).max_block == block_size(pull_size(max_pull)),
    {
        let max_pull = if max_pull < MIN_PULL { MIN_PULL } else { max_pull };
        self.max_pull = max_pull;
        let doubled = sat_mul(max_pull, 2);
        let padded = sat_add(max_pull, EXTRA_BLOCK);
        self.max_block = if doubled < padded { doubled } else { padded };
        self.upper_bound = upper_bound;
        self.blocks.clear();
        self.d0.clear();
        self.d1.clear();
        fit_len(&mut self.best, node_count, Ghost(self.epoch));
        fit_len(&mut self.loc, node_count, Ghost(self.epoch));
        fit_len(&mut self.scratch, node_count, Ghost(self.scratch_epoch));
        self.bump_epoch();
        self.bump_scratch_epoch();
        proof {
            assert forall|k: usize| k < node_count && !Set::<usize>::empty().contains(k) && #[trigger] self.located(k) is Some
                implies false by {}
            assert forall|k: usize| k < node_count implies #[trigger] self.best_at(k) is None by {
                assert(self.best@[k as int].epoch < self.epoch);
            }
            assert(self.contents(node_count as nat) =~= Map::<usize, Label<C>>::empty());
        }
    }

    /// Whether the queue holds no key.
    fn is_empty(&self, Ghost(n): Ghost<nat>) -> (r: bool)
        requires
            self.wf(n),
            self.synced(n),
        ensures
            r == (forall|k: usize| !#[trigger] self.contents(n).contains_key(k)),
    {
        let mut b: usize = 0;
        while b < self.blocks.len()
            invariant
                self.wf(n),
                self.synced(n),
                b <= self.blocks@.len(),
                forall|x: int| 0 <= x < b ==> !#[trigger] self.live(x) || self.block(x).items@.len() == 0,
            decreases self.blocks@.len() - b,
        {
            match &self.blocks[b] {
                Some(block) => {
                    if block.items.len() > 0 {
                        proof {
                            let k = self.block(b as int).items@[0];
                            assert(self.contents(n).contains_key(k));
                        }
                        return false;
                    }
                },
                None => {},
            }
            b = b + 1;
        }
        proof {
            assert forall|k: usize| !#[trigger] self.contents(n).contains_key(k) by {
                if self.contents(n).contains_key(k) {
                    let bid = self.located(k).unwrap().block_id as int;
                    assert(self.block(bid).items@.contains(k));
                }
            }
        }
        true
    }

    /// Move to the next epoch, in which neither `best` nor `loc` holds a value.
    fn bump_epoch(&mut self)
        requires
            old(self).epoch >= 1,
            forall|k: int| 0 <= k < old(self).best@.len() ==> (#[trigger] old(self).best@[k]).epoch <= old(self).epoch,
            forall|k: int| 0 <= k < old(self).loc@.len() ==> (#[trigger] old(self).loc@[k]).epoch <= old(self).epoch,
        ensures
            final(self).epoch >= 1,
            final(self).best@.len() == old(self).best@.len(),
            final(self).loc@.len() == old(self).loc@.len(),
            forall|k: int| 0 <= k < final(self).best@.len() ==> (#[trigger] final(self).best@[k]).epoch < final(self).epoch,
            forall|k: int| 0 <= k < final(self).loc@.len() ==> (#[trigger] final(self).loc@[k]).epoch < final(self).epoch,
            final(self).blocks == old(self).blocks,
            final(self).d0 == old(self).d0,
            final(self).d1 == old(self).d1,
            final(self).scratch == old(self).scratch,
            final(self).scratch_epoch == old(self).scratch_epoch,
            final(self).max_pull == old(self).max_pull,
            final(self).max_block == old(self).max_block,
            final(self).upper_bound == old(self).upper_bound,
    {
        self.epoch = self.epoch.wrapping_add(1);
        let ghost s0 = *self;
        if self.epoch == 0 {
            self.epoch = 1;
            let mut i: usize = 0;
            while i < self.best.len()
                invariant
                    self.epoch == 1,
                    self.loc == s0.loc,
                    self.blocks == s0.blocks,
                    self.d0 == s0.d0,
                    self.d1 == s0.d1,
                    self.scratch == s0.scratch,
                    self.scratch_epoch == s0.scratch_epoch,
                    self.max_pull == s0.max_pull,
                    self.max_block == s0.max_block,
                    self.upper_bound == s0.upper_bound,
                    i <= self.best@.len(),
                    self.best@.len() == old(self).best@.len(),
                    forall|k: int| 0 <= k < i ==> (#[trigger] self.best@[k]).epoch == 0,
                decreases self.best@.len() - i,
            {
                self.best.set(i, EpochOption::empty());
                i = i + 1;
            }
            let mut j: usize = 0;
            while j < self.loc.len()
                invariant
                    self.epoch == 1,
                    self.best@.len() == old(self).best@.len(),
                    forall|k: int| 0 <= k < self.best@.len() ==> (#[trigger] self.best@[k]).epoch == 0,
                    self.blocks == s0.blocks,
                    self.d0 == s0.d0,
                    self.d1 == s0.d1,
                    self.scratch == s0.scratch,
                    self.scratch_epoch == s0.scratch_epoch,
                    self.max_pull == s0.max_pull,
                    self.max_block == s0.max_block,
                    self.upper_bound == s0.upper_bound,
                    j <= self.loc@.len(),
                    self.loc@.len() == old(self).loc@.len(),
                    forall|k: int| 0 <= k < j ==> (#[trigger] self.loc@[k]).epoch == 0,
                decreases self.loc@.len() - j,
            {
                self.loc.set(j, EpochOption::empty());
                j = j + 1;
            }
        }
    }

    /// Move to the next scratch epoch, in which `scratch` holds no value.
    fn bump_scratch_epoch(&mut self)
        requires
            old(self).scratch_epoch >= 1,
            forall|k: int| 0 <= k < old(self).scratch@.len() ==> (#[trigger] old(self).scratch@[k]).epoch <= old(self).scratch_epoch,
        ensures
            final(self).scratch_epoch >= 1,
            final(self).scratch@.len() == old(self).scratch@.len(),
            forall|k: int| 0 <= k < final(self).scratch@.len() ==> (#[trigger] final(self).scratch@[k]).epoch < final(self).scratch_epoch,
            final(self).blocks == old(self).blocks,
            final(self).d0 == old(self).d0,
            final(self).d1 == old(self).d1,
            final(self).best == old(self).best,
            final(self).loc == old(self).loc,
            final(self).epoch == old(self).epoch,
            final(self).max_pull == old(self).max_pull,
            final(self).max_block == old(self).max_block,
            final(self).upper_bound == old(self).upper_bound,
    {
        self.scratch_epoch = self.scratch_epoch.wrapping_add(1);
        let ghost s0 = *self;
        if self.scratch_epoch == 0 {
            self.scratch_epoch = 1;
            let mut i: usize = 0;
            while i < self.scratch.len()
                invariant
                    self.scratch_epoch == 1,
                    self.best == s0.best,
                    self.loc == s0.loc,
                    self.blocks == s0.blocks,
                    self.d0 == s0.d0,
                    self.d1 == s0.d1,
                    self.epoch == s0.epoch,
                    self.max_pull == s0.max_pull,
                    self.max_block == s0.max_block,
                    self.upper_bound == s0.upper_bound,
                    i <= self.scratch@.len(),
                    self.scratch@.len() == old(self).scratch@.len(),
                    forall|k: int| 0 <= k < i ==> (#[trigger] self.scratch@[k]).epoch == 0,
                decreases self.scratch@.len() - i,
            {
                self.scratch.set(i, EpochOption::empty());
                i = i + 1;
            }
        }
    }

    fn best_get(&self, key: usize) -> (r: Option<Label<C>>)
        requires
            key < self.best@.len(),
        ensures
            r == self.best_at(key),
    {
        self.best[key].get(self.epoch)
    }

    fn best_value(&self, key: usize) -> (r: Label<C>)
        requires
            key < self.best@.len(),
            self.best_at(key) is Some,
        ensures
            Some(r) == self.best_at(key),
    {
        self.best[key].get(self.epoch).unwrap()
    }

    fn scratch_get(&self, key: usize) -> (r: Option<Label<C>>)
        requires
            key < self.scratch@.len(),
        ensures
            r == self.scratch@[key as int].at(self.scratch_epoch),
    {
        self.scratch[key].get(self.scratch_epoch)
    }
}

/// Insert the key of an ordered block into the sorted list of such keys.
fn d1_insert<C: Weight>(d1: &mut Vec<(Label<C>, usize)>, max: Label<C>, block_id: usize)
    requires
        forall|i: int, j: int| 0 <= i < j < old(d1)@.len() ==> key_less(#[trigger] old(d1)@[i], #[trigger] old(d1)@[j]),
        !old(d1)@.contains((max, block_id)),
    ensures
        forall|i: int, j: int| 0 <= i < j < final(d1)@.len() ==> key_less(#[trigger] final(d1)@[i], #[trigger] final(d1)@[j]),
        forall|e: (Label<C>, usize)| #[trigger] final(d1)@.contains(e) <==> old(d1)@.contains(e) || e == (max, block_id),
{
    let key = (max, block_id);
    let mut pos: usize = 0;
    while pos < d1.len() && key_lt(&d1[pos], &key)
        invariant
            pos <= d1@.len(),
            d1@ == old(d1)@,
            forall|i: int| 0 <= i < pos ==> key_less(#[trigger] d1@[i], key),
        decreases d1@.len() - pos,
    {
        pos = pos + 1;
    }
    let ghost before = d1@;
    d1.insert(pos, key);
    proof {
        assert(d1@ == before.insert(pos as int, key));
        assert forall|i: int, j: int| 0 <= i < j < d1@.len() implies key_less(#[trigger] d1@[i], #[trigger] d1@[j]) by {
            if j < pos {
                assert(d1@[i] == before[i] && d1@[j] == before[j]);
            } else if j == pos {
                assert(d1@[i] == before[i]);
            } else if i == pos {
                assert(d1@[j] == before[j - 1]);
                lemma_key_order(key, before[j - 1], before[pos as int]);
                if j - 1 > pos {
                    lemma_key_order(before[pos as int], before[j - 1], key);
                    lemma_key_order(key, before[pos as int], before[j - 1]);
                }
                assert(!before.contains(key));
                if before[j - 1] == key {
                    assert(before.contains(key));
                }
            } else if i < pos {
                assert(d1@[i] == before[i] && d1@[j] == before[j - 1]);
            } else {
                assert(d1@[i] == before[i - 1] && d1@[j] == before[j - 1]);
            }
        }
        assert forall|e: (Label<C>, usize)| #[trigger] d1@.contains(e) <==> before.contains(e) || e == key by {
            if d1@.contains(e) {
                let j = choose|j: int| 0 <= j < d1@.len() && d1@[j] == e;
                if j < pos {
                    assert(before[j] == e);
                } else if j > pos {
                    assert(before[j - 1] == e);
                }
            }
            if before.contains(e) {
                let j = choose|j: int| 0 <= j < before.len() && before[j] == e;
                if j < pos {
                    assert(d1@[j] == e);
                } else {
                    assert(d1@[j + 1] == e);
                }
            }
            if e == key {
                assert(d1@[pos as int] == e);
            }
        }
    }
}

/// Remove the key of an ordered block from the sorted list of such keys.
fn d1_remove<C: Weight>(d1: &mut Vec<(Label<C>, usize)>, max: Label<C>, block_id: usize)
    requires
        forall|i: int, j: int| 0 <= i < j < old(d1)@.len() ==> key_less(#[trigger] old(d1)@[i], #[trigger] old(d1)@[j]),
    ensures
        forall|i: int, j: int| 0 <= i < j < final(d1)@.len() ==> key_less(#[trigger] final(d1)@[i], #[trigger] final(d1)@[j]),
        forall|e: (Label<C>, usize)| #[trigger] final(d1)@.contains(e) <==> old(d1)@.contains(e) && e != (max, block_id),
{
    let key = (max, block_id);
    let mut pos: usize = 0;
    while pos < d1.len()
        invariant
            pos <= d1@.len(),
            d1@ == old(d1)@,
            key == (max, block_id),
            forall|i: int, j: int| 0 <= i < j < old(d1)@.len() ==> key_less(#[trigger] old(d1)@[i], #[trigger] old(d1)@[j]),
            forall|i: int| 0 <= i < pos ==> #[trigger] d1@[i] != key,
        decreases d1@.len() - pos,
    {
        if label_same(&d1[pos].0, &key.0) && d1[pos].1 == key.1 {
            let ghost before = d1@;
            d1.remove(pos);
            proof {
                assert(before == old(d1)@);
                assert(before[pos as int].0 == key.0 && before[pos as int].1 == key.1);
                assert(before[pos as int] == key);
                assert(d1@ == before.remove(pos as int));
                assert forall|i: int, j: int| 0 <= i < j < d1@.len() implies key_less(#[trigger] d1@[i], #[trigger] d1@[j]) by {
                    let a = if i < pos { i } else { i + 1 };
                    let b = if j < pos { j } else { j + 1 };
                    assert(d1@[i] == before[a] && d1@[j] == before[b]);
                }
                assert forall|e: (Label<C>, usize)| #[trigger] d1@.contains(e) <==> before.contains(e) && e != key by {
                    if d1@.contains(e) {
                        let j = choose|j: int| 0 <= j < d1@.len() && d1@[j] == e;
                        let b = if j < pos { j } else { j + 1 };
                        assert(before[b] == e);
                        if e == key {
                            lemma_key_order(before[pos as int], before[b], key);
                            assert(b != pos);
                            if b < pos {
                                assert(key_less(before[b], before[pos as int]));
                            } else {
                                assert(key_less(before[pos as int], before[b]));
                            }
                        }
                    }
                    if before.contains(e) && e != key {
                        let j = choose|j: int| 0 <= j < before.len() && before[j] == e;
                        assert(j != pos);
                        if j < pos {
                            assert(d1@[j] == e);
                        } else {
                            assert(d1@[j - 1] == e);
                        }
                    }
                }
            }
            return;
        }
        pos = pos + 1;
    }
    proof {
        assert forall|e: (Label<C>, usize)| #[trigger] d1@.contains(e) <==> old(d1)@.contains(e) && e != key by {
            if d1@.contains(e) {
                let j = choose|j: int| 0 <= j < d1@.len() && d1@[j] == e;
                assert(d1@[j] != key);
            }
        }
    }
}

/// The block of the first ordered key at or past `(label, 0)`.
fn find_d1_block<C: Weight>(d1: &Vec<(Label<C>, usize)>, label: Label<C>) -> (r: Option<usize>)
    ensures
        r matches Some(b) ==> exists|j: int| 0 <= j < d1@.len() && (#[trigger] d1@[j]).1 == b
            && !key_less(d1@[j], (label, 0usize))
            && forall|i: int| 0 <= i < j ==> key_less(#[trigger] d1@[i], (label, 0usize)),
        r is None ==> forall|i: int| 0 <= i < d1@.len() ==> key_less(#[trigger] d1@[i], (label, 0usize)),
{
    let key = (label, 0usize);
    let mut pos: usize = 0;
    while pos < d1.len()
        invariant
            pos <= d1@.len(),
            key == (label, 0usize),
            forall|i: int| 0 <= i < pos ==> key_less(#[trigger] d1@[i], key),
        decreases d1@.len() - pos,
    {
        if !key_lt(&d1[pos], &key) {
            let b = d1[pos].1;
            proof {
                assert(!key_less(d1@[pos as int], (label, 0usize)));
                assert(forall|i: int| 0 <= i < pos ==> key_less(#[trigger] d1@[i], (label, 0usize)));
                assert(0 <= pos < d1@.len() && d1@[pos as int].1 == b);
            }
            return Some(b);
        }
        pos = pos + 1;
    }
    None
}

impl<C: Weight> PartitionQueue<C> {
    /// All but the tables and the count are as in `o`.
    spec fn frame(&self, o: &Self) -> bool {
        &&& self.max_pull == o.max_pull
        &&& self.max_block == o.max_block
        &&& self.upper_bound == o.upper_bound
        &&& self.blocks == o.blocks
        &&& self.d0 == o.d0
        &&& self.d1 == o.d1
        &&& self.epoch == o.epoch
        &&& self.scratch_epoch == o.scratch_epoch
    }

    /// No block holds `k`.
    spec fn unplaced(&self, k: usize) -> bool {
        forall|b: int| #[trigger] self.live(b) ==> !self.block(b).items@.contains(k)
    }

    fn best_set(&mut self, key: usize, label: Label<C>, Ghost(n): Ghost<nat>, Ghost(free): Ghost<Set<usize>>)
        requires
            old(self).wf_but(n, free),
            key < n,
        ensures
            final(self).wf_but(n, free),
            final(self).frame(&*old(self)),
            final(self).loc == old(self).loc,
            final(self).scratch == old(self).scratch,
            final(self).best_at(key) == Some(label),
            forall|k: usize| k < n && k != key ==> #[trigger] final(self).best_at(k) == old(self).best_at(k),
    {
        self.best.set(key, EpochOption { epoch: self.epoch, value: Some(label) });
        proof {
            assert forall|k: int| 0 <= k < n implies (#[trigger] self.best@[k]).epoch <= self.epoch by {
                if k != key {
                    assert(self.best@[k] == old(self).best@[k]);
                }
            }
            assert forall|k: usize| k < n && !free.contains(k) && #[trigger] self.located(k) is Some
                implies self.live(self.located(k).unwrap().block_id as int)
                    && self.block(self.located(k).unwrap().block_id as int).items@.contains(k) by {
                assert(old(self).located(k) == self.located(k));
            }
            assert forall|b: int| #[trigger] self.live(b) implies no_repeats(self.block(b).items@) by {
                assert(old(self).live(b));
            }
            assert forall|b: usize| #[trigger] self.live(b as int) && self.block(b as int).kind == BlockKind::D1
                implies self.d1@.contains((self.block(b as int).max, b)) by {
                assert(old(self).live(b as int));
            }
            assert forall|j: int| 0 <= j < self.d1@.len() implies {
                let e = #[trigger] self.d1@[j];
                &&& self.live(e.1 as int)
                &&& self.block(e.1 as int).kind == BlockKind::D1
                &&& self.block(e.1 as int).max == e.0
            } by {
                assert(old(self).d1@[j] == self.d1@[j]);
            }
            assert forall|k: usize| k < n && k != key implies #[trigger] self.best_at(k) == old(self).best_at(k) by {
                assert(self.best@[k as int] == old(self).best@[k as int]);
            }
            assert forall|b: int, i: int| self.live(b) && 0 <= i < self.block(b).items@.len() implies
                (#[trigger] self.block(b).items@[i]) < n && !free.contains(self.block(b).items@[i])
                && self.located(self.block(b).items@[i]) is Some
                && self.located(self.block(b).items@[i]).unwrap().block_id == b
                && self.best_at(self.block(b).items@[i]) is Some by {
                assert(old(self).live(b));
            }
        }
    }

    fn best_clear(&mut self, key: usize, Ghost(n): Ghost<nat>, Ghost(free): Ghost<Set<usize>>)
        requires
            old(self).wf_but(n, free),
            key < n,
            old(self).unplaced(key),
        ensures
            final(self).wf_but(n, free),
            final(self).frame(&*old(self)),
            final(self).loc == old(self).loc,
            final(self).scratch == old(self).scratch,
            final(self).best_at(key) is None,
            forall|k: usize| k < n && k != key ==> #[trigger] final(self).best_at(k) == old(self).best_at(k),
    {
        self.best.set(key, EpochOption::empty());
        proof {
            assert forall|k: int| 0 <= k < n implies (#[trigger] self.best@[k]).epoch <= self.epoch by {
                if k != key {
                    assert(self.best@[k] == old(self).best@[k]);
                }
            }
            assert forall|k: usize| k < n && !free.contains(k) && #[trigger] self.located(k) is Some
                implies self.live(self.located(k).unwrap().block_id as int)
                    && self.block(self.located(k).unwrap().block_id as int).items@.contains(k) by {
                assert(old(self).located(k) == self.located(k));
            }
            assert forall|b: int| #[trigger] self.live(b) implies no_repeats(self.block(b).items@) by {
                assert(old(self).live(b));
            }
            assert forall|b: usize| #[trigger] self.live(b as int) && self.block(b as int).kind == BlockKind::D1
                implies self.d1@.contains((self.block(b as int).max, b)) by {
                assert(old(self).live(b as int));
            }
            assert forall|j: int| 0 <= j < self.d1@.len() implies {
                let e = #[trigger] self.d1@[j];
                &&& self.live(e.1 as int)
                &&& self.block(e.1 as int).kind == BlockKind::D1
                &&& self.block(e.1 as int).max == e.0
            } by {
                assert(old(self).d1@[j] == self.d1@[j]);
            }
            assert forall|k: usize| k < n && k != key implies #[trigger] self.best_at(k) == old(self).best_at(k) by {
                assert(self.best@[k as int] == old(self).best@[k as int]);
            }
            assert forall|b: int, i: int| self.live(b) && 0 <= i < self.block(b).items@.len() implies
                (#[trigger] self.block(b).items@[i]) < n && !free.contains(self.block(b).items@[i])
                && self.located(self.block(b).items@[i]) is Some
                && self.located(self.block(b).items@[i]).unwrap().block_id == b
                && self.best_at(self.block(b).items@[i]) is Some by {
                assert(old(self).live(b));
                if self.block(b).items@[i] == key {
                    assert(self.block(b).items@.contains(key));
                }
            }
        }
    }

    /// Take the place of `key` out of `loc`.
    fn loc_take(&mut self, key: usize) -> (r: Option<Location>)
        requires
            key < old(self).loc@.len(),
        ensures
            r == old(self).located(key),
            final(self).frame(&*old(self)),
            final(self).best == old(self).best,
            final(self).scratch == old(self).scratch,
            final(self).loc@.len() == old(self).loc@.len(),
            final(self).located(key) is None,
            r is None ==> final(self).loc == old(self).loc,
            forall|k: usize| k < old(self).loc@.len() && k != key ==> #[trigger] final(self).located(k) == old(self).located(k),
            forall|k: int| 0 <= k < final(self).loc@.len() ==> (#[trigger] final(self).loc@[k]).epoch <= old(self).loc@[k].epoch,
    {
        let loc = self.loc[key].get(self.epoch);
        if loc.is_some() {
            self.loc.set(key, EpochOption::empty());
        }
        proof {
            assert forall|k: usize| k < old(self).loc@.len() && k != key implies #[trigger] self.located(k) == old(self).located(k) by {
                assert(self.loc@[k as int] == old(self).loc@[k as int]);
            }
        }
        loc
    }

    /// Record the place of `key`.
    fn loc_set(&mut self, key: usize, place: Location)
        requires
            key < old(self).loc@.len(),
        ensures
            final(self).frame(&*old(self)),
            final(self).best == old(self).best,
            final(self).scratch == old(self).scratch,
            final(self).loc@.len() == old(self).loc@.len(),
            final(self).located(key) == Some(place),
            final(self).loc@[key as int].epoch == old(self).epoch,
            forall|k: usize| k < old(self).loc@.len() && k != key ==> #[trigger] final(self).located(k) == old(self).located(k),
            forall|k: int| 0 <= k < final(self).loc@.len() && k != key ==> #[trigger] final(self).loc@[k] == old(self).loc@[k],
    {
        self.loc.set(key, EpochOption { epoch: self.epoch, value: Some(place) });
        proof {
            assert forall|k: usize| k < old(self).loc@.len() && k != key implies #[trigger] self.located(k) == old(self).located(k) by {
                assert(self.loc@[k as int] == old(self).loc@[k as int]);
            }
        }
    }

    fn scratch_set(&mut self, key: usize, label: Label<C>)
        requires
            key < old(self).scratch@.len(),
        ensures
            final(self).frame(&*old(self)),
            final(self).best == old(self).best,
            final(self).loc == old(self).loc,
            final(self).scratch@ == old(self).scratch@.update(key as int, EpochOption { epoch: old(self).scratch_epoch, value: Some(label) }),
    {
        self.scratch.set(key, EpochOption { epoch: self.scratch_epoch, value: Some(label) });
    }

    fn scratch_take(&mut self, key: usize) -> (r: Option<Label<C>>)
        requires
            key < old(self).scratch@.len(),
        ensures
            r == old(self).scratch@[key as int].at(old(self).scratch_epoch),
            final(self).frame(&*old(self)),
            final(self).best == old(self).best,
            final(self).loc == old(self).loc,
            final(self).scratch@.len() == old(self).scratch@.len(),
            forall|k: int| 0 <= k < final(self).scratch@.len() && k != key ==> #[trigger] final(self).scratch@[k] == old(self).scratch@[k],
            final(self).scratch@[key as int].at(final(self).scratch_epoch) is None,
            forall|k: int| 0 <= k < final(self).scratch@.len() ==> (#[trigger] final(self).scratch@[k]).epoch <= old(self).scratch@[k].epoch,
    {
        let label = self.scratch[key].get(self.scratch_epoch);
        if label.is_some() {
            self.scratch.set(key, EpochOption::empty());
        }
        label
    }

    /// The largest label among the keys, and its key.
    fn block_max(&self, items: &Vec<usize>) -> (r: (Label<C>, usize))
        requires
            items@.len() > 0,
            forall|i: int| 0 <= i < items@.len() ==> #[trigger] items@[i] < self.best@.len() && self.best_at(items@[i]) is Some,
        ensures
            items@.contains(r.1),
            self.best_at(r.1) == Some(r.0),
    {
        let mut max_key = items[0];
        let mut max_label = self.best_value(max_key);
        let mut i: usize = 1;
        while i < items.len()
            invariant
                1 <= i <= items@.len(),
                forall|j: int| 0 <= j < items@.len() ==> #[trigger] items@[j] < self.best@.len() && self.best_at(items@[j]) is Some,
                items@.contains(max_key),
                self.best_at(max_key) == Some(max_label),
            decreases items@.len() - i,
        {
            let key = items[i];
            let label = self.best_value(key);
            if label_lt(&max_label, &label) {
                max_label = label;
                max_key = key;
                proof { assert(items@[i as int] == key); }
            }
            i = i + 1;
        }
        (max_label, max_key)
    }

    /// The keys, in order of their best labels.
    fn sort_keys(&self, keys: Vec<usize>) -> (r: Vec<usize>)
        requires
            forall|i: int| 0 <= i < keys@.len() ==> #[trigger] keys@[i] < self.best@.len() && self.best_at(keys@[i]) is Some,
        ensures
            r@.to_multiset() == keys@.to_multiset(),
            r@.len() == keys@.len(),
            forall|i: int| 0 <= i < r@.len() ==> keys@.contains(#[trigger] r@[i]),
            forall|a: int, b: int| 0 <= a < b < r@.len() ==> !label_less(
                self.best_at(#[trigger] r@[b]).unwrap(),
                self.best_at(#[trigger] r@[a]).unwrap(),
            ),
    {
        broadcast use vstd::seq_lib::to_multiset_build, vstd::seq_lib::to_multiset_insert,
            vstd::seq_lib::to_multiset_len, vstd::seq_lib::to_multiset_contains;
        let mut sorted: Vec<usize> = Vec::new();
        let mut i: usize = 0;
        while i < keys.len()
            invariant
                i <= keys@.len(),
                forall|j: int| 0 <= j < keys@.len() ==> #[trigger] keys@[j] < self.best@.len() && self.best_at(keys@[j]) is Some,
                sorted@.to_multiset() == keys@.take(i as int).to_multiset(),
                sorted@.len() == i,
                forall|j: int| 0 <= j < sorted@.len() ==> keys@.contains(#[trigger] sorted@[j]),
                forall|a: int, b: int| 0 <= a < b < sorted@.len() ==> !label_less(
                    self.best_at(#[trigger] sorted@[b]).unwrap(),
                    self.best_at(#[trigger] sorted@[a]).unwrap(),
                ),
            decreases keys@.len() - i,
        {
            let x = keys[i];
            let lx = self.best_value(x);
            let mut pos: usize = 0;
            while pos < sorted.len()
                invariant
                    pos <= sorted@.len(),
                    forall|j: int| 0 <= j < sorted@.len() ==> keys@.contains(#[trigger] sorted@[j]),
                    forall|j: int| 0 <= j < keys@.len() ==> #[trigger] keys@[j] < self.best@.len() && self.best_at(keys@[j]) is Some,
                    Some(lx) == self.best_at(x),
                    forall|j: int| 0 <= j < pos ==> !label_less(lx, self.best_at(#[trigger] sorted@[j]).unwrap()),
                ensures
                    pos <= sorted@.len(),
                    forall|j: int| 0 <= j < pos ==> !label_less(lx, self.best_at(#[trigger] sorted@[j]).unwrap()),
                    pos < sorted@.len() ==> label_less(lx, self.best_at(sorted@[pos as int]).unwrap()),
                decreases sorted@.len() - pos,
            {
                let y = sorted[pos];
                proof {
                    assert(keys@.contains(sorted@[pos as int]));
                    let q = choose|q: int| 0 <= q < keys@.len() && keys@[q] == y;
                }
                if label_lt(&lx, &self.best_value(y)) {
                    break;
                }
                pos = pos + 1;
            }
            let ghost before = sorted@;
            sorted.insert(pos, x);
            proof {
                assert forall|a: int, b: int| 0 <= a < b < sorted@.len() implies !label_less(
                    self.best_at(#[trigger] sorted@[b]).unwrap(),
                    self.best_at(#[trigger] sorted@[a]).unwrap(),
                ) by {
                    let la = self.best_at(sorted@[a]).unwrap();
                    let lb = self.best_at(sorted@[b]).unwrap();
                    if b < pos {
                        assert(sorted@[a] == before[a] && sorted@[b] == before[b]);
                    } else if b == pos {
                        assert(sorted@[a] == before[a]);
                    } else if a == pos {
                        assert(sorted@[b] == before[b - 1]);
                        let lp = self.best_at(before[pos as int]).unwrap();
                        if pos < b - 1 {
                            assert(!label_less(self.best_at(before[b - 1]).unwrap(), self.best_at(before[pos as int]).unwrap()));
                        }
                        lemma_label_order(lb, lx, lp);
                    } else if a < pos {
                        assert(sorted@[a] == before[a] && sorted@[b] == before[b - 1]);
                    } else {
                        assert(sorted@[a] == before[a - 1] && sorted@[b] == before[b - 1]);
                    }
                }
                assert(keys@.take(i + 1) == keys@.take(i as int).push(x));
                assert(sorted@ == before.insert(pos as int, x));
                vstd::seq_lib::to_multiset_insert(before, pos as int, x);
                vstd::seq_lib::to_multiset_build(keys@.take(i as int), x);
                assert forall|j: int| 0 <= j < sorted@.len() implies keys@.contains(#[trigger] sorted@[j]) by {
                    if j < pos {
                        assert(sorted@[j] == before[j]);
                    } else if j == pos {
                        assert(keys@[i as int] == x);
                    } else {
                        assert(sorted@[j] == before[j - 1]);
                    }
                }
            }
            i = i + 1;
        }
        proof {
            assert(keys@.take(keys@.len() as int) == keys@);
        }
        sorted
    }
}

/// The position of `key` in `items`, if it is there.
fn position_of(items: &Vec<usize>, key: usize) -> (r: Option<usize>)
    ensures
        match r {
            Some(p) => p < items@.len() && items@[p as int] == key,
            None => !items@.contains(key),
        },
{
    let mut i: usize = 0;
    while i < items.len()
        invariant
            i <= items@.len(),
            forall|j: int| 0 <= j < i ==> items@[j] != key,
        decreases items@.len() - i,
    {
        if items[i] == key {
            return Some(i);
        }
        i = i + 1;
    }
    None
}

/// The keys of `s` from position `a` up to `b`.
fn copy_range(s: &Vec<usize>, a: usize, b: usize) -> (r: Vec<usize>)
    requires
        a <= b <= s@.len(),
    ensures
        r@ == s@.subrange(a as int, b as int),
{
    let mut r: Vec<usize> = Vec::new();
    let mut i: usize = a;
    while i < b
        invariant
            a <= i <= b,
            b <= s@.len(),
            r@ == s@.subrange(a as int, i as int),
        decreases b - i,
    {
        r.push(s[i]);
        proof { assert(s@.subrange(a as int, i + 1) == s@.subrange(a as int, i as int).push(s@[i as int])); }
        i = i + 1;
    }
    r
}

impl<C: Weight> PartitionQueue<C> {
    /// A queue whose shape holds with no exceptions holds with the unplaced
    /// keys of `free` as exceptions.
    proof fn lemma_free(&self, n: nat, free: Set<usize>)
        requires
            self.wf(n),
            forall|k: usize| #[trigger] free.contains(k) ==> self.unplaced(k),
        ensures
            self.wf_but(n, free),
    {
        assert forall|b: int, i: int| self.live(b) && 0 <= i < self.block(b).items@.len() implies
            !free.contains(#[trigger] self.block(b).items@[i]) by {
            let k = self.block(b).items@[i];
            if free.contains(k) {
                assert(self.unplaced(k));
                assert(self.block(b).items@.contains(k));
            }
        }
    }

    /// Set the largest label of block `block_id`, and re-key it among the
    /// ordered blocks.
    fn update_block_max(&mut self, block_id: usize, max: Label<C>, max_key: usize, Ghost(n): Ghost<nat>, Ghost(free): Ghost<Set<usize>>)
        requires
            old(self).wf_but(n, free),
            old(self).live(block_id as int),
        ensures
            final(self).wf_but(n, free),
            final(self).blocks@.len() == old(self).blocks@.len(),
            final(self).live(block_id as int),
            final(self).block(block_id as int).items == old(self).block(block_id as int).items,
            final(self).block(block_id as int).kind == old(self).block(block_id as int).kind,
            final(self).block(block_id as int).max == max,
            final(self).block(block_id as int).max_key == max_key,
            forall|b: int| 0 <= b < final(self).blocks@.len() && b != block_id ==> #[trigger] final(self).blocks@[b] == old(self).blocks@[b],
            final(self).best == old(self).best,
            final(self).loc == old(self).loc,
            final(self).scratch == old(self).scratch,
            final(self).epoch == old(self).epoch,
            final(self).scratch_epoch == old(self).scratch_epoch,
            final(self).d0 == old(self).d0,
            final(self).max_pull == old(self).max_pull,
            final(self).max_block == old(self).max_block,
            final(self).upper_bound == old(self).upper_bound,
    {
        let kind = match &self.blocks[block_id] {
            Some(b) => b.kind,
            None => BlockKind::D0,
        };
        let ghost d1_old = self.d1@;
        if kind == BlockKind::D1 {
            let old_max = match &self.blocks[block_id] {
                Some(b) => b.max,
                None => max,
            };
            d1_remove(&mut self.d1, old_max, block_id);
            let mut slot: Option<Block<C>> = None;
            std::mem::swap(&mut slot, &mut self.blocks[block_id]);
            let mut block = slot.unwrap();
            block.max = max;
            block.max_key = max_key;
            self.blocks.set(block_id, Some(block));
            proof {
                assert forall|j: int| 0 <= j < self.d1@.len() implies (#[trigger] self.d1@[j]).1 != block_id by {
                    let e = self.d1@[j];
                    assert(self.d1@.contains(e));
                    assert(d1_old.contains(e));
                    let i = choose|i: int| 0 <= i < d1_old.len() && d1_old[i] == e;
                    assert(old(self).d1@[i] == e);
                }
            }
            let ghost d1_mid = self.d1@;
            d1_insert(&mut self.d1, max, block_id);
            proof {
                assert forall|e: (Label<C>, usize)| #[trigger] self.d1@.contains(e) <==> (d1_old.contains(e) && e != (old_max, block_id)) || e == (max, block_id) by {
                    assert(self.d1@.contains(e) <==> d1_mid.contains(e) || e == (max, block_id));
                    assert(d1_mid.contains(e) <==> d1_old.contains(e) && e != (old_max, block_id));
                }
                assert(old_max == old(self).block(block_id as int).max);
            }
        } else {
            let mut slot: Option<Block<C>> = None;
            std::mem::swap(&mut slot, &mut self.blocks[block_id]);
            let mut block = slot.unwrap();
            block.max = max;
            block.max_key = max_key;
            self.blocks.set(block_id, Some(block));
        }
        proof {
            assert forall|b: int| 0 <= b < self.blocks@.len() && b != block_id implies #[trigger] self.blocks@[b] == old(self).blocks@[b] by {}
            assert forall|b: int| #[trigger] self.live(b) <==> old(self).live(b) by {}
            assert forall|k: usize| k < n && !free.contains(k) && #[trigger] self.located(k) is Some
                implies self.live(self.located(k).unwrap().block_id as int)
                    && self.block(self.located(k).unwrap().block_id as int).items@.contains(k) by {
                assert(old(self).located(k) == self.located(k));
            }
            assert forall|b: int, i: int| self.live(b) && 0 <= i < self.block(b).items@.len() implies {
                let k = #[trigger] self.block(b).items@[i];
                &&& k < n
                &&& !free.contains(k)
                &&& self.located(k) is Some
                &&& self.located(k).unwrap().block_id == b
                &&& self.best_at(k) is Some
            } by {
                assert(old(self).live(b));
                assert(self.block(b).items == old(self).block(b).items);
            }
            assert forall|b: int| #[trigger] self.live(b) implies no_repeats(self.block(b).items@) by {
                assert(old(self).live(b));
            }
            assert forall|b: usize| #[trigger] self.live(b as int) && self.block(b as int).kind == BlockKind::D1
                implies self.d1@.contains((self.block(b as int).max, b)) by {
                assert(old(self).live(b as int));
                if b != block_id {
                    assert(self.blocks@[b as int] == old(self).blocks@[b as int]);
                    assert(old(self).d1@.contains((old(self).block(b as int).max, b)));
                    assert(d1_old.contains((self.block(b as int).max, b)));
                }
            }
            assert forall|j: int| 0 <= j < self.d1@.len() implies {
                let e = #[trigger] self.d1@[j];
                &&& self.live(e.1 as int)
                &&& self.block(e.1 as int).kind == BlockKind::D1
                &&& self.block(e.1 as int).max == e.0
            } by {
                let e = self.d1@[j];
                assert(self.d1@.contains(e));
                if e.1 != block_id {
                    let i = choose|i: int| 0 <= i < old(self).d1@.len() && old(self).d1@[i] == e;
                    assert(old(self).d1@[i] == e);
                }
            }
        }
    }
}

impl<C: Weight> PartitionQueue<C> {
    /// Make a new block of the keys, which no block holds, and queue it as
    /// the kind says; returns its number, or the greatest `usize` where there
    /// are no keys.
    #[verifier::rlimit(60)]
    #[verifier::spinoff_prover]
    fn create_block(&mut self, kind: BlockKind, items: Vec<usize>, prepend_d0: bool, Ghost(n): Ghost<nat>, Ghost(free): Ghost<Set<usize>>) -> (r: usize)
        requires
            old(self).wf_but(n, free),
            no_repeats(items@),
            forall|i: int| 0 <= i < items@.len() ==> #[trigger] items@[i] < n && free.contains(items@[i]) && old(self).best_at(items@[i]) is Some,
        ensures
            final(self).wf_but(n, free.difference(items@.to_set())),
            final(self).best == old(self).best,
            final(self).scratch == old(self).scratch,
            final(self).epoch == old(self).epoch,
            final(self).scratch_epoch == old(self).scratch_epoch,
            final(self).max_pull == old(self).max_pull,
            final(self).max_block == old(self).max_block,
            final(self).upper_bound == old(self).upper_bound,
            final(self).blocks@.len() >= old(self).blocks@.len(),
            forall|b: int| 0 <= b < old(self).blocks@.len() ==> #[trigger] final(self).blocks@[b] == old(self).blocks@[b],
            forall|k: usize| k < n && !items@.contains(k) ==> #[trigger] final(self).located(k) == old(self).located(k),
            forall|i: int| 0 <= i < items@.len() ==> #[trigger] final(self).located(items@[i]) is Some,
    {
        if items.len() == 0 {
            proof {
                assert(free.difference(items@.to_set()) =~= free);
            }
            return usize::MAX;
        }
        let (max, max_key) = self.block_max(&items);
        let block_id = self.blocks.len();
        let ghost s0 = *self;
        let mut index: usize = 0;
        while index < items.len()
            invariant
                index <= items@.len(),
                self.frame(&s0),
                self.best == s0.best,
                self.scratch == s0.scratch,
                self.loc@.len() == s0.loc@.len(),
                s0.loc@.len() == n,
                block_id == s0.blocks@.len(),
                forall|i: int| 0 <= i < items@.len() ==> #[trigger] items@[i] < n,
                no_repeats(items@),
                forall|i: int| 0 <= i < index ==> #[trigger] self.located(items@[i]) == Some(Location { block_id, index: i as usize }),
                forall|k: usize| k < n && !items@.take(index as int).contains(k) ==> #[trigger] self.located(k) == s0.located(k),
                forall|k: int| 0 <= k < n ==> (#[trigger] self.loc@[k]).epoch <= self.epoch,
                s0.wf_but(n, free),
            decreases items@.len() - index,
        {
            let key = items[index];
            let ghost before = *self;
            self.loc_set(key, Location { block_id, index });
            proof {
                assert(items@.take(index + 1) == items@.take(index as int).push(key));
                assert forall|i: int| 0 <= i < index + 1 implies #[trigger] self.located(items@[i]) == Some(Location { block_id, index: i as usize }) by {
                    if i < index {
                        assert(items@[i] != key);
                    }
                }
                assert forall|k: usize| k < n && !items@.take(index + 1).contains(k) implies #[trigger] self.located(k) == s0.located(k) by {
                    assert(!items@.take(index as int).contains(k));
                    if k == key {
                        assert(items@.take(index + 1)[index as int] == key);
                    }
                }
                assert forall|k: int| 0 <= k < n implies (#[trigger] self.loc@[k]).epoch <= self.epoch by {
                    if k != key {
                        assert(self.loc@[k] == before.loc@[k]);
                    }
                }
            }
            index = index + 1;
        }
        proof {
            assert(items@.take(items@.len() as int) == items@);
        }
        let ghost item_seq = items@;
        self.blocks.push(Some(Block { items, max, max_key, kind }));
        match kind {
            BlockKind::D0 => {
                if prepend_d0 {
                    self.d0.push_front(block_id);
                } else {
                    self.d0.push_back(block_id);
                }
            },
            BlockKind::D1 => {
                proof {
                    if self.d1@.contains((max, block_id)) {
                        let j = choose|j: int| 0 <= j < self.d1@.len() && self.d1@[j] == (max, block_id);
                        assert(s0.d1@[j] == (max, block_id));
                    }
                }
                d1_insert(&mut self.d1, max, block_id);
            },
        }
        proof {
            let f2 = free.difference(item_seq.to_set());
            assert(self.block(block_id as int).items@ == item_seq);
            assert forall|b: int| 0 <= b < s0.blocks@.len() implies #[trigger] self.blocks@[b] == s0.blocks@[b] by {}
            assert forall|b: int| #[trigger] self.live(b) <==> (s0.live(b) || b == block_id) by {}
            assert forall|k: usize| k < n && !f2.contains(k) && #[trigger] self.located(k) is Some
                implies self.live(self.located(k).unwrap().block_id as int)
                    && self.block(self.located(k).unwrap().block_id as int).items@.contains(k) by {
                if item_seq.contains(k) {
                    let i = choose|i: int| 0 <= i < item_seq.len() && item_seq[i] == k;
                    assert(self.located(item_seq[i]) == Some(Location { block_id, index: i as usize }));
                } else {
                    assert(self.located(k) == s0.located(k));
                    assert(!free.contains(k));
                    let b = s0.located(k).unwrap().block_id as int;
                    assert(s0.live(b));
                    assert(self.blocks@[b] == s0.blocks@[b]);
                }
            }
            assert forall|b: int, i: int| self.live(b) && 0 <= i < self.block(b).items@.len() implies {
                let k = #[trigger] self.block(b).items@[i];
                &&& k < n
                &&& !f2.contains(k)
                &&& self.located(k) is Some
                &&& self.located(k).unwrap().block_id == b
                &&& self.best_at(k) is Some
            } by {
                let k = self.block(b).items@[i];
                if b == block_id {
                    assert(item_seq[i] == k);
                    assert(item_seq.contains(k));
                    assert(self.located(item_seq[i]) == Some(Location { block_id, index: i as usize }));
                } else {
                    assert(s0.live(b));
                    assert(self.blocks@[b] == s0.blocks@[b]);
                    assert(!free.contains(k));
                    if item_seq.contains(k) {
                        let q = choose|q: int| 0 <= q < item_seq.len() && item_seq[q] == k;
                        assert(free.contains(item_seq[q]));
                    }
                    assert(self.located(k) == s0.located(k));
                }
            }
            assert forall|b: int| #[trigger] self.live(b) implies no_repeats(self.block(b).items@) by {
                if b != block_id {
                    assert(s0.live(b));
                }
            }
            assert forall|b: usize| #[trigger] self.live(b as int) && self.block(b as int).kind == BlockKind::D1
                implies self.d1@.contains((self.block(b as int).max, b)) by {
                if b != block_id {
                    assert(s0.live(b as int));
                    assert(s0.d1@.contains((s0.block(b as int).max, b)));
                }
            }
            assert forall|j: int| 0 <= j < self.d1@.len() implies {
                let e = #[trigger] self.d1@[j];
                &&& self.live(e.1 as int)
                &&& self.block(e.1 as int).kind == BlockKind::D1
                &&& self.block(e.1 as int).max == e.0
            } by {
                let e = self.d1@[j];
                assert(self.d1@.contains(e));
                if e.1 != block_id {
                    let i = choose|i: int| 0 <= i < s0.d1@.len() && s0.d1@[i] == e;
                    assert(s0.d1@[i] == e);
                    assert(s0.live(e.1 as int));
                }
            }
            assert forall|j: int| 0 <= j < self.d0@.len() implies #[trigger] self.d0@[j] < self.blocks@.len() by {
                if kind == BlockKind::D0 {
                    if prepend_d0 {
                        if j > 0 {
                            assert(self.d0@[j] == s0.d0@[j - 1]);
                        }
                    } else {
                        if j < s0.d0@.len() {
                            assert(self.d0@[j] == s0.d0@[j]);
                        }
                    }
                } else {
                    assert(self.d0@[j] == s0.d0@[j]);
                }
            }
            assert forall|k: usize| k < n && !item_seq.contains(k) implies #[trigger] self.located(k) == s0.located(k) by {}
            assert forall|i: int| 0 <= i < item_seq.len() implies #[trigger] self.located(item_seq[i]) is Some by {
                assert(self.located(item_seq[i]) == Some(Location { block_id, index: i as usize }));
            }
        }
        block_id
    }
}

impl<C: Weight> PartitionQueue<C> {
    /// Add `key`, which no block holds and which has a best label, to block
    /// `block_id`.
    fn insert_into_block(&mut self, block_id: usize, key: usize, Ghost(n): Ghost<nat>)
        requires
            old(self).wf(n),
            old(self).live(block_id as int),
            key < n,
            old(self).located(key) is None,
            old(self).best_at(key) is Some,
        ensures
            final(self).wf(n),
            final(self).live(block_id as int),
            final(self).blocks@.len() == old(self).blocks@.len(),
            final(self).best == old(self).best,
            final(self).scratch == old(self).scratch,
            final(self).epoch == old(self).epoch,
            final(self).scratch_epoch == old(self).scratch_epoch,
            final(self).max_pull == old(self).max_pull,
            final(self).max_block == old(self).max_block,
            final(self).upper_bound == old(self).upper_bound,
            final(self).located(key) is Some,
            forall|k: usize| k < n && k != key ==> #[trigger] final(self).located(k) == old(self).located(k),
    {
        let label = self.best_value(key);
        let ghost s0 = *self;
        let mut slot: Option<Block<C>> = None;
        std::mem::swap(&mut slot, &mut self.blocks[block_id]);
        let mut block = slot.unwrap();
        let index = block.items.len();
        block.items.push(key);
        let needs_update = label_lt(&block.max, &label);
        self.blocks.set(block_id, Some(block));
        self.loc_set(key, Location { block_id, index });
        proof {
            assert(!s0.block(block_id as int).items@.contains(key)) by {
                if s0.block(block_id as int).items@.contains(key) {
                    let i = choose|i: int| 0 <= i < s0.block(block_id as int).items@.len() && s0.block(block_id as int).items@[i] == key;
                    assert(s0.located(s0.block(block_id as int).items@[i]) is Some);
                }
            }
            let items1 = self.block(block_id as int).items@;
            assert(items1 == s0.block(block_id as int).items@.push(key));
            assert forall|b: int| #[trigger] self.live(b) <==> s0.live(b) by {}
            assert forall|k: usize| k < n && !Set::<usize>::empty().contains(k) && #[trigger] self.located(k) is Some
                implies self.live(self.located(k).unwrap().block_id as int)
                    && self.block(self.located(k).unwrap().block_id as int).items@.contains(k) by {
                if k == key {
                    assert(items1[index as int] == key);
                } else {
                    assert(self.located(k) == s0.located(k));
                    let b = s0.located(k).unwrap().block_id as int;
                    if b == block_id {
                        let i = choose|i: int| 0 <= i < s0.block(b).items@.len() && s0.block(b).items@[i] == k;
                        assert(items1[i] == k);
                    }
                }
            }
            assert forall|b: int, i: int| self.live(b) && 0 <= i < self.block(b).items@.len() implies {
                let k = #[trigger] self.block(b).items@[i];
                &&& k < n
                &&& !Set::<usize>::empty().contains(k)
                &&& self.located(k) is Some
                &&& self.located(k).unwrap().block_id == b
                &&& self.best_at(k) is Some
            } by {
                let k = self.block(b).items@[i];
                if b == block_id && i == index {
                    assert(k == key);
                } else if b == block_id {
                    assert(k == s0.block(b).items@[i]);
                    assert(s0.located(k) is Some);
                    assert(k != key);
                } else {
                    assert(s0.live(b));
                    assert(k == s0.block(b).items@[i]);
                    assert(s0.located(k) is Some);
                    if k == key {
                        assert(false);
                    }
                }
            }
            assert forall|b: int| #[trigger] self.live(b) implies no_repeats(self.block(b).items@) by {
                assert(s0.live(b));
                if b == block_id {
                    assert forall|i: int, j: int| 0 <= i < j < items1.len() implies items1[i] != items1[j] by {
                        if j == index {
                            assert(items1[i] == s0.block(b).items@[i]);
                            assert(s0.block(b).items@.contains(items1[i]));
                        }
                    }
                }
            }
            assert forall|b: usize| #[trigger] self.live(b as int) && self.block(b as int).kind == BlockKind::D1
                implies self.d1@.contains((self.block(b as int).max, b)) by {
                assert(s0.live(b as int));
            }
            assert forall|j: int| 0 <= j < self.d1@.len() implies {
                let e = #[trigger] self.d1@[j];
                &&& self.live(e.1 as int)
                &&& self.block(e.1 as int).kind == BlockKind::D1
                &&& self.block(e.1 as int).max == e.0
            } by {
                assert(s0.d1@[j] == self.d1@[j]);
            }
            assert forall|k: int| 0 <= k < n implies (#[trigger] self.loc@[k]).epoch <= self.epoch by {
                if k != key {
                    assert(self.loc@[k] == s0.loc@[k]);
                }
            }
        }
        if needs_update {
            self.update_block_max(block_id, label, key, Ghost(n), Ghost(Set::empty()));
        }
    }

    /// Take `key` out of the queue, with its label.
    fn remove_key(&mut self, key: usize, Ghost(n): Ghost<nat>)
        requires
            old(self).wf(n),
            key < n,
        ensures
            final(self).wf(n),
            final(self).located(key) is None,
            final(self).best_at(key) is None,
            forall|k: usize| k < n && k != key ==> #[trigger] final(self).best_at(k) == old(self).best_at(k),
            forall|k: usize| k < n && k != key ==> (#[trigger] final(self).located(k) is Some) == (old(self).located(k) is Some),
            final(self).scratch == old(self).scratch,
            final(self).epoch == old(self).epoch,
            final(self).scratch_epoch == old(self).scratch_epoch,
            final(self).max_pull == old(self).max_pull,
            final(self).max_block == old(self).max_block,
            final(self).upper_bound == old(self).upper_bound,
            final(self).blocks@.len() == old(self).blocks@.len(),
            final(self).contents(n) == old(self).contents(n).remove(key),
            old(self).synced(n) ==> final(self).synced(n),
    {
        self.remove_from_block(key, Ghost(n));
        proof {
            assert(self.contents(n) =~= old(self).contents(n).remove(key));
        }
    }

    /// Take `key` out of its block, if it is in one, and clear its label.
    #[verifier::rlimit(100)]
    #[verifier::spinoff_prover]
    fn remove_from_block(&mut self, key: usize, Ghost(n): Ghost<nat>)
        requires
            old(self).wf(n),
            key < n,
        ensures
            final(self).wf(n),
            final(self).located(key) is None,
            final(self).best_at(key) is None,
            forall|k: usize| k < n && k != key ==> #[trigger] final(self).best_at(k) == old(self).best_at(k),
            forall|k: usize| k < n && k != key ==> (#[trigger] final(self).located(k) is Some) == (old(self).located(k) is Some),
            final(self).scratch == old(self).scratch,
            final(self).epoch == old(self).epoch,
            final(self).scratch_epoch == old(self).scratch_epoch,
            final(self).max_pull == old(self).max_pull,
            final(self).max_block == old(self).max_block,
            final(self).upper_bound == old(self).upper_bound,
            final(self).blocks@.len() == old(self).blocks@.len(),
    {
        let ghost s0 = *self;
        let loc = match self.loc_take(key) {
            None => {
                proof {
                    assert forall|b: int| #[trigger] self.live(b) implies !self.block(b).items@.contains(key) by {
                        if self.block(b).items@.contains(key) {
                            let i = choose|i: int| 0 <= i < self.block(b).items@.len() && self.block(b).items@[i] == key;
                            assert(s0.located(self.block(b).items@[i]) is Some);
                        }
                    }
                }
                self.best_clear(key, Ghost(n), Ghost(Set::empty()));
                return;
            },
            Some(l) => l,
        };
        let ghost s1 = *self;
        let block_id = loc.block_id;
        let new_index = loc.index;
        proof {
            assert(s0.live(block_id as int));
            assert(s0.block(block_id as int).items@.contains(key));
        }
        let mut slot: Option<Block<C>> = None;
        std::mem::swap(&mut slot, &mut self.blocks[block_id]);
        let mut block = slot.unwrap();
        let ghost items0 = block.items@;
        let mut missing = false;
        let mut index: usize = 0;
        if new_index < block.items.len() && block.items[new_index] == key {
            index = new_index;
        } else {
            match position_of(&block.items, key) {
                Some(p) => {
                    index = p;
                },
                None => {
                    missing = true;
                },
            }
        }
        if missing {
            self.blocks.set(block_id, Some(block));
            proof {
                assert(false);
            }
            self.best_clear(key, Ghost(n), Ghost(Set::empty()));
            return;
        }
        let moved = block.items.swap_remove(index);
        let mut moved_loc: Option<(usize, usize)> = None;
        if moved != key {
            moved_loc = Some((moved, index));
        }
        let block_empty = block.items.len() == 0;
        let block_kind = block.kind;
        let block_max = block.max;
        let needs_recompute = block.max_key == key;
        let ghost items1 = block.items@;
        self.blocks.set(block_id, Some(block));
        match moved_loc {
            Some((m, i)) => {
                proof { assert(false); }
                self.loc_set(m, Location { block_id, index: i });
            },
            None => {},
        }
        proof {
            assert(items1 == items0.update(index as int, items0.last()).drop_last());
            assert(!items1.contains(key)) by {
                if items1.contains(key) {
                    let j = choose|j: int| 0 <= j < items1.len() && items1[j] == key;
                    if j == index {
                        assert(items0[items0.len() - 1] == key);
                        assert(items0.len() - 1 != index);
                    } else {
                        assert(items0[j] == key);
                    }
                }
            }
            assert forall|x: usize| #[trigger] items1.contains(x) <==> items0.contains(x) && x != key by {
                if items1.contains(x) {
                    let j = choose|j: int| 0 <= j < items1.len() && items1[j] == x;
                    if j == index {
                        assert(items0[items0.len() - 1] == x);
                    } else {
                        assert(items0[j] == x);
                    }
                }
                if items0.contains(x) && x != key {
                    let j = choose|j: int| 0 <= j < items0.len() && items0[j] == x;
                    if j == items0.len() - 1 {
                        assert(items1[index as int] == x);
                    } else {
                        assert(j != index);
                        assert(items1[j] == x);
                    }
                }
            }
            assert forall|b: int| #[trigger] self.live(b) <==> s0.live(b) by {}
            assert forall|k: usize| k < n && !Set::<usize>::empty().contains(k) && #[trigger] self.located(k) is Some
                implies self.live(self.located(k).unwrap().block_id as int)
                    && self.block(self.located(k).unwrap().block_id as int).items@.contains(k) by {
                assert(k != key);
                assert(self.located(k) == s0.located(k));
                let b = s0.located(k).unwrap().block_id as int;
                if b == block_id {
                    assert(items0.contains(k));
                }
            }
            assert forall|b: int, i: int| self.live(b) && 0 <= i < self.block(b).items@.len() implies {
                let k = #[trigger] self.block(b).items@[i];
                &&& k < n
                &&& !Set::<usize>::empty().contains(k)
                &&& self.located(k) is Some
                &&& self.located(k).unwrap().block_id == b
                &&& self.best_at(k) is Some
            } by {
                let k = self.block(b).items@[i];
                if b == block_id {
                    assert(items1.contains(k));
                    assert(items0.contains(k));
                    let q = choose|q: int| 0 <= q < items0.len() && items0[q] == k;
                    assert(s0.block(b).items@[q] == k);
                } else {
                    assert(s0.block(b).items@[i] == k);
                    if k == key {
                        assert(s0.located(key).unwrap().block_id == b);
                    }
                }
            }
            assert forall|b: int| #[trigger] self.live(b) implies no_repeats(self.block(b).items@) by {
                if b == block_id {
                    assert forall|i: int, j: int| 0 <= i < j < items1.len() implies items1[i] != items1[j] by {
                        let a = if i == index { items0.len() - 1 } else { i };
                        let c = if j == index { items0.len() - 1 } else { j };
                        assert(items1[i] == items0[a] && items1[j] == items0[c]);
                    }
                }
            }
            assert forall|b: usize| #[trigger] self.live(b as int) && self.block(b as int).kind == BlockKind::D1
                implies self.d1@.contains((self.block(b as int).max, b)) by {
                assert(s0.live(b as int));
            }
            assert forall|j: int| 0 <= j < self.d1@.len() implies {
                let e = #[trigger] self.d1@[j];
                &&& self.live(e.1 as int)
                &&& self.block(e.1 as int).kind == BlockKind::D1
                &&& self.block(e.1 as int).max == e.0
            } by {
                assert(s0.d1@[j] == self.d1@[j]);
            }
            assert(self.unplaced(key)) by {
                assert forall|b: int| #[trigger] self.live(b) implies !self.block(b).items@.contains(key) by {
                    if b != block_id && self.block(b).items@.contains(key) {
                        let i = choose|i: int| 0 <= i < self.block(b).items@.len() && self.block(b).items@[i] == key;
                        assert(s0.block(b).items@[i] == key);
                        assert(s0.located(key).unwrap().block_id == b);
                    }
                }
            }
        }
        self.best_clear(key, Ghost(n), Ghost(Set::empty()));
        if block_empty {
            let ghost s2 = *self;
            self.blocks.set(block_id, None);
            if block_kind == BlockKind::D1 {
                d1_remove(&mut self.d1, block_max, block_id);
            }
            proof {
                assert forall|b: int| #[trigger] self.live(b) <==> s2.live(b) && b != block_id by {}
                assert forall|k: usize| k < n && !Set::<usize>::empty().contains(k) && #[trigger] self.located(k) is Some
                    implies self.live(self.located(k).unwrap().block_id as int)
                        && self.block(self.located(k).unwrap().block_id as int).items@.contains(k) by {
                    assert(s2.located(k) is Some);
                    let b = s2.located(k).unwrap().block_id as int;
                    if b == block_id {
                        assert(s2.block(b).items@.len() == 0);
                    }
                }
                assert forall|b: usize| #[trigger] self.live(b as int) && self.block(b as int).kind == BlockKind::D1
                    implies self.d1@.contains((self.block(b as int).max, b)) by {
                    assert(s2.live(b as int));
                    assert(s2.d1@.contains((s2.block(b as int).max, b)));
                }
                assert forall|j: int| 0 <= j < self.d1@.len() implies {
                    let e = #[trigger] self.d1@[j];
                    &&& self.live(e.1 as int)
                    &&& self.block(e.1 as int).kind == BlockKind::D1
                    &&& self.block(e.1 as int).max == e.0
                } by {
                    let e = self.d1@[j];
                    assert(self.d1@.contains(e));
                    assert(s2.d1@.contains(e));
                    let i = choose|i: int| 0 <= i < s2.d1@.len() && s2.d1@[i] == e;
                    assert(s2.d1@[i] == e);
                    if e.1 == block_id {
                        if block_kind == BlockKind::D1 {
                            assert(e == (block_max, block_id));
                        } else {
                            assert(s2.block(block_id as int).kind == BlockKind::D1);
                        }
                    }
                }
                assert forall|b: int, i: int| self.live(b) && 0 <= i < self.block(b).items@.len() implies
                    (#[trigger] self.block(b).items@[i]) < n by {
                    assert(s2.live(b));
                }
            }
            return;
        }
        if needs_recompute {
            let (max, max_key) = match &self.blocks[block_id] {
                Some(b) => self.block_max(&b.items),
                None => (block_max, key),
            };
            self.update_block_max(block_id, max, max_key, Ghost(n), Ghost(Set::empty()));
        }
    }
}

impl<C: Weight> PartitionQueue<C> {
    /// Split an ordered block that has grown past the block size into its
    /// lower half, which stays, and its upper half, a new block.
    fn split_block(&mut self, block_id: usize, Ghost(n): Ghost<nat>)
        requires
            old(self).wf(n),
            old(self).live(block_id as int),
        ensures
            final(self).wf(n),
            final(self).blocks@.len() >= old(self).blocks@.len(),
            final(self).best == old(self).best,
            final(self).scratch == old(self).scratch,
            final(self).epoch == old(self).epoch,
            final(self).scratch_epoch == old(self).scratch_epoch,
            final(self).max_pull == old(self).max_pull,
            final(self).max_block == old(self).max_block,
            final(self).upper_bound == old(self).upper_bound,
            forall|k: usize| k < n ==> (#[trigger] final(self).located(k) is Some) == (old(self).located(k) is Some),
            final(self).contents(n) == old(self).contents(n),
            !(old(self).block(block_id as int).kind == BlockKind::D1 && old(self).block(block_id as int).items@.len() > old(self).max_block)
                ==> *final(self) == *old(self),
            old(self).block(block_id as int).kind == BlockKind::D1 && old(self).block(block_id as int).items@.len() > old(self).max_block ==> {
                let lower = final(self).block(block_id as int).items@;
                let all = old(self).block(block_id as int).items@;
                &&& final(self).live(block_id as int)
                &&& final(self).block(block_id as int).kind == BlockKind::D1
                &&& lower.len() == all.len() / 2
                &&& forall|x: usize| lower.contains(x) ==> all.contains(x)
                &&& forall|x: usize, y: usize| lower.contains(x) && all.contains(y) && !lower.contains(y)
                    ==> !label_less(old(self).best_at(y).unwrap(), old(self).best_at(x).unwrap())
            },
    {
        let (kind, should_split) = match &self.blocks[block_id] {
            Some(b) => (b.kind, b.items.len() > self.max_block),
            None => (BlockKind::D0, false),
        };
        if !should_split || kind != BlockKind::D1 {
            return;
        }
        let ghost s0 = *self;
        let mut slot: Option<Block<C>> = None;
        std::mem::swap(&mut slot, &mut self.blocks[block_id]);
        let mut block = slot.unwrap();
        let mut items: Vec<usize> = Vec::new();
        items.append(&mut block.items);
        self.blocks.set(block_id, Some(block));
        let ghost all = items@;
        proof {
            assert(all == s0.block(block_id as int).items@);
            assert forall|i: int| 0 <= i < all.len() implies #[trigger] all[i] < self.best@.len() && self.best_at(all[i]) is Some by {
                assert(s0.block(block_id as int).items@[i] == all[i]);
            }
        }
        let mid = items.len() / 2;
        let mut left = self.sort_keys(items);
        let ghost sorted = left@;
        let right = left.split_off(mid);
        proof {
            lemma_perm_no_repeats(all, sorted);
            assert(sorted == left@ + right@);
            assert forall|x: usize| #[trigger] all.contains(x) <==> left@.contains(x) || right@.contains(x) by {
                if left@.contains(x) {
                    let j = choose|j: int| 0 <= j < left@.len() && left@[j] == x;
                    assert(sorted[j] == x);
                }
                if right@.contains(x) {
                    let j = choose|j: int| 0 <= j < right@.len() && right@[j] == x;
                    assert(sorted[left@.len() + j] == x);
                }
                if sorted.contains(x) {
                    let j = choose|j: int| 0 <= j < sorted.len() && sorted[j] == x;
                    if j < left@.len() {
                        assert(left@[j] == x);
                    } else {
                        assert(right@[j - left@.len()] == x);
                    }
                }
            }
            assert forall|x: usize| left@.contains(x) implies !right@.contains(x) by {
                if left@.contains(x) && right@.contains(x) {
                    let a = choose|a: int| 0 <= a < left@.len() && left@[a] == x;
                    let b = choose|b: int| 0 <= b < right@.len() && right@[b] == x;
                    assert(sorted[a] == sorted[left@.len() + b]);
                }
            }
            assert(no_repeats(left@)) by {
                assert forall|i: int, j: int| 0 <= i < j < left@.len() implies left@[i] != left@[j] by {
                    assert(left@[i] == sorted[i] && left@[j] == sorted[j]);
                }
            }
            assert(no_repeats(right@)) by {
                assert forall|i: int, j: int| 0 <= i < j < right@.len() implies right@[i] != right@[j] by {
                    assert(right@[i] == sorted[left@.len() + i] && right@[j] == sorted[left@.len() + j]);
                }
            }
            assert forall|i: int| 0 <= i < left@.len() implies #[trigger] left@[i] < self.best@.len() && self.best_at(left@[i]) is Some by {
                assert(all.contains(left@[i]));
                let q = choose|q: int| 0 <= q < all.len() && all[q] == left@[i];
            }
            assert forall|i: int| 0 <= i < right@.len() implies #[trigger] right@[i] < n && self.best_at(right@[i]) is Some by {
                assert(all.contains(right@[i]));
                let q = choose|q: int| 0 <= q < all.len() && all[q] == right@[i];
            }
        }
        let (left_max, left_key) = self.block_max(&left);
        let ghost s1 = *self;
        let mut index: usize = 0;
        while index < left.len()
            invariant
                index <= left@.len(),
                self.frame(&s1),
                self.best == s1.best,
                self.scratch == s1.scratch,
                self.loc@.len() == n,
                s1.loc@.len() == n,
                forall|i: int| 0 <= i < left@.len() ==> #[trigger] left@[i] < n,
                no_repeats(left@),
                forall|i: int| 0 <= i < index ==> #[trigger] self.located(left@[i]) == Some(Location { block_id, index: i as usize }),
                forall|k: usize| k < n && !left@.take(index as int).contains(k) ==> #[trigger] self.located(k) == s1.located(k),
                forall|k: int| 0 <= k < n ==> (#[trigger] self.loc@[k]).epoch <= self.epoch,
            decreases left@.len() - index,
        {
            let key = left[index];
            let ghost before = *self;
            self.loc_set(key, Location { block_id, index });
            proof {
                assert(left@.take(index + 1) == left@.take(index as int).push(key));
                assert forall|i: int| 0 <= i < index + 1 implies #[trigger] self.located(left@[i]) == Some(Location { block_id, index: i as usize }) by {
                    if i < index {
                        assert(left@[i] != key);
                    }
                }
                assert forall|k: usize| k < n && !left@.take(index + 1).contains(k) implies #[trigger] self.located(k) == s1.located(k) by {
                    assert(!left@.take(index as int).contains(k));
                    if k == key {
                        assert(left@.take(index + 1)[index as int] == key);
                    }
                }
                assert forall|k: int| 0 <= k < n implies (#[trigger] self.loc@[k]).epoch <= self.epoch by {
                    if k != key {
                        assert(self.loc@[k] == before.loc@[k]);
                    }
                }
            }
            index = index + 1;
        }
        proof {
            assert(left@.take(left@.len() as int) == left@);
        }
        let mut slot2: Option<Block<C>> = None;
        std::mem::swap(&mut slot2, &mut self.blocks[block_id]);
        let mut block2 = slot2.unwrap();
        let ghost left_seq = left@;
        block2.items = left;
        self.blocks.set(block_id, Some(block2));
        let ghost free = right@.to_set();
        proof {
            assert forall|b: int| #[trigger] self.live(b) <==> s0.live(b) by {}
            assert(self.block(block_id as int).items@ == left_seq);
            assert(self.block(block_id as int).max == s0.block(block_id as int).max);
            assert(self.block(block_id as int).kind == BlockKind::D1);
            assert forall|k: usize| k < n && !free.contains(k) && #[trigger] self.located(k) is Some
                implies self.live(self.located(k).unwrap().block_id as int)
                    && self.block(self.located(k).unwrap().block_id as int).items@.contains(k) by {
                if left_seq.contains(k) {
                    let i = choose|i: int| 0 <= i < left_seq.len() && left_seq[i] == k;
                    assert(self.located(left_seq[i]) == Some(Location { block_id, index: i as usize }));
                } else {
                    assert(self.located(k) == s0.located(k));
                    let b = s0.located(k).unwrap().block_id as int;
                    assert(s0.block(b).items@.contains(k));
                    if b == block_id {
                        assert(all.contains(k));
                        assert(right@.contains(k));
                    }
                }
            }
            assert forall|b: int, i: int| self.live(b) && 0 <= i < self.block(b).items@.len() implies {
                let k = #[trigger] self.block(b).items@[i];
                &&& k < n
                &&& !free.contains(k)
                &&& self.located(k) is Some
                &&& self.located(k).unwrap().block_id == b
                &&& self.best_at(k) is Some
            } by {
                let k = self.block(b).items@[i];
                if b == block_id {
                    assert(left_seq[i] == k);
                    assert(self.located(left_seq[i]) == Some(Location { block_id, index: i as usize }));
                    assert(left_seq.contains(k));
                } else {
                    assert(s0.block(b).items@[i] == k);
                    assert(s0.located(k).unwrap().block_id == b);
                    if all.contains(k) {
                        let q = choose|q: int| 0 <= q < all.len() && all[q] == k;
                        assert(s0.block(block_id as int).items@[q] == k);
                    }
                    if left_seq.contains(k) {
                        assert(all.contains(k));
                    }
                    assert(self.located(k) == s0.located(k));
                }
            }
            assert forall|b: int| #[trigger] self.live(b) implies no_repeats(self.block(b).items@) by {}
            assert forall|b: usize| #[trigger] self.live(b as int) && self.block(b as int).kind == BlockKind::D1
                implies self.d1@.contains((self.block(b as int).max, b)) by {
                assert(s0.live(b as int));
            }
            assert forall|j: int| 0 <= j < self.d1@.len() implies {
                let e = #[trigger] self.d1@[j];
                &&& self.live(e.1 as int)
                &&& self.block(e.1 as int).kind == BlockKind::D1
                &&& self.block(e.1 as int).max == e.0
            } by {
                assert(s0.d1@[j] == self.d1@[j]);
            }
        }
        self.update_block_max(block_id, left_max, left_key, Ghost(n), Ghost(free));
        let ghost s2 = *self;
        let ghost right_seq = right@;
        self.create_block(BlockKind::D1, right, false, Ghost(n), Ghost(free));
        proof {
            assert(self.block(block_id as int) == s2.block(block_id as int));
            let lower = self.block(block_id as int).items@;
            assert(lower == left_seq);
            assert(lower.len() == all.len() / 2);
            assert forall|x: usize, y: usize| lower.contains(x) && all.contains(y) && !lower.contains(y)
                implies !label_less(s0.best_at(y).unwrap(), s0.best_at(x).unwrap()) by {
                let a = choose|a: int| 0 <= a < left_seq.len() && left_seq[a] == x;
                assert(right_seq.contains(y));
                let b = choose|b: int| 0 <= b < right_seq.len() && right_seq[b] == y;
                assert(sorted[a] == x);
                assert(sorted[left_seq.len() + b] == y);
            }
            assert(free.difference(right_seq.to_set()) =~= Set::<usize>::empty());
            assert forall|k: usize| k < n implies (#[trigger] self.located(k) is Some) == (s0.located(k) is Some) by {
                if right_seq.contains(k) {
                    let i = choose|i: int| 0 <= i < right_seq.len() && right_seq[i] == k;
                    assert(self.located(right_seq[i]) is Some);
                    assert(all.contains(k));
                    let q = choose|q: int| 0 <= q < all.len() && all[q] == k;
                    assert(s0.block(block_id as int).items@[q] == k);
                } else if left_seq.contains(k) {
                    let i = choose|i: int| 0 <= i < left_seq.len() && left_seq[i] == k;
                    assert(s2.located(left_seq[i]) is Some);
                    assert(all.contains(k));
                    let q = choose|q: int| 0 <= q < all.len() && all[q] == k;
                    assert(s0.block(block_id as int).items@[q] == k);
                } else {
                    assert(self.located(k) == s2.located(k));
                }
            }
        }
    }

    /// Give `key` the label unless it has a label no larger; `true` where it
    /// was given, the key then out of every block.
    fn prepare_insert(&mut self, key: usize, label: Label<C>, Ghost(n): Ghost<nat>) -> (r: bool)
        requires
            old(self).wf(n),
            key < n,
        ensures
            final(self).wf(n),
            r ==> final(self).located(key) is None && final(self).best_at(key) == Some(label),
            !r ==> *final(self) == *old(self),
            r == !(old(self).best_at(key) matches Some(cur) && !label_less(label, cur)),
            forall|k: usize| k < n && k != key ==> (#[trigger] final(self).located(k) is Some) == (old(self).located(k) is Some),
            forall|k: usize| k < n && k != key ==> #[trigger] final(self).best_at(k) == old(self).best_at(k),
            final(self).scratch == old(self).scratch,
            final(self).epoch == old(self).epoch,
            final(self).scratch_epoch == old(self).scratch_epoch,
            final(self).max_pull == old(self).max_pull,
            final(self).max_block == old(self).max_block,
            final(self).upper_bound == old(self).upper_bound,
            final(self).blocks@.len() == old(self).blocks@.len(),
    {
        match self.best_get(key) {
            Some(cur) => {
                if !label_lt(&label, &cur) {
                    return false;
                }
                self.remove_key(key, Ghost(n));
            },
            None => {},
        }
        self.best_set(key, label, Ghost(n), Ghost(Set::empty()));
        proof {
            if old(self).best_at(key) is None {
                assert(old(self).located(key) is None) by {
                    if old(self).located(key) is Some {
                        let b = old(self).located(key).unwrap().block_id as int;
                        let i = choose|i: int| 0 <= i < old(self).block(b).items@.len() && old(self).block(b).items@[i] == key;
                        assert(old(self).best_at(old(self).block(b).items@[i]) is Some);
                    }
                }
            }
        }
        true
    }

    /// Give `key` the label, unless it has a label no larger.
    fn insert(&mut self, key: usize, label: Label<C>, Ghost(n): Ghost<nat>)
        requires
            old(self).wf(n),
            old(self).synced(n),
            key < n,
        ensures
            final(self).wf(n),
            final(self).synced(n),
            final(self).contents(n) == offered(old(self).contents(n), key, label),
            final(self).scratch == old(self).scratch,
            final(self).scratch_epoch == old(self).scratch_epoch,
            final(self).max_pull == old(self).max_pull,
            final(self).upper_bound == old(self).upper_bound,
    {
        if !self.prepare_insert(key, label, Ghost(n)) {
            proof {
                assert(self.contents(n) =~= offered(old(self).contents(n), key, label));
            }
            return;
        }
        let ghost mid = *self;
        proof {
            assert(mid.contents(n) =~= offered(old(self).contents(n), key, label));
        }
        match find_d1_block(&self.d1, label) {
            None => {
                proof {
                    assert(self.unplaced(key)) by {
                        assert forall|b: int| #[trigger] self.live(b) implies !self.block(b).items@.contains(key) by {
                            if self.block(b).items@.contains(key) {
                                let i = choose|i: int| 0 <= i < self.block(b).items@.len() && self.block(b).items@[i] == key;
                                assert(self.located(self.block(b).items@[i]) is Some);
                            }
                        }
                    }
                    self.lemma_free(n, Set::empty().insert(key));
                }
                let items = vec![key];
                proof {
                    assert(Set::<usize>::empty().insert(key).difference(items@.to_set()) =~= Set::<usize>::empty());
                }
                self.create_block(BlockKind::D1, items, false, Ghost(n), Ghost(Set::empty().insert(key)));
                proof {
                    assert(items@[0] == key);
                    assert(self.contents(n) =~= mid.contents(n));
                    assert forall|k: usize| k < n && #[trigger] self.best_at(k) is Some implies self.located(k) is Some by {
                        if k != key {
                            assert(!items@.contains(k));
                            assert(old(self).best_at(k) is Some);
                        }
                    }
                }
                return;
            },
            Some(block_id) => {
                proof {
                    let j = choose|j: int| 0 <= j < self.d1@.len() && (#[trigger] self.d1@[j]).1 == block_id;
                    assert(self.live(self.d1@[j].1 as int));
                }
                self.insert_into_block(block_id, key, Ghost(n));
                let too_big = match &self.blocks[block_id] {
                    Some(b) => b.items.len() > self.max_block,
                    None => false,
                };
                let ghost placed = *self;
                if too_big {
                    self.split_block(block_id, Ghost(n));
                }
                proof {
                    assert(self.contents(n) =~= mid.contents(n));
                    assert forall|k: usize| k < n && #[trigger] self.best_at(k) is Some implies self.located(k) is Some by {
                        assert(placed.located(k) is Some) by {
                            if k != key {
                                assert(old(self).best_at(k) is Some);
                            }
                        }
                    }
                }
            },
        }
    }
}

impl<C: Weight> PartitionQueue<C> {
    /// Note in `scratch`, for each key that the batch offers a label smaller
    /// than its own, the least label offered; return those keys, each once.
    #[verifier::rlimit(50)]
    fn collect_least(&mut self, items: &Vec<(usize, Label<C>)>, Ghost(n): Ghost<nat>) -> (keys: Vec<usize>)
        requires
            old(self).wf(n),
            old(self).synced(n),
            forall|i: int| 0 <= i < items@.len() ==> (#[trigger] items@[i]).0 < n,
        ensures
            final(self).wf(n),
            final(self).synced(n),
            final(self).contents(n) == old(self).contents(n),
            final(self).best == old(self).best,
            final(self).loc == old(self).loc,
            final(self).epoch == old(self).epoch,
            final(self).blocks == old(self).blocks,
            final(self).max_pull == old(self).max_pull,
            final(self).max_block == old(self).max_block,
            final(self).upper_bound == old(self).upper_bound,
            no_repeats(keys@),
            forall|j: int| 0 <= j < keys@.len() ==> #[trigger] keys@[j] < n && final(self).scratch@[keys@[j] as int].at(final(self).scratch_epoch) is Some,
            forall|k: usize| k < n && #[trigger] final(self).scratch@[k as int].at(final(self).scratch_epoch) is Some ==> keys@.contains(k),
            forall|k: usize| k < n && #[trigger] final(self).scratch@[k as int].at(final(self).scratch_epoch) is Some ==> {
                let l = final(self).scratch@[k as int].at(final(self).scratch_epoch).unwrap();
                &&& exists|j: int| 0 <= j < items@.len() && #[trigger] items@[j] == (k, l)
                &&& forall|j: int| 0 <= j < items@.len() && #[trigger] items@[j].0 == k ==> !label_less(items@[j].1, l)
                &&& old(self).contents(n).contains_key(k) ==> label_less(l, old(self).contents(n)[k])
            },
            forall|j: int| 0 <= j < items@.len() && final(self).scratch@[(#[trigger] items@[j]).0 as int].at(final(self).scratch_epoch) is None
                ==> old(self).contents(n).contains_key(items@[j].0) && !label_less(items@[j].1, old(self).contents(n)[items@[j].0]),
    {
        let ghost c0 = self.contents(n);
        let ghost its = items@;
        self.bump_scratch_epoch();
        let mut keys: Vec<usize> = Vec::new();
        let mut i: usize = 0;
        while i < items.len()
            invariant
                self.wf(n),
                self.synced(n),
                self.contents(n) == c0,
                self.max_pull == old(self).max_pull,
                self.upper_bound == old(self).upper_bound,
                self.best == old(self).best,
                self.loc == old(self).loc,
                self.epoch == old(self).epoch,
                self.blocks == old(self).blocks,
                self.max_block == old(self).max_block,
                its == items@,
                i <= items@.len(),
                forall|k: usize| k < n && #[trigger] self.scratch@[k as int].at(self.scratch_epoch) is Some ==> {
                    let l = self.scratch@[k as int].at(self.scratch_epoch).unwrap();
                    &&& exists|j: int| 0 <= j < i && #[trigger] its[j] == (k, l)
                    &&& forall|j: int| 0 <= j < i && #[trigger] its[j].0 == k ==> !label_less(its[j].1, l)
                    &&& c0.contains_key(k) ==> label_less(l, c0[k])
                },
                forall|j: int| 0 <= j < i && self.scratch@[(#[trigger] its[j]).0 as int].at(self.scratch_epoch) is None
                    ==> c0.contains_key(its[j].0) && !label_less(its[j].1, c0[its[j].0]),
                forall|j: int| 0 <= j < items@.len() ==> (#[trigger] items@[j]).0 < n,
                no_repeats(keys@),
                forall|j: int| 0 <= j < keys@.len() ==> #[trigger] keys@[j] < n && self.scratch@[keys@[j] as int].at(self.scratch_epoch) is Some,
                forall|k: usize| k < n && #[trigger] self.scratch@[k as int].at(self.scratch_epoch) is Some ==> keys@.contains(k),
            decreases items@.len() - i,
        {
            let (key, label) = items[i];
            proof { assert(items@[i as int].0 < n); }
            let ghost at_start = *self;
            let smaller = match self.best_get(key) {
                Some(cur) => label_lt(&label, &cur),
                None => true,
            };
            proof {
                assert(its[i as int] == (key, label));
                assert(smaller == !(c0.contains_key(key) && !label_less(label, c0[key])));
            }
            if smaller {
                let ghost before = *self;
                match self.scratch_get(key) {
                    None => {
                        self.scratch_set(key, label);
                        let ghost k0 = keys@;
                        keys.push(key);
                        proof {
                            assert(!k0.contains(key));
                            assert forall|a: int, b: int| 0 <= a < b < keys@.len() implies keys@[a] != keys@[b] by {
                                if b == k0.len() {
                                    assert(k0.contains(keys@[a]));
                                }
                            }
                            assert forall|j: int| 0 <= j < keys@.len() implies #[trigger] keys@[j] < n && self.scratch@[keys@[j] as int].at(self.scratch_epoch) is Some by {
                                if j < k0.len() {
                                    assert(keys@[j] == k0[j]);
                                }
                            }
                            assert forall|k: usize| k < n && #[trigger] self.scratch@[k as int].at(self.scratch_epoch) is Some implies keys@.contains(k) by {
                                if k == key {
                                    assert(keys@[k0.len() as int] == key);
                                } else {
                                    assert(before.scratch@[k as int] == self.scratch@[k as int]);
                                    let j = choose|j: int| 0 <= j < k0.len() && k0[j] == k;
                                    assert(keys@[j] == k);
                                }
                            }
                        }
                    },
                    Some(existing) => {
                        if label_lt(&label, &existing) {
                            self.scratch_set(key, label);
                            proof {
                                assert forall|k: usize| k < n && #[trigger] self.scratch@[k as int].at(self.scratch_epoch) is Some implies keys@.contains(k) by {
                                    if k != key {
                                        assert(before.scratch@[k as int] == self.scratch@[k as int]);
                                    }
                                }
                                assert forall|j: int| 0 <= j < keys@.len() implies #[trigger] keys@[j] < n && self.scratch@[keys@[j] as int].at(self.scratch_epoch) is Some by {
                                    if keys@[j] != key {
                                        assert(before.scratch@[keys@[j] as int] == self.scratch@[keys@[j] as int]);
                                    }
                                }
                            }
                        }
                    },
                }
                proof {
                    assert forall|k: int| 0 <= k < n implies (#[trigger] self.scratch@[k]).epoch <= self.scratch_epoch by {
                        if k != key {
                            assert(before.scratch@[k] == self.scratch@[k]);
                        }
                    }
                    assert forall|b: int, j: int| self.live(b) && 0 <= j < self.block(b).items@.len() implies
                        (#[trigger] self.block(b).items@[j]) < n by {
                        assert(before.live(b));
                    }
                }
            }
            proof {
                assert(self.contents(n) =~= c0) by {
                    assert(self.best == at_start.best && self.epoch == at_start.epoch);
                }
                assert forall|k: usize| k < n && #[trigger] self.best_at(k) is Some implies self.located(k) is Some by {
                    assert(at_start.best_at(k) is Some);
                }
                let ls = at_start.scratch@[key as int].at(at_start.scratch_epoch);
                assert forall|k: usize| k < n && #[trigger] self.scratch@[k as int].at(self.scratch_epoch) is Some implies {
                    let l = self.scratch@[k as int].at(self.scratch_epoch).unwrap();
                    &&& exists|j: int| 0 <= j < i + 1 && #[trigger] its[j] == (k, l)
                    &&& forall|j: int| 0 <= j < i + 1 && #[trigger] its[j].0 == k ==> !label_less(its[j].1, l)
                    &&& c0.contains_key(k) ==> label_less(l, c0[k])
                } by {
                    let l = self.scratch@[k as int].at(self.scratch_epoch).unwrap();
                    if k != key {
                        assert(self.scratch@[k as int] == at_start.scratch@[k as int]);
                        let j0 = choose|j: int| 0 <= j < i && #[trigger] its[j] == (k, l);
                        assert(its[j0] == (k, l));
                    } else {
                        if self.scratch@[k as int] == at_start.scratch@[k as int] {
                            // The label kept is no larger than this one.
                            let j0 = choose|j: int| 0 <= j < i && #[trigger] its[j] == (k, l);
                            assert(its[j0] == (k, l));
                            if smaller {
                                assert(!label_less(label, l));
                            } else {
                                lemma_label_order(label, l, c0[key]);
                                lemma_label_order(l, c0[key], label);
                                lemma_label_order(label, c0[key], l);
                            }
                        } else {
                            assert(l == label);
                            assert(its[i as int] == (k, l));
                            assert forall|j: int| 0 <= j < i + 1 && #[trigger] its[j].0 == k implies !label_less(its[j].1, l) by {
                                lemma_label_order(l, l, l);
                                if j < i {
                                    if ls is Some {
                                        lemma_label_order(its[j].1, ls.unwrap(), l);
                                        lemma_label_order(l, ls.unwrap(), its[j].1);
                                    } else {
                                        lemma_label_order(its[j].1, c0[key], l);
                                        lemma_label_order(l, c0[key], its[j].1);
                                    }
                                }
                            }
                        }
                    }
                }
                assert forall|j: int| 0 <= j < i + 1 && self.scratch@[(#[trigger] its[j]).0 as int].at(self.scratch_epoch) is None
                    implies c0.contains_key(its[j].0) && !label_less(its[j].1, c0[its[j].0]) by {
                    let k = its[j].0;
                    if k != key {
                        assert(self.scratch@[k as int] == at_start.scratch@[k as int]);
                    } else {
                        assert(!smaller);
                        if j == i {
                            assert(its[j] == (key, label));
                        }
                    }
                }
            }
            i = i + 1;
        }
        keys
    }

    /// The labels after a batch prepend are the least ones held or offered.
    proof fn lemma_batch_result(
        &self,
        n: nat,
        c0: Map<usize, Label<C>>,
        its: Seq<(usize, Label<C>)>,
        keys: Seq<usize>,
        sc0: Seq<EpochOption<Label<C>>>,
        se: u32,
    )
        requires
            forall|k: usize| #[trigger] c0.contains_key(k) ==> k < n,
            forall|j: int| 0 <= j < its.len() ==> (#[trigger] its[j]).0 < n,
            forall|k: usize| k < n ==> #[trigger] self.best_at(k) == (if keys.contains(k) { sc0[k as int].at(se) } else { c0.get(k) }),
            forall|j: int| 0 <= j < keys.len() ==> #[trigger] keys[j] < n && sc0[keys[j] as int].at(se) is Some,
            forall|k: usize| k < n && #[trigger] sc0[k as int].at(se) is Some ==> keys.contains(k),
            forall|k: usize| k < n && #[trigger] sc0[k as int].at(se) is Some ==> {
                let l = sc0[k as int].at(se).unwrap();
                &&& exists|j: int| 0 <= j < its.len() && #[trigger] its[j] == (k, l)
                &&& forall|j: int| 0 <= j < its.len() && #[trigger] its[j].0 == k ==> !label_less(its[j].1, l)
                &&& c0.contains_key(k) ==> label_less(l, c0[k])
            },
            forall|j: int| 0 <= j < its.len() && sc0[(#[trigger] its[j]).0 as int].at(se) is None
                ==> c0.contains_key(its[j].0) && !label_less(its[j].1, c0[its[j].0]),
        ensures
            prepended(c0, its, self.contents(n)),
    {
        let c1 = self.contents(n);
        assert forall|k: usize| #[trigger] c1.contains_key(k) <==> (c0.contains_key(k) || offered_in(its, k)) by {
            if offered_in(its, k) {
                let j = choose|j: int| 0 <= j < its.len() && #[trigger] its[j].0 == k;
                assert(its[j].0 < n);
                if !keys.contains(k) {
                    assert(sc0[its[j].0 as int].at(se) is None);
                }
            }
            if c0.contains_key(k) {
                assert(k < n);
            }
            if c1.contains_key(k) && keys.contains(k) {
                let j = choose|j: int| 0 <= j < keys.len() && keys[j] == k;
                assert(sc0[keys[j] as int].at(se) is Some);
                let l = sc0[k as int].at(se).unwrap();
                let j2 = choose|j2: int| 0 <= j2 < its.len() && #[trigger] its[j2] == (k, l);
                assert(its[j2].0 == k);
            }
        }
        assert forall|k: usize| #[trigger] c1.contains_key(k) implies {
            &&& (c0.contains_key(k) && c1[k] == c0[k]) || (exists|j: int| 0 <= j < its.len() && #[trigger] its[j] == (k, c1[k]))
            &&& c0.contains_key(k) ==> !label_less(c0[k], c1[k])
            &&& forall|j: int| 0 <= j < its.len() && #[trigger] its[j].0 == k ==> !label_less(its[j].1, c1[k])
        } by {
            if keys.contains(k) {
                let j = choose|j: int| 0 <= j < keys.len() && keys[j] == k;
                assert(sc0[keys[j] as int].at(se) is Some);
                let l = sc0[k as int].at(se).unwrap();
                assert(c1[k] == l);
                let j2 = choose|j2: int| 0 <= j2 < its.len() && #[trigger] its[j2] == (k, l);
                assert(its[j2] == (k, c1[k]));
                if c0.contains_key(k) {
                    lemma_label_order(l, c0[k], l);
                }
            } else {
                assert(c1[k] == c0[k]);
                assert(sc0[k as int].at(se) is None);
                lemma_label_order(c0[k], c0[k], c0[k]);
                assert forall|j: int| 0 <= j < its.len() && #[trigger] its[j].0 == k implies !label_less(its[j].1, c1[k]) by {
                    assert(sc0[its[j].0 as int].at(se) is None);
                }
            }
        }
    }

    /// Add the keys with their labels, where a key has no label as small, as
    /// new blocks at the front, in order of their labels.
    fn batch_prepend(&mut self, items: Vec<(usize, Label<C>)>, Ghost(n): Ghost<nat>)
        requires
            old(self).wf(n),
            old(self).synced(n),
            forall|i: int| 0 <= i < items@.len() ==> (#[trigger] items@[i]).0 < n,
        ensures
            final(self).wf(n),
            final(self).synced(n),
            final(self).max_pull == old(self).max_pull,
            final(self).upper_bound == old(self).upper_bound,
            prepended(old(self).contents(n), items@, final(self).contents(n)),
    {
        let ghost c0 = self.contents(n);
        let ghost its = items@;
        let keys = self.collect_least(&items, Ghost(n));
        let ghost sc0 = self.scratch@;
        let ghost se = self.scratch_epoch;
        proof {
            assert forall|k: usize| k < n && offered_in(its, k) implies c0.contains_key(k) || #[trigger] keys@.contains(k) by {
                let j = choose|j: int| 0 <= j < its.len() && #[trigger] its[j].0 == k;
                if !keys@.contains(k) {
                    assert(self.scratch@[k as int].at(self.scratch_epoch) is None);
                }
            }
        }
        if keys.len() == 0 {
            proof {
                assert forall|k: usize| #[trigger] c0.contains_key(k) <==> (c0.contains_key(k) || offered_in(its, k)) by {
                    if offered_in(its, k) {
                        let j = choose|j: int| 0 <= j < its.len() && #[trigger] its[j].0 == k;
                        assert(its[j].0 < n);
                    }
                }
                assert forall|k: usize| #[trigger] c0.contains_key(k) implies
                    forall|j: int| 0 <= j < its.len() && #[trigger] its[j].0 == k ==> !label_less(its[j].1, c0[k]) by {
                    assert forall|j: int| 0 <= j < its.len() && #[trigger] its[j].0 == k implies !label_less(its[j].1, c0[k]) by {
                        assert(!keys@.contains(k));
                    }
                }
            }
            return;
        }
        let mut batch: Vec<(usize, Label<C>)> = Vec::new();
        let mut q: usize = 0;
        while q < keys.len()
            invariant
                self.wf(n),
                self.max_pull == old(self).max_pull,
                self.upper_bound == old(self).upper_bound,
                self.scratch_epoch == se,
                forall|j: int| q <= j < keys@.len() ==> self.scratch@[(#[trigger] keys@[j]) as int] == sc0[keys@[j] as int],
                forall|k: usize| k < n ==> #[trigger] self.best_at(k) == (if keys@.take(q as int).contains(k) {
                    sc0[k as int].at(se)
                } else {
                    c0.get(k)
                }),
                forall|k: usize| k < n && #[trigger] self.best_at(k) is Some && !keys@.take(q as int).contains(k) ==> self.located(k) is Some,
                q <= keys@.len(),
                no_repeats(keys@),
                forall|j: int| 0 <= j < keys@.len() ==> #[trigger] keys@[j] < n,
                forall|j: int| q <= j < keys@.len() ==> self.scratch@[(#[trigger] keys@[j]) as int].at(self.scratch_epoch) is Some,
                batch@.len() == q,
                forall|j: int| 0 <= j < q ==> (#[trigger] batch@[j]).0 == keys@[j],
                forall|j: int| 0 <= j < q ==> self.located(#[trigger] keys@[j]) is None && self.best_at(keys@[j]) is Some,
            decreases keys@.len() - q,
        {
            let key = keys[q];
            let ghost before = *self;
            let taken = self.scratch_take(key);
            let label = taken.unwrap();
            proof {
                assert(keys@.take(q + 1) == keys@.take(q as int).push(key));
                assert(!keys@.take(q as int).contains(key)) by {
                    if keys@.take(q as int).contains(key) {
                        let a = choose|a: int| 0 <= a < q && keys@.take(q as int)[a] == key;
                        assert(keys@[a] == keys@[q as int]);
                    }
                }
                assert(sc0[key as int].at(se) == Some(label));
            }
            proof {
                assert forall|k: int| 0 <= k < n implies (#[trigger] self.scratch@[k]).epoch <= self.scratch_epoch by {}
                assert(self.wf(n)) by {
                    assert forall|b: int, j: int| self.live(b) && 0 <= j < self.block(b).items@.len() implies
                        (#[trigger] self.block(b).items@[j]) < n by {
                        assert(before.live(b));
                    }
                }
                assert forall|j: int| q < j < keys@.len() implies self.scratch@[(#[trigger] keys@[j]) as int].at(self.scratch_epoch) is Some by {
                    assert(keys@[j] != key);
                }
            }
            let ghost mid = *self;
            if self.best_get(key).is_some() {
                self.remove_key(key, Ghost(n));
            } else {
                proof {
                    if self.located(key) is Some {
                        let b = self.located(key).unwrap().block_id as int;
                        let i = choose|i: int| 0 <= i < self.block(b).items@.len() && self.block(b).items@[i] == key;
                        assert(self.best_at(self.block(b).items@[i]) is Some);
                    }
                }
            }
            let ghost cleared = *self;
            self.best_set(key, label, Ghost(n), Ghost(Set::empty()));
            batch.push((key, label));
            proof {
                assert(keys@.take(q + 1)[q as int] == key);
                assert(keys@.take(q + 1).contains(key));
                assert forall|k: usize| k < n implies #[trigger] self.best_at(k) == (if keys@.take(q + 1).contains(k) {
                    sc0[k as int].at(se)
                } else {
                    c0.get(k)
                }) by {
                    if k != key {
                        assert(keys@.take(q + 1).contains(k) == keys@.take(q as int).contains(k));
                        assert(self.best_at(k) == cleared.best_at(k));
                        assert(cleared.best_at(k) == mid.best_at(k));
                        assert(mid.best_at(k) == before.best_at(k));
                    }
                }
                assert forall|k: usize| k < n && #[trigger] self.best_at(k) is Some && !keys@.take(q + 1).contains(k)
                    implies self.located(k) is Some by {
                    assert(k != key);
                    assert(self.best_at(k) == cleared.best_at(k));
                    assert(cleared.best_at(k) == mid.best_at(k));
                    assert(mid.best_at(k) == before.best_at(k));
                    assert((cleared.located(k) is Some) == (mid.located(k) is Some));
                    assert(keys@.take(q + 1).contains(k) == keys@.take(q as int).contains(k));
                    assert(before.best_at(k) is Some);
                }
                assert forall|j: int| q + 1 <= j < keys@.len() implies self.scratch@[(#[trigger] keys@[j]) as int] == sc0[keys@[j] as int] by {
                    assert(keys@[j] != key);
                }
                assert forall|j: int| 0 <= j < q + 1 implies self.located(#[trigger] keys@[j]) is None && self.best_at(keys@[j]) is Some by {
                    if j < q {
                        assert(keys@[j] != key);
                    }
                }
                assert forall|j: int| q + 1 <= j < keys@.len() implies self.scratch@[(#[trigger] keys@[j]) as int].at(self.scratch_epoch) is Some by {
                    assert(mid.scratch@[keys@[j] as int].at(mid.scratch_epoch) is Some);
                }
            }
            q = q + 1;
        }
        let ghost kseq = keys@;
        let ghost relabeled = *self;
        proof {
            assert(kseq.take(kseq.len() as int) =~= kseq);
            assert forall|k: usize| #[trigger] c0.contains_key(k) implies k < n by {}
            assert forall|k: usize| #[trigger] kseq.to_set().contains(k) implies self.unplaced(k) by {
                let j = choose|j: int| 0 <= j < kseq.len() && kseq[j] == k;
                assert(self.located(kseq[j]) is None);
                assert forall|b: int| #[trigger] self.live(b) implies !self.block(b).items@.contains(k) by {
                    if self.block(b).items@.contains(k) {
                        let i = choose|i: int| 0 <= i < self.block(b).items@.len() && self.block(b).items@[i] == k;
                        assert(self.located(self.block(b).items@[i]) is Some);
                    }
                }
            }
            self.lemma_free(n, kseq.to_set());
        }
        if batch.len() <= self.max_block {
            let mut block_items: Vec<usize> = Vec::new();
            let mut j: usize = 0;
            while j < batch.len()
                invariant
                    j <= batch@.len(),
                    batch@.len() == kseq.len(),
                    forall|t: int| 0 <= t < batch@.len() ==> (#[trigger] batch@[t]).0 == kseq[t],
                    block_items@ == kseq.take(j as int),
                decreases batch@.len() - j,
            {
                block_items.push(batch[j].0);
                proof { assert(kseq.take(j + 1) == kseq.take(j as int).push(kseq[j as int])); }
                j = j + 1;
            }
            proof {
                assert(kseq.take(kseq.len() as int) == kseq);
                assert(kseq.to_set().difference(block_items@.to_set()) =~= Set::<usize>::empty());
            }
            self.create_block(BlockKind::D0, block_items, true, Ghost(n), Ghost(kseq.to_set()));
            proof {
                assert(self.best == relabeled.best && self.epoch == relabeled.epoch);
                assert forall|k: usize| k < n implies #[trigger] self.best_at(k) == (if kseq.contains(k) {
                    sc0[k as int].at(se)
                } else {
                    c0.get(k)
                }) by {
                    assert(relabeled.best_at(k) == self.best_at(k));
                }
                self.lemma_batch_result(n, c0, its, kseq, sc0, se);
                assert forall|k: usize| k < n && #[trigger] self.best_at(k) is Some implies self.located(k) is Some by {
                    if !block_items@.contains(k) {
                        assert(relabeled.best_at(k) is Some);
                        assert(!kseq.contains(k));
                    } else {
                        let t = choose|t: int| 0 <= t < block_items@.len() && block_items@[t] == k;
                        assert(self.located(block_items@[t]) is Some);
                    }
                }
            }
            return;
        }
        let sorted = self.sort_keys(keys);
        proof {
            lemma_perm_no_repeats(kseq, sorted@);
        }
        let max_block = self.max_block;
        let mut starts: Vec<usize> = Vec::new();
        let mut s: usize = 0;
        while s < sorted.len()
            invariant
                max_block >= 1,
                forall|t: int| 0 <= t < starts@.len() ==> #[trigger] starts@[t] < sorted@.len(),
                forall|a: int, b: int| 0 <= a < b < starts@.len() ==> starts@[a] < starts@[b],
                s <= sorted@.len(),
                starts@.len() > 0 ==> starts@[starts@.len() - 1] < s,
                starts@.len() > 0 ==> starts@[0] == 0,
                starts@.len() == 0 ==> s == 0,
            decreases sorted@.len() - s,
        {
            starts.push(s);
            let next = sat_add(s, max_block);
            s = if next < sorted.len() { next } else { sorted.len() };
        }
        let count = starts.len();
        let mut c: usize = count;
        let ghost sseq = sorted@;
        proof {
            assert(sseq.to_set() =~= kseq.to_set());
            assert(sseq.take(sseq.len() as int) == sseq);
            assert forall|k: usize| k < n && #[trigger] self.best_at(k) is Some && !sseq.take(sseq.len() as int).contains(k)
                implies self.located(k) is Some by {
                assert(!kseq.contains(k));
            }
        }
        while c > 0
            invariant
                self.best == relabeled.best,
                self.epoch == relabeled.epoch,
                self.upper_bound == old(self).upper_bound,
                forall|k: usize| k < n && #[trigger] self.best_at(k) is Some
                    && !sseq.take(if c == count { sseq.len() as int } else { starts@[c as int] as int }).contains(k)
                    ==> self.located(k) is Some,
                c <= count,
                count == starts@.len(),
                count > 0,
                sorted@ == sseq,
                forall|t: int| 0 <= t < starts@.len() ==> #[trigger] starts@[t] < sseq.len(),
                forall|a: int, b: int| 0 <= a < b < starts@.len() ==> starts@[a] < starts@[b],
                starts@[0] == 0,
                no_repeats(sseq),
                forall|t: int| 0 <= t < sseq.len() ==> #[trigger] sseq[t] < n && self.best_at(sseq[t]) is Some,
                self.wf_but(n, sseq.take(if c == count { sseq.len() as int } else { starts@[c as int] as int }).to_set()),
                self.max_pull == old(self).max_pull,
            decreases c,
        {
            let start = starts[c - 1];
            let end = if c == count { sorted.len() } else { starts[c] };
            let chunk = copy_range(&sorted, start, end);
            let ghost free = sseq.take(end as int).to_set();
            proof {
                assert(chunk@ == sseq.subrange(start as int, end as int));
                assert(no_repeats(chunk@)) by {
                    assert forall|a: int, b: int| 0 <= a < b < chunk@.len() implies chunk@[a] != chunk@[b] by {
                        assert(chunk@[a] == sseq[start + a] && chunk@[b] == sseq[start + b]);
                    }
                }
                assert forall|t: int| 0 <= t < chunk@.len() implies #[trigger] chunk@[t] < n && free.contains(chunk@[t]) && self.best_at(chunk@[t]) is Some by {
                    assert(chunk@[t] == sseq[start + t]);
                    assert(sseq.take(end as int)[start + t] == sseq[start + t]);
                }
                assert(free.difference(chunk@.to_set()) =~= sseq.take(start as int).to_set()) by {
                    assert forall|x: usize| #[trigger] free.difference(chunk@.to_set()).contains(x) <==> sseq.take(start as int).to_set().contains(x) by {
                        if sseq.take(start as int).contains(x) {
                            let a = choose|a: int| 0 <= a < start && sseq.take(start as int)[a] == x;
                            assert(sseq.take(end as int)[a] == x);
                            if chunk@.contains(x) {
                                let b = choose|b: int| 0 <= b < chunk@.len() && chunk@[b] == x;
                                assert(sseq[start + b] == sseq[a]);
                            }
                        }
                        if free.contains(x) && !chunk@.contains(x) {
                            let a = choose|a: int| 0 <= a < end && sseq.take(end as int)[a] == x;
                            if a >= start {
                                assert(chunk@[a - start] == x);
                            }
                            assert(sseq.take(start as int)[a] == x);
                        }
                    }
                }
            }
            let ghost before_block = *self;
            self.create_block(BlockKind::D0, chunk, true, Ghost(n), Ghost(free));
            proof {
                assert forall|k: usize| k < n && #[trigger] self.best_at(k) is Some && !sseq.take(start as int).contains(k)
                    implies self.located(k) is Some by {
                    assert(before_block.best_at(k) is Some);
                    if chunk@.contains(k) {
                        let t = choose|t: int| 0 <= t < chunk@.len() && chunk@[t] == k;
                        assert(self.located(chunk@[t]) is Some);
                    } else {
                        assert(!sseq.take(end as int).contains(k)) by {
                            if sseq.take(end as int).contains(k) {
                                let a = choose|a: int| 0 <= a < end && sseq.take(end as int)[a] == k;
                                if a < start {
                                    assert(sseq.take(start as int)[a] == k);
                                } else {
                                    assert(chunk@[a - start] == k);
                                }
                            }
                        }
                    }
                }
            }
            c = c - 1;
        }
        proof {
            assert(sseq.take(0).to_set() =~= Set::<usize>::empty());
            assert forall|k: usize| k < n && #[trigger] self.best_at(k) is Some implies self.located(k) is Some by {
                assert(!sseq.take(0).contains(k));
            }
            assert forall|k: usize| k < n implies #[trigger] self.best_at(k) == (if kseq.contains(k) {
                sc0[k as int].at(se)
            } else {
                c0.get(k)
            }) by {
                assert(relabeled.best_at(k) == self.best_at(k));
            }
            self.lemma_batch_result(n, c0, its, kseq, sc0, se);
        }
    }
}

impl<C: Weight> PartitionQueue<C> {
    /// Take out the `max_pull` keys with the smallest labels (all of them where
    /// fewer are held), with the smallest label left as a bound (the queue's
    /// bound where none is left). Every key held is looked at.
    fn pull(&mut self, Ghost(n): Ghost<nat>) -> (r: (Bound<C>, Vec<usize>))
        requires
            old(self).wf(n),
            old(self).synced(n),
        ensures
            final(self).wf(n),
            final(self).synced(n),
            final(self).max_pull == old(self).max_pull,
            final(self).upper_bound == old(self).upper_bound,
            forall|i: int| 0 <= i < r.1@.len() ==> #[trigger] r.1@[i] < n && old(self).contents(n).contains_key(r.1@[i]),
            r.1@.len() <= old(self).max_pull,
            final(self).contents(n) == old(self).contents(n).remove_keys(r.1@.to_set()),
            r.0 == old(self).upper_bound || (r.0 matches Some(b) && (exists|k: usize|
                #[trigger] old(self).contents(n).contains_key(k) && old(self).contents(n)[k] == b) && forall|i: int|
                0 <= i < r.1@.len() ==> !label_less(b, #[trigger] old(self).contents(n)[r.1@[i]])),
            pulled(old(self).contents(n), r.1@, r.0, old(self).upper_bound, old(self).max_pull as int),
    {
        let ghost c0 = self.contents(n);
        while self.d0.len() > 0 && self.blocks[self.d0[0]].is_none()
            invariant
                self.wf(n),
                self.synced(n),
                self.max_pull == old(self).max_pull,
                self.upper_bound == old(self).upper_bound,
                self.best == old(self).best,
                self.epoch == old(self).epoch,
                self.contents(n) == c0,
            decreases self.d0@.len(),
        {
            let ghost before = *self;
            self.d0.pop_front();
            proof {
                assert forall|j: int| 0 <= j < self.d0@.len() implies #[trigger] self.d0@[j] < self.blocks@.len() by {
                    assert(self.d0@[j] == before.d0@[j + 1]);
                }
            }
        }
        // Every key held, from every block.
        let mut gathered: Vec<usize> = Vec::new();
        let mut b: usize = 0;
        while b < self.blocks.len()
            invariant
                self.wf(n),
                self.synced(n),
                self.contents(n) == c0,
                b <= self.blocks@.len(),
                no_repeats(gathered@),
                forall|i: int| 0 <= i < gathered@.len() ==> #[trigger] gathered@[i] < n && self.best_at(gathered@[i]) is Some
                    && self.located(gathered@[i]) is Some && self.located(gathered@[i]).unwrap().block_id < b,
                forall|k: usize| k < n && #[trigger] self.located(k) is Some && self.located(k).unwrap().block_id < b
                    ==> gathered@.contains(k),
            decreases self.blocks@.len() - b,
        {
            match &self.blocks[b] {
                None => {
                    proof {
                        assert forall|k: usize| k < n && #[trigger] self.located(k) is Some && self.located(k).unwrap().block_id < b + 1
                            implies gathered@.contains(k) by {
                            if self.located(k).unwrap().block_id == b {
                                assert(self.live(b as int));
                            }
                        }
                    }
                },
                Some(block) => {
                    let ghost g0 = gathered@;
                    let mut u: usize = 0;
                    while u < block.items.len()
                        invariant
                            self.wf(n),
                            self.live(b as int),
                            self.blocks@[b as int] == Some(*block),
                            u <= block.items@.len(),
                            gathered@ == g0 + block.items@.take(u as int),
                            no_repeats(gathered@),
                            forall|i: int| 0 <= i < g0.len() ==> #[trigger] g0[i] < n && self.best_at(g0[i]) is Some
                                && self.located(g0[i]) is Some && self.located(g0[i]).unwrap().block_id < b,
                            forall|i: int| 0 <= i < gathered@.len() ==> #[trigger] gathered@[i] < n && self.best_at(gathered@[i]) is Some
                                && self.located(gathered@[i]) is Some && self.located(gathered@[i]).unwrap().block_id <= b,
                        decreases block.items@.len() - u,
                    {
                        let key = block.items[u];
                        proof {
                            assert(self.block(b as int).items@[u as int] == key);
                            assert forall|i: int| 0 <= i < gathered@.len() implies gathered@[i] != key by {
                                if i < g0.len() {
                                    assert(gathered@[i] == g0[i]);
                                } else {
                                    assert(gathered@[i] == block.items@[i - g0.len()]);
                                    assert(self.block(b as int).items@[i - g0.len()] == gathered@[i]);
                                }
                            }
                        }
                        let ghost gb = gathered@;
                        gathered.push(key);
                        proof {
                            assert(block.items@.take(u + 1) == block.items@.take(u as int).push(key));
                            assert(gathered@ == g0 + block.items@.take(u + 1));
                            assert forall|i: int, j: int| 0 <= i < j < gathered@.len() implies gathered@[i] != gathered@[j] by {
                                if j < gb.len() {
                                    assert(gathered@[i] == gb[i] && gathered@[j] == gb[j]);
                                } else {
                                    assert(gathered@[i] == gb[i]);
                                }
                            }
                            assert forall|i: int| 0 <= i < gathered@.len() implies #[trigger] gathered@[i] < n && self.best_at(gathered@[i]) is Some
                                && self.located(gathered@[i]) is Some && self.located(gathered@[i]).unwrap().block_id <= b by {
                                if i < gb.len() {
                                    assert(gathered@[i] == gb[i]);
                                }
                            }
                        }
                        u = u + 1;
                    }
                    proof {
                        assert(block.items@.take(block.items@.len() as int) =~= block.items@);
                        assert forall|i: int| 0 <= i < gathered@.len() implies #[trigger] gathered@[i] < n && self.best_at(gathered@[i]) is Some
                            && self.located(gathered@[i]) is Some && self.located(gathered@[i]).unwrap().block_id < b + 1 by {}
                        assert forall|k: usize| k < n && #[trigger] self.located(k) is Some && self.located(k).unwrap().block_id < b + 1
                            implies gathered@.contains(k) by {
                            if self.located(k).unwrap().block_id == b {
                                assert(self.block(b as int).items@.contains(k));
                                let q = choose|q: int| 0 <= q < block.items@.len() && block.items@[q] == k;
                                assert(gathered@[g0.len() + q] == k);
                            } else {
                                assert(g0.contains(k));
                                let q = choose|q: int| 0 <= q < g0.len() && g0[q] == k;
                                assert(gathered@[q] == k);
                            }
                        }
                    }
                },
            }
            b = b + 1;
        }
        proof {
            assert forall|k: usize| #[trigger] c0.contains_key(k) <==> gathered@.to_set().contains(k) by {
                if c0.contains_key(k) {
                    assert(self.located(k) is Some);
                    assert(self.live(self.located(k).unwrap().block_id as int));
                    assert(gathered@.contains(k));
                }
                if gathered@.to_set().contains(k) {
                    let q = choose|q: int| 0 <= q < gathered@.len() && gathered@[q] == k;
                    assert(gathered@[q] < n && self.best_at(gathered@[q]) is Some);
                }
            }
            assert(c0.dom() =~= gathered@.to_set());
        }
        let ghost all = gathered@;
        let sorted = self.sort_keys(gathered);
        proof {
            lemma_perm_no_repeats(all, sorted@);
            assert(sorted@.no_duplicates()) by {
                assert forall|i: int, j: int| 0 <= i < sorted@.len() && 0 <= j < sorted@.len() && i != j implies sorted@[i] != sorted@[j] by {
                    if i < j { } else { }
                }
            }
            sorted@.unique_seq_to_set();
            assert(sorted@.to_set() =~= all.to_set()) by {
                assert forall|k: usize| sorted@.to_set().contains(k) <==> all.to_set().contains(k) by {
                    assert(sorted@.contains(k) <==> all.contains(k));
                }
            }
            assert(c0.dom().len() == sorted@.len());
            assert forall|u: int| 0 <= u < sorted@.len() implies #[trigger] sorted@[u] < n && c0.contains_key(sorted@[u]) by {
                assert(all.contains(sorted@[u]));
                let q = choose|q: int| 0 <= q < all.len() && all[q] == sorted@[u];
                assert(all[q] < n && self.best_at(all[q]) is Some);
            }
        }
        let total = sorted.len();
        let mid = if self.max_pull < total { self.max_pull } else { total };
        let boundary: Bound<C> = if mid < total { Some(self.best_value(sorted[mid])) } else { None };
        let out = copy_range(&sorted, 0, mid);
        proof {
            assert(no_repeats(out@)) by {
                assert forall|i: int, j: int| 0 <= i < j < out@.len() implies out@[i] != out@[j] by {
                    assert(out@[i] == sorted@[i] && out@[j] == sorted@[j]);
                }
            }
            assert forall|i: int| 0 <= i < out@.len() implies #[trigger] out@[i] < n && c0.contains_key(out@[i]) by {
                assert(out@[i] == sorted@[i]);
            }
            // Pulled keys are the least; a key that stays is at `mid` or after.
            assert forall|x: usize, y: usize| out@.contains(x) && c0.contains_key(y) && !out@.contains(y)
                implies !label_less(c0[y], c0[x]) by {
                let a = choose|a: int| 0 <= a < out@.len() && out@[a] == x;
                assert(sorted@[a] == x);
                assert(sorted@.to_set().contains(y));
                let q = choose|q: int| 0 <= q < sorted@.len() && sorted@[q] == y;
                if q < mid {
                    assert(out@[q] == y);
                }
                assert(a < q);
                assert(!label_less(self.best_at(sorted@[q]).unwrap(), self.best_at(sorted@[a]).unwrap()));
            }
            if mid < total {
                let bl = boundary.unwrap();
                assert(bl == c0[sorted@[mid as int]]);
                assert(!out@.contains(sorted@[mid as int])) by {
                    if out@.contains(sorted@[mid as int]) {
                        let a = choose|a: int| 0 <= a < out@.len() && out@[a] == sorted@[mid as int];
                        assert(sorted@[a] == sorted@[mid as int]);
                    }
                }
                assert forall|y: usize| c0.contains_key(y) && !out@.contains(y) implies !label_less(c0[y], bl) by {
                    assert(sorted@.to_set().contains(y));
                    let q = choose|q: int| 0 <= q < sorted@.len() && sorted@[q] == y;
                    if q < mid {
                        assert(out@[q] == y);
                    }
                    if q > mid {
                        assert(!label_less(self.best_at(sorted@[q]).unwrap(), self.best_at(sorted@[mid as int]).unwrap()));
                    }
                }
                assert forall|i: int| 0 <= i < out@.len() implies !label_less(bl, #[trigger] c0[out@[i]]) by {
                    assert(out@[i] == sorted@[i]);
                    assert(!label_less(self.best_at(sorted@[mid as int]).unwrap(), self.best_at(sorted@[i]).unwrap()));
                }
            } else {
                assert forall|y: usize| c0.contains_key(y) implies out@.contains(y) by {
                    assert(sorted@.to_set().contains(y));
                    let q = choose|q: int| 0 <= q < sorted@.len() && sorted@[q] == y;
                    assert(out@[q] == y);
                }
            }
        }
        let mut w2: usize = 0;
        while w2 < out.len()
            invariant
                self.wf(n),
                self.synced(n),
                self.max_pull == old(self).max_pull,
                self.upper_bound == old(self).upper_bound,
                w2 <= out@.len(),
                forall|u: int| 0 <= u < out@.len() ==> #[trigger] out@[u] < n,
                self.contents(n) == c0.remove_keys(out@.take(w2 as int).to_set()),
            decreases out@.len() - w2,
        {
            self.remove_key(out[w2], Ghost(n));
            proof {
                assert(out@.take(w2 + 1) == out@.take(w2 as int).push(out@[w2 as int]));
                out@.take(w2 as int).lemma_push_to_set_commute(out@[w2 as int]);
                assert(self.contents(n) =~= c0.remove_keys(out@.take(w2 + 1).to_set()));
            }
            w2 = w2 + 1;
        }
        proof {
            assert(out@.take(out@.len() as int) =~= out@);
        }
        let bound = match boundary {
            Some(b) => Some(b),
            None => self.upper_bound,
        };
        (bound, out)
    }
}

/// The parameters of the recursion: `k` and `t` set the sizes of the pulls
/// and of the work of each level, `l` the number of levels.
struct Params {
    k: usize,
    t: usize,
    l: usize,
}

/// The state of the recursion: the labels of the nodes of the port graph, the
/// work space, the queues kept for reuse, and the steps it may still take.
/// `failed` records a step that could not be taken: the fuel ran out, or a
/// cost left the range of the weight type.
struct IndexedContext<C> {
    states: Vec<NodeState<C>>,
    scratch: Scratch,
    queue_pool: Vec<PartitionQueue<C>>,
    fuel: u64,
    failed: bool,
}

impl<C: Weight> IndexedContext<C> {
    /// Every label that the search holds is the cost of a path of `g` from
    /// `s` to its node.
    spec fn labels_real(&self, g: Seq<Seq<(usize, C)>>, s: usize) -> bool {
        forall|v: int| 0 <= v < self.states@.len() && (#[trigger] self.states@[v]).label is Some
            ==> has_path_cost(g, s, v as usize, self.states@[v].label.unwrap().cost.val())
    }

    /// Every node that had a label in `o` still has one, and none higher; every
    /// node that was complete in `o` still is.
    spec fn lowers(self, o: Self) -> bool {
        &&& self.states@.len() == o.states@.len()
        &&& o.failed ==> self.failed
        &&& forall|v: int| 0 <= v < o.states@.len() && (#[trigger] o.states@[v]).complete ==> self.states@[v].complete
        &&& forall|v: int| 0 <= v < o.states@.len() && (#[trigger] o.states@[v]).label is Some ==> {
            &&& self.states@[v].label is Some
            &&& self.states@[v].label == o.states@[v].label
                || !label_less(o.states@[v].label.unwrap(), self.states@[v].label.unwrap())
        }
    }

    /// Every node of `w` is one of `sources`, or has a label below `bound`.
    spec fn reached_below(&self, w: Seq<usize>, sources: Seq<usize>, bound: Bound<C>) -> bool {
        forall|i: int| 0 <= i < w.len() ==> sources.contains(#[trigger] w[i])
            || (w[i] < self.states@.len() && self.states@[w[i] as int].label is Some
                && below_bound(self.states@[w[i] as int].label.unwrap(), bound))
    }

    /// Every node of `s` has a label and is complete.
    spec fn settled(&self, s: Seq<usize>) -> bool {
        forall|i: int| 0 <= i < s.len() ==> #[trigger] s[i] < self.states@.len()
            && self.states@[s[i] as int].label is Some && self.states@[s[i] as int].complete
    }

    spec fn wf(&self, n: nat) -> bool {
        &&& self.states@.len() == n
        &&& self.scratch.wf(n)
        &&& forall|i: int| 0 <= i < n ==> (#[trigger] self.states@[i]).pred == usize::MAX || self.states@[i].pred < n
        &&& forall|i: int| 0 <= i < self.queue_pool@.len() ==> (#[trigger] self.queue_pool@[i]).wf(self.queue_pool@[i].best@.len() as nat)
    }

    fn new(n: usize, start: usize, start_label: Label<C>, Ghost(g): Ghost<Seq<Seq<(usize, C)>>>) -> (r: Self)
        requires
            start < n,
            g.len() == n,
            start_label.cost.val() == 0,
        ensures
            r.wf(n as nat),
            r.labels_real(g, start),
    {
        let mut states: Vec<NodeState<C>> = Vec::new();
        let mut i: usize = 0;
        while i < n
            invariant
                i <= n,
                states@.len() == i,
                forall|j: int| 0 <= j < i ==> (#[trigger] states@[j]).pred == usize::MAX,
                forall|j: int| 0 <= j < i ==> (#[trigger] states@[j]).label is None,
            decreases n - i,
        {
            states.push(NodeState { label: None, pred: usize::MAX, complete: false });
            i = i + 1;
        }
        states.set(start, NodeState { label: Some(start_label), pred: usize::MAX, complete: true });
        proof {
            assert(is_wpath(g, seq![start], Seq::<int>::empty(), start, start));
            assert(walk_cost(g, seq![start], Seq::<int>::empty()) == 0);
        }
        let r = IndexedContext { states, scratch: Scratch::new(n), queue_pool: Vec::new(), fuel: u64::MAX, failed: false };
        proof {
            assert forall|v: int| 0 <= v < r.states@.len() && (#[trigger] r.states@[v]).label is Some
                implies has_path_cost(g, start, v as usize, r.states@[v].label.unwrap().cost.val()) by {
                assert(v == start as int);
            }
        }
        r
    }

    /// Spend one step; `false` once no step is left.
    fn step(&mut self) -> (ok: bool)
        ensures
            final(self).states == old(self).states,
            final(self).scratch == old(self).scratch,
            final(self).queue_pool == old(self).queue_pool,
            ok == (old(self).fuel > 0),
            ok ==> final(self).fuel == old(self).fuel - 1 && final(self).failed == old(self).failed,
            !ok ==> final(self).fuel == old(self).fuel && final(self).failed,
    {
        if self.fuel == 0 {
            self.failed = true;
            false
        } else {
            self.fuel = self.fuel - 1;
            true
        }
    }

    /// A queue with the given batch size and bound, reused where one is kept.
    fn take_queue(&mut self, max_pull: usize, upper_bound: Bound<C>, Ghost(n): Ghost<nat>) -> (q: PartitionQueue<C>)
        requires
            old(self).wf(n),
        ensures
            final(self).wf(n),
            final(self).states == old(self).states,
            final(self).scratch == old(self).scratch,
            final(self).fuel == old(self).fuel,
            final(self).failed == old(self).failed,
            q.wf(n),
            q.synced(n),
            q.contents(n) == Map::<usize, Label<C>>::empty(),
            q.upper_bound == upper_bound,
            q.max_pull == pull_size(max_pull),
    {
        let node_count = self.states.len();
        let ghost pool = self.queue_pool@;
        match self.queue_pool.pop() {
            Some(mut queue) => {
                proof {
                    assert(queue == pool[pool.len() - 1]);
                    assert forall|i: int| 0 <= i < self.queue_pool@.len() implies (#[trigger] self.queue_pool@[i]).wf(self.queue_pool@[i].best@.len() as nat) by {
                        assert(self.queue_pool@[i] == pool[i]);
                    }
                }
                queue.reset(max_pull, upper_bound, node_count);
                queue
            },
            None => PartitionQueue::new(max_pull, upper_bound, node_count),
        }
    }

    /// Keep a queue for reuse.
    fn recycle_queue(&mut self, queue: PartitionQueue<C>, Ghost(n): Ghost<nat>)
        requires
            old(self).wf(n),
            queue.wf(n),
        ensures
            final(self).wf(n),
            final(self).states == old(self).states,
            final(self).scratch == old(self).scratch,
            final(self).fuel == old(self).fuel,
            final(self).failed == old(self).failed,
            final(self).queue_pool@ == old(self).queue_pool@.push(queue),
    {
        let ghost pool = self.queue_pool@;
        self.queue_pool.push(queue);
        proof {
            assert forall|i: int| 0 <= i < self.queue_pool@.len() implies (#[trigger] self.queue_pool@[i]).wf(self.queue_pool@[i].best@.len() as nat) by {
                if i < pool.len() {
                    assert(self.queue_pool@[i] == pool[i]);
                }
            }
        }
    }
}

/// The product, or the greatest `usize` where it does not fit.
fn sat_mul(a: usize, b: usize) -> (r: usize)
    ensures
        r == if a * b > usize::MAX { usize::MAX as int } else { a * b },
{
    match a.checked_mul(b) {
        Some(x) => x,
        None => usize::MAX,
    }
}

/// `2^exp`, or the greatest `usize` where it does not fit.
fn pow2_sat(exp: usize) -> (r: usize)
    ensures
        r == if pow2(exp as nat) > usize::MAX { usize::MAX as int } else { pow2(exp as nat) as int },
{
    let mut r: usize = 1;
    let mut i: usize = 0;
    proof { lemma2_to64(); }
    while i < exp
        invariant
            i <= exp,
            r == pow2(i as nat),
        decreases exp - i,
    {
        proof { lemma_pow2_unfold((i + 1) as nat); }
        if r > usize::MAX / 2 {
            proof {
                lemma_pow2_mono((i + 1) as nat, exp as nat);
            }
            return usize::MAX;
        }
        r = r * 2;
        i = i + 1;
    }
    r
}

/// `2^e` grows with `e`.
proof fn lemma_pow2_mono(a: nat, b: nat)
    requires
        a <= b,
    ensures
        pow2(a) <= pow2(b),
    decreases b - a,
{
    if a < b {
        lemma_pow2_mono(a, (b - 1) as nat);
        lemma_pow2_unfold(b);
    }
}

/// The least `e` with `2^e >= n`.
fn log2_ceil(n: usize) -> (e: usize)
    ensures
        e <= 65,
        pow2(e as nat) >= n,
        e > 0 ==> pow2((e - 1) as nat) < n,
{
    let mut e: usize = 0;
    let mut p: usize = 1;
    proof { lemma2_to64(); }
    while p < n
        invariant
            e <= 64,
            p == pow2(e as nat),
            e > 0 ==> pow2((e - 1) as nat) < n,
        decreases 64 - e,
    {
        proof { lemma_pow2_unfold((e + 1) as nat); }
        if p > usize::MAX / 2 || e >= 64 {
            proof {
                if e >= 64 {
                    lemma2_to64();
                    assert(pow2(64) == 0x10000000000000000);
                    assert(false);
                }
            }
            return e + 1;
        }
        p = p * 2;
        e = e + 1;
    }
    e
}

/// The greatest `x` with `x^3 <= n`.
fn cube_root_floor(n: usize) -> (x: usize)
    requires
        n < usize::MAX,
    ensures
        x * x * x <= n < (x + 1) * (x + 1) * (x + 1),
{
    let mut x: usize = 0;
    while x < n
        invariant
            x <= n,
            x * x * x <= n,
            n < usize::MAX,
        decreases n - x,
    {
        let next = x + 1;
        let sq = sat_mul(next, next);
        let cube = sat_mul(sq, next);
        if cube > n {
            proof {
                if next * next > usize::MAX {
                    assert(next * next <= next * next * next) by (nonlinear_arith)
                        requires next >= 1;
                } else {
                    assert(sq == next * next);
                }
            }
            return x;
        }
        proof {
            if next * next > usize::MAX {
                assert(next >= 2) by (nonlinear_arith)
                    requires next >= 1, next * next > usize::MAX, usize::MAX >= 1;
                assert(sq * next > usize::MAX) by (nonlinear_arith)
                    requires sq == usize::MAX, next >= 2, usize::MAX >= 1;
            } else {
                assert(sq == next * next);
            }
        }
        x = next;
    }
    proof {
        assert((x + 1) * (x + 1) * (x + 1) > x) by (nonlinear_arith)
            requires x >= 0;
    }
    x
}

/// The sum of a cost and a weight that is not negative, where it fits in the
/// weight type.
fn checked_plus<C: Weight>(a: C, b: C) -> (r: Option<C>)
    ensures
        r matches Some(x) ==> x.val() == a.val() + b.val(),
        r is Some <==> (0 <= b.val() && a.val() + b.val() <= C::hi()),
{
    proof {
        C::lemma_range(a);
        C::lemma_range(b);
    }
    if C::zero().le(&b) {
        let room = C::max_value().minus(b);
        if a.le(&room) {
            Some(a.plus(b))
        } else {
            None
        }
    } else {
        None
    }
}

/// The label of `v` reached from `u` along an edge of weight `w`; `None` where
/// `u` has no label or the cost does not fit in the weight type.
fn label_add<C: Weight>(ctx: &mut IndexedContext<C>, u: usize, v: usize, w: C) -> (r: Option<Label<C>>)
    requires
        u < old(ctx).states@.len(),
    ensures
        final(ctx).states == old(ctx).states,
        final(ctx).scratch == old(ctx).scratch,
        final(ctx).queue_pool == old(ctx).queue_pool,
        final(ctx).fuel == old(ctx).fuel,
        r matches Some(l) ==> l.pred == u && l.node == v,
        r matches Some(l) ==> (old(ctx).states@[u as int].label matches Some(lu) && l.cost.val() == lu.cost.val() + w.val()
            && l.hops == lu.hops + 1),
        old(ctx).states@[u as int].label matches Some(lu) && 0 <= w.val() && lu.cost.val() + w.val() <= C::hi()
            && lu.hops < usize::MAX ==> r is Some,
        old(ctx).failed ==> final(ctx).failed,
{
    match ctx.states[u].label {
        None => None,
        Some(lu) => {
            let c = checked_plus(lu.cost, w);
            if c.is_none() || lu.hops == usize::MAX {
                ctx.failed = true;
                None
            } else {
                Some(Label { cost: c.unwrap(), hops: lu.hops + 1, node: v, pred: u })
            }
        },
    }
}

/// A path to `u` followed by an edge of `u` is a path to its target, at the
/// cost of the path plus the edge's weight.
proof fn lemma_relax_real<C: Weight>(g: Seq<Seq<(usize, C)>>, s: usize, u: usize, k: int, cu: int, cv: int)
    requires
        wf(g),
        u < g.len(),
        0 <= k < g[u as int].len(),
        has_path_cost(g, s, u, cu),
        cv == cu + g[u as int][k].1.val(),
    ensures
        has_path_cost(g, s, g[u as int][k].0, cv),
{
    let (p, e) = choose|p: Seq<usize>, e: Seq<int>| #[trigger] is_wpath(g, p, e, s, u) && walk_cost(g, p, e) == cu;
    lemma_wpath_push(g, p, e, s, u, k);
}

/// Give `v` the candidate label unless it has a smaller one.
fn try_relax<C: Weight>(
    ctx: &mut IndexedContext<C>,
    v: usize,
    candidate: Label<C>,
    Ghost(n): Ghost<nat>,
    Ghost(g): Ghost<Seq<Seq<(usize, C)>>>,
    Ghost(s): Ghost<usize>,
) -> (improved: bool)
    requires
        old(ctx).wf(n),
        v < n,
        candidate.pred < n,
        old(ctx).labels_real(g, s),
        has_path_cost(g, s, v, candidate.cost.val()),
    ensures
        final(ctx).wf(n),
        final(ctx).labels_real(g, s),
        final(ctx).lowers(*old(ctx)),
        final(ctx).fuel == old(ctx).fuel,
        final(ctx).scratch == old(ctx).scratch,
        improved == (old(ctx).states@[v as int].label matches Some(cur) ==> !label_less(cur, candidate)),
        improved ==> final(ctx).states@ == old(ctx).states@.update(
            v as int,
            NodeState { label: Some(candidate), pred: candidate.pred, complete: old(ctx).states@[v as int].complete },
        ),
        !improved ==> final(ctx).states == old(ctx).states,
{
    let improve = match ctx.states[v].label {
        None => true,
        Some(cur) => !label_lt(&cur, &candidate),
    };
    if improve {
        let complete = ctx.states[v].complete;
        ctx.states.set(v, NodeState { label: Some(candidate), pred: candidate.pred, complete });
    }
    improve
}

/// Marking a node that was unmarked and pushing it keeps the marks in step
/// with the list.
proof fn lemma_marked_push(marks: Seq<u32>, w0: Seq<usize>, v: usize, e: u32, n: nat)
    requires
        v < n,
        marks.len() == n,
        forall|x: usize| x < n && x != v ==> (#[trigger] marks[x as int] == e <==> w0.contains(x)),
        marks[v as int] == e,
        !w0.contains(v),
        no_repeats(w0),
    ensures
        forall|x: usize| x < n ==> (#[trigger] marks[x as int] == e <==> w0.push(v).contains(x)),
        no_repeats(w0.push(v)),
{
    assert forall|i: int, j: int| 0 <= i < j < w0.push(v).len() implies w0.push(v)[i] != w0.push(v)[j] by {
        if j == w0.len() {
            assert(w0.push(v)[i] == w0[i]);
            assert(w0.contains(w0[i]));
        }
    }
    assert forall|x: usize| x < n implies (#[trigger] marks[x as int] == e <==> w0.push(v).contains(x)) by {
        if x == v {
            assert(w0.push(v)[w0.len() as int] == v);
        } else {
            if w0.contains(x) {
                let q = choose|q: int| 0 <= q < w0.len() && w0[q] == x;
                assert(w0.push(v)[q] == x);
            }
            if w0.push(v).contains(x) {
                let q = choose|q: int| 0 <= q < w0.len() + 1 && w0.push(v)[q] == x;
                assert(q != w0.len());
                assert(w0[q] == x);
            }
        }
    }
}

/// A label no larger than one below a bound is below it too.
proof fn lemma_label_below_trans<C: Weight>(c: Label<C>, a: Label<C>, b: Bound<C>)
    requires
        c == a || !label_less(a, c),
        below_bound(a, b),
    ensures
        below_bound(c, b),
{
}

/// Nodes that were settled stay settled.
proof fn lemma_settled_kept<C: Weight>(a: IndexedContext<C>, b: IndexedContext<C>, s: Seq<usize>)
    requires
        b.lowers(a),
        a.settled(s),
    ensures
        b.settled(s),
{
    assert forall|i: int| 0 <= i < s.len() implies #[trigger] s[i] < b.states@.len()
        && b.states@[s[i] as int].label is Some && b.states@[s[i] as int].complete by {
        assert(a.states@[s[i] as int].label is Some);
    }
}

/// The bound is no higher than `hi`.
spec fn at_most<C: Weight>(b: Bound<C>, hi: Bound<C>) -> bool {
    match hi {
        None => true,
        Some(h) => b is Some && !label_less(h, b.unwrap()),
    }
}

/// Every item of the sequence is a node below `n`.
spec fn nodes_below(s: Seq<usize>, n: nat) -> bool {
    forall|i: int| 0 <= i < s.len() ==> #[trigger] s[i] < n
}

/// `c` is the label that edge `e` of `u` offers its end from the label `ls`
/// of `u`.
spec fn cand_of<C: Weight>(ls: Label<C>, g: Seq<Seq<(usize, C)>>, u: usize, e: int, c: Label<C>) -> bool {
    &&& c.cost.val() == ls.cost.val() + g[u as int][e].1.val()
    &&& c.hops == ls.hops + 1
    &&& c.node == g[u as int][e].0
    &&& c.pred == u
}

/// Edge `e` of `u` has been relaxed, from the label `u` had in `o` and still
/// has in `x`: where that label offers the end a label below `bound`, the end
/// is in `w` or holds a smaller label.
spec fn edge_relaxed<C: Weight>(o: Seq<NodeState<C>>, x: Seq<NodeState<C>>, w: Seq<usize>, g: Seq<Seq<(usize, C)>>,
    bound: Bound<C>, u: usize, e: int) -> bool {
    forall|c: Label<C>| #[trigger] cand_of(o[u as int].label.unwrap(), g, u, e, c)
        && o[u as int].label is Some && x[u as int].label == o[u as int].label
        && g[u as int][e].1.val() >= 0
        && o[u as int].label.unwrap().cost.val() + g[u as int][e].1.val() <= C::hi()
        && o[u as int].label.unwrap().hops < usize::MAX
        && below_bound(c, bound)
        ==> w.contains(g[u as int][e].0) || (x[g[u as int][e].0 as int].label is Some
            && label_less(x[g[u as int][e].0 as int].label.unwrap(), c))
}

/// A label that is the same before and after two steps that only lower
/// labels was the same in between.
proof fn lemma_squeeze<C: Weight>(o: IndexedContext<C>, x: IndexedContext<C>, x2: IndexedContext<C>, u: usize)
    requires
        x.lowers(o),
        x2.lowers(x),
        u < o.states@.len(),
        o.states@[u as int].label is Some,
        x2.states@[u as int].label == o.states@[u as int].label,
    ensures
        x.states@[u as int].label == o.states@[u as int].label,
{
    let ls = o.states@[u as int].label.unwrap();
    let xl = x.states@[u as int].label.unwrap();
    lemma_label_order(xl, ls, ls);
}

/// A relaxed edge stays relaxed as labels fall and `w` grows.
proof fn lemma_relaxed_kept<C: Weight>(o: IndexedContext<C>, x: IndexedContext<C>, x2: IndexedContext<C>,
    w: Seq<usize>, w2: Seq<usize>, g: Seq<Seq<(usize, C)>>, bound: Bound<C>, u: usize, e: int)
    requires
        x.lowers(o),
        x2.lowers(x),
        u < o.states@.len(),
        0 <= e < g[u as int].len(),
        g[u as int][e].0 < o.states@.len(),
        forall|y: usize| w.contains(y) ==> w2.contains(y),
        edge_relaxed(o.states@, x.states@, w, g, bound, u, e),
    ensures
        edge_relaxed(o.states@, x2.states@, w2, g, bound, u, e),
{
    let v = g[u as int][e].0;
    assert forall|c: Label<C>| #[trigger] cand_of(o.states@[u as int].label.unwrap(), g, u, e, c)
        && o.states@[u as int].label is Some && x2.states@[u as int].label == o.states@[u as int].label
        && g[u as int][e].1.val() >= 0
        && o.states@[u as int].label.unwrap().cost.val() + g[u as int][e].1.val() <= C::hi()
        && o.states@[u as int].label.unwrap().hops < usize::MAX
        && below_bound(c, bound)
        implies w2.contains(v) || (x2.states@[v as int].label is Some && label_less(x2.states@[v as int].label.unwrap(), c)) by {
        lemma_squeeze(o, x, x2, u);
        if !w.contains(v) {
            let xv = x.states@[v as int].label.unwrap();
            let x2v = x2.states@[v as int].label.unwrap();
            lemma_label_order(x2v, xv, c);
        }
    }
}

/// Relax edges from the sources for `k` rounds to find the nodes `W` that are
/// complete or will be through the sources, and pick as pivots the sources
/// whose trees of predecessors within `W` hold at least `k` nodes; where `W`
/// grows past `k` times the number of sources, every source is a pivot.
fn find_pivots<C: Weight>(
    ctx: &mut IndexedContext<C>,
    bound: Bound<C>,
    sources: &Vec<usize>,
    params: &Params,
    graph: &[Vec<(usize, C)>],
    Ghost(start): Ghost<usize>,
) -> (r: (Vec<usize>, Vec<usize>))
    requires
        wf(adj(graph@)),
        old(ctx).wf(graph@.len() as nat),
        old(ctx).labels_real(adj(graph@), start),
        nodes_below(sources@, graph@.len() as nat),
    ensures
        final(ctx).wf(graph@.len() as nat),
        final(ctx).labels_real(adj(graph@), start),
        final(ctx).lowers(*old(ctx)),
        final(ctx).fuel <= old(ctx).fuel,
        nodes_below(r.0@, graph@.len() as nat),
        forall|i: int| 0 <= i < r.0@.len() ==> sources@.contains(#[trigger] r.0@[i]),
        nodes_below(r.1@, graph@.len() as nat),
        covers(r.1@, sources@),
        no_repeats(r.1@),
        final(ctx).reached_below(r.1@, sources@, bound),
        params.k >= 1 ==> forall|i: int, e: int| 0 <= i < sources@.len() && 0 <= e < graph@[sources@[i] as int]@.len()
            ==> #[trigger] edge_relaxed(old(ctx).states@, final(ctx).states@, r.1@, adj(graph@), bound, sources@[i], e),
        params.k >= 1 && r.1@.len() > pivot_limit(params.k, sources@.len() as int) ==> r.0@ == sources@,
        no_repeats(sources@) ==> no_repeats(r.0@),
{
    let ghost n = graph@.len() as nat;
    let ghost g = adj(graph@);
    let in_w_epoch = ctx.scratch.in_w.next_epoch();
    let mut w: Vec<usize> = Vec::new();
    let mut frontier: Vec<usize> = Vec::new();
    let mut i: usize = 0;
    while i < sources.len()
        invariant
            ctx.wf(n),
            ctx.labels_real(adj(graph@), start),
            ctx.lowers(*old(ctx)),
            n == graph@.len(),
            nodes_below(sources@, n),
            nodes_below(w@, n),
            nodes_below(frontier@, n),
            ctx.fuel == old(ctx).fuel,
            i <= sources@.len(),
            frontier@ == w@,
            ctx.states == old(ctx).states,
            ctx.scratch.in_w.epoch == in_w_epoch,
            forall|x: usize| x < n ==> (#[trigger] ctx.scratch.in_w.marks@[x as int] == in_w_epoch <==> w@.contains(x)),
            ctx.reached_below(w@, sources@, bound),
            no_repeats(w@),
            forall|j: int| 0 <= j < i ==> w@.contains(#[trigger] sources@[j]),
        decreases sources@.len() - i,
    {
        let s = sources[i];
        let ghost w0 = w@;
        if !ctx.scratch.in_w.is_marked(s, in_w_epoch) {
            ctx.scratch.in_w.mark(s, in_w_epoch);
            w.push(s);
            frontier.push(s);
            proof {
                lemma_marked_push(ctx.scratch.in_w.marks@, w0, s, in_w_epoch, n);
                assert(w@[w0.len() as int] == s);
            }
        } else {
            proof {
                assert(ctx.scratch.in_w.marks@[s as int] == in_w_epoch);
            }
        }
        proof {
            assert(w@.contains(s));
            assert forall|j: int| 0 <= j < i + 1 implies w@.contains(#[trigger] sources@[j]) by {
                if j < i {
                    assert(w0.contains(sources@[j]));
                    let q = choose|q: int| 0 <= q < w0.len() && w0[q] == sources@[j];
                    assert(w@[q] == w0[q]);
                }
            }
            assert forall|q: int| 0 <= q < w@.len() implies sources@.contains(#[trigger] w@[q])
                || (w@[q] < ctx.states@.len() && ctx.states@[w@[q] as int].label is Some
                    && below_bound(ctx.states@[w@[q] as int].label.unwrap(), bound)) by {
                if q < w0.len() {
                    assert(w@[q] == w0[q]);
                } else {
                    assert(sources@[i as int] == s);
                }
            }
        }
        i = i + 1;
    }
    let ghost w_first = w@;
    let ghost ctx_old = *old(ctx);
    let ghost s_old = ctx_old.states@;
    let ghost mut done0 = false;
    let mut round: usize = 0;
    while round < params.k
        invariant
            round > 0 ==> done0,
            ctx_old == *old(ctx),
            !done0 ==> frontier@ == w_first && round == 0,
            done0 ==> forall|i: int, e: int| 0 <= i < w_first.len() && 0 <= e < g[w_first[i] as int].len()
                ==> #[trigger] edge_relaxed(s_old, ctx.states@, w@, g, bound, w_first[i], e),
            ctx.lowers(ctx_old),
            s_old == ctx_old.states@,
            nodes_below(w_first, n),
            covers(w_first, sources@),
            forall|y: usize| w_first.contains(y) ==> w@.contains(y),

            ctx.wf(n),
            ctx.labels_real(adj(graph@), start),
            ctx.lowers(*old(ctx)),
            n == graph@.len(),
            g == adj(graph@),
            wf(g),
            nodes_below(sources@, n),
            nodes_below(w@, n),
            nodes_below(frontier@, n),
            ctx.fuel == old(ctx).fuel,
            ctx.scratch.in_w.epoch == in_w_epoch,
            forall|x: usize| x < n ==> (#[trigger] ctx.scratch.in_w.marks@[x as int] == in_w_epoch <==> w@.contains(x)),
            ctx.reached_below(w@, sources@, bound),
            no_repeats(w@),
            covers(w@, sources@),
            round > 0 ==> w@.len() <= pivot_limit(params.k, sources@.len() as int),
        ensures
            params.k >= 1 ==> done0,
            params.k >= 1 ==> w@.len() <= pivot_limit(params.k, sources@.len() as int),
        decreases params.k - round,
    {
        let mut next: Vec<usize> = Vec::new();
        let mut f: usize = 0;
        while f < frontier.len()
            invariant
                ctx.wf(n),
                ctx.labels_real(adj(graph@), start),
                ctx.lowers(*old(ctx)),
                n == graph@.len(),
                g == adj(graph@),
                wf(g),
                nodes_below(w@, n),
                nodes_below(frontier@, n),
                nodes_below(next@, n),
                ctx.fuel == old(ctx).fuel,
                f <= frontier@.len(),
                round > 0 ==> done0,
                done0 ==> forall|i: int, e: int| 0 <= i < w_first.len() && 0 <= e < g[w_first[i] as int].len()
                    ==> #[trigger] edge_relaxed(s_old, ctx.states@, w@, g, bound, w_first[i], e),
                !done0 ==> frontier@ == w_first && round == 0,
                !done0 ==> forall|i: int, e: int| 0 <= i < f && 0 <= e < g[w_first[i] as int].len()
                    ==> #[trigger] edge_relaxed(s_old, ctx.states@, w@, g, bound, w_first[i], e),
                ctx.lowers(ctx_old),
                s_old == ctx_old.states@,
                nodes_below(w_first, n),
                forall|y: usize| w_first.contains(y) ==> w@.contains(y),
                ctx.scratch.in_w.epoch == in_w_epoch,
                forall|x: usize| x < n ==> (#[trigger] ctx.scratch.in_w.marks@[x as int] == in_w_epoch <==> w@.contains(x)),
                ctx.reached_below(w@, sources@, bound),
            no_repeats(w@),
                covers(w@, sources@),
            decreases frontier@.len() - f,
        {
            let u = frontier[f];
            let edges = &graph[u];
            proof { assert(edges@ == g[u as int]); }
            let mut k: usize = 0;
            while k < edges.len()
                invariant
                    ctx.wf(n),
                    ctx.labels_real(adj(graph@), start),
                    ctx.lowers(*old(ctx)),
                    n == graph@.len(),
                    g == adj(graph@),
                    wf(g),
                    u < n,
                    edges@ == g[u as int],
                    k <= edges@.len(),
                    done0 ==> forall|i: int, e: int| 0 <= i < w_first.len() && 0 <= e < g[w_first[i] as int].len()
                        ==> #[trigger] edge_relaxed(s_old, ctx.states@, w@, g, bound, w_first[i], e),
                    !done0 ==> frontier@ == w_first && round == 0 && u == w_first[f as int] && f < w_first.len(),
                    !done0 ==> forall|i: int, e: int| 0 <= i < f && 0 <= e < g[w_first[i] as int].len()
                        ==> #[trigger] edge_relaxed(s_old, ctx.states@, w@, g, bound, w_first[i], e),
                    !done0 ==> forall|e: int| 0 <= e < k
                        ==> #[trigger] edge_relaxed(s_old, ctx.states@, w@, g, bound, u, e),
                    ctx.lowers(ctx_old),
                    s_old == ctx_old.states@,
                    nodes_below(w_first, n),
                    forall|y: usize| w_first.contains(y) ==> w@.contains(y),
                    nodes_below(w@, n),
                    nodes_below(next@, n),
                    ctx.fuel == old(ctx).fuel,
                    ctx.scratch.in_w.epoch == in_w_epoch,
                    forall|x: usize| x < n ==> (#[trigger] ctx.scratch.in_w.marks@[x as int] == in_w_epoch <==> w@.contains(x)),
                    ctx.reached_below(w@, sources@, bound),
            no_repeats(w@),
                    covers(w@, sources@),
                decreases edges@.len() - k,
            {
                let (v, weight) = edges[k];
                proof { assert(g[u as int][k as int] == (v, weight)); }
                let ghost ctx0 = *ctx;
                let ghost w0 = w@;
                match label_add(ctx, u, v, weight) {
                    Some(candidate) => {
                        proof {
                            let lu = ctx.states@[u as int].label.unwrap();
                            lemma_relax_real(g, start, u, k as int, lu.cost.val(), candidate.cost.val());
                        }
                        let ghost ctx1 = *ctx;
                        let below = bound_lt(&candidate, &bound);
                        let improved = if below { try_relax(ctx, v, candidate, Ghost(n), Ghost(adj(graph@)), Ghost(start)) } else { false };
                        let ghost ctx2 = *ctx;
                        if below && improved {
                            if !ctx.scratch.in_w.is_marked(v, in_w_epoch) {
                                ctx.scratch.in_w.mark(v, in_w_epoch);
                                w.push(v);
                                next.push(v);
                                proof {
                                    lemma_marked_push(ctx.scratch.in_w.marks@, w0, v, in_w_epoch, n);
                                    assert(w@[w0.len() as int] == v);
                                }
                            } else {
                                proof { assert(w0.contains(v)); }
                            }
                        }
                        proof {
                            assert(ctx.states == ctx2.states);
                            assert(w@.contains(v) || !(below && improved));
                            assert forall|c: Label<C>| #[trigger] cand_of(s_old[u as int].label.unwrap(), g, u, k as int, c)
                                && s_old[u as int].label is Some && ctx.states@[u as int].label == s_old[u as int].label
                                && g[u as int][k as int].1.val() >= 0
                                && s_old[u as int].label.unwrap().cost.val() + g[u as int][k as int].1.val() <= C::hi()
                                && s_old[u as int].label.unwrap().hops < usize::MAX
                                && below_bound(c, bound)
                                implies w@.contains(v) || (ctx.states@[v as int].label is Some
                                    && label_less(ctx.states@[v as int].label.unwrap(), c)) by {
                                assert(ctx.lowers(ctx0));
                                lemma_squeeze(ctx_old, ctx0, *ctx, u);
                                C::lemma_injective(candidate.cost, c.cost);
                                assert(candidate == c);
                            }
                            assert(edge_relaxed(s_old, ctx.states@, w@, g, bound, u, k as int));
                        }
                    },
                    None => {
                        proof {
                            assert forall|c: Label<C>| #[trigger] cand_of(s_old[u as int].label.unwrap(), g, u, k as int, c)
                                && s_old[u as int].label is Some && ctx.states@[u as int].label == s_old[u as int].label
                                && g[u as int][k as int].1.val() >= 0
                                && s_old[u as int].label.unwrap().cost.val() + g[u as int][k as int].1.val() <= C::hi()
                                && s_old[u as int].label.unwrap().hops < usize::MAX
                                && below_bound(c, bound)
                                implies w@.contains(v) || (ctx.states@[v as int].label is Some
                                    && label_less(ctx.states@[v as int].label.unwrap(), c)) by {
                                assert(false);
                            }
                            assert(edge_relaxed(s_old, ctx.states@, w@, g, bound, u, k as int));
                        }
                    },
                }
                proof {
                    assert forall|q: int| 0 <= q < w@.len() implies sources@.contains(#[trigger] w@[q])
                        || (w@[q] < ctx.states@.len() && ctx.states@[w@[q] as int].label is Some
                            && below_bound(ctx.states@[w@[q] as int].label.unwrap(), bound)) by {
                        if q < w0.len() {
                            assert(w@[q] == w0[q]);
                            if !sources@.contains(w0[q]) {
                                let x = w0[q] as int;
                                assert(ctx0.states@[x].label is Some);
                                let a = ctx0.states@[x].label.unwrap();
                                let c = ctx.states@[x].label.unwrap();
                                lemma_label_below_trans(c, a, bound);
                            }
                        }
                    }
                    assert forall|j: int| 0 <= j < sources@.len() implies w@.contains(#[trigger] sources@[j]) by {
                        assert(w0.contains(sources@[j]));
                        let q = choose|q: int| 0 <= q < w0.len() && w0[q] == sources@[j];
                        assert(w@[q] == w0[q]);
                    }
                    assert forall|y: usize| w0.contains(y) implies w@.contains(y) by {
                        let q = choose|q: int| 0 <= q < w0.len() && w0[q] == y;
                        assert(w@[q] == w0[q]);
                    }
                    assert(ctx.lowers(ctx0));
                    assert forall|i: int, e: int| 0 <= i < w_first.len() && 0 <= e < g[w_first[i] as int].len()
                        && (done0 || i < f) implies #[trigger] edge_relaxed(s_old, ctx.states@, w@, g, bound, w_first[i], e) by {
                        lemma_relaxed_kept(ctx_old, ctx0, *ctx, w0, w@, g, bound, w_first[i], e);
                    }
                    if !done0 {
                        assert forall|e: int| 0 <= e < k + 1 implies #[trigger] edge_relaxed(s_old, ctx.states@, w@, g, bound, u, e) by {
                            if e < k {
                                lemma_relaxed_kept(ctx_old, ctx0, *ctx, w0, w@, g, bound, u, e);
                            }
                        }
                    }
                }
                k = k + 1;
            }
            proof {
                if !done0 {
                    assert forall|i: int, e: int| 0 <= i < f + 1 && 0 <= e < g[w_first[i] as int].len()
                        implies #[trigger] edge_relaxed(s_old, ctx.states@, w@, g, bound, w_first[i], e) by {
                        if i == f {
                            assert(edge_relaxed(s_old, ctx.states@, w@, g, bound, u, e));
                        }
                    }
                }
            }
            f = f + 1;
        }
        proof {
            assert forall|i: int, e: int| 0 <= i < w_first.len() && 0 <= e < g[w_first[i] as int].len()
                implies #[trigger] edge_relaxed(s_old, ctx.states@, w@, g, bound, w_first[i], e) by {
                if !done0 {
                    assert(f == w_first.len());
                }
            }
            done0 = true;
        }
        frontier = next;
        let many = if sources.len() > 1 { sources.len() } else { 1 };
        if w.len() > sat_mul(params.k, many) {
            let mut all: Vec<usize> = Vec::new();
            let mut j: usize = 0;
            while j < sources.len()
                invariant
                    j <= sources@.len(),
                    nodes_below(sources@, n),
                    nodes_below(all@, n),
                    all@ == sources@.take(j as int),
                decreases sources@.len() - j,
            {
                all.push(sources[j]);
                proof { assert(sources@.take(j + 1) == sources@.take(j as int).push(sources@[j as int])); }
                j = j + 1;
            }
            proof { assert(sources@.take(sources@.len() as int) =~= sources@); }
            proof {
                assert forall|i: int, e: int| 0 <= i < sources@.len() && 0 <= e < graph@[sources@[i] as int]@.len()
                    implies #[trigger] edge_relaxed(old(ctx).states@, ctx.states@, w@, adj(graph@), bound, sources@[i], e) by {
                    assert(w_first.contains(sources@[i]));
                    let q = choose|q: int| 0 <= q < w_first.len() && w_first[q] == sources@[i];
                    assert(graph@[sources@[i] as int]@.len() == g[w_first[q] as int].len());
                    assert(edge_relaxed(s_old, ctx.states@, w@, g, bound, w_first[q], e));
                }
            }
            return (all, w);
        }
        if frontier.len() == 0 {
            break;
        }
        round = round + 1;
    }
    let ghost st_end = ctx.states@;
    proof {
        assert forall|i: int, e: int| params.k >= 1 && 0 <= i < sources@.len() && 0 <= e < graph@[sources@[i] as int]@.len()
            implies #[trigger] edge_relaxed(old(ctx).states@, st_end, w@, adj(graph@), bound, sources@[i], e) by {
            assert(w_first.contains(sources@[i]));
            let q = choose|q: int| 0 <= q < w_first.len() && w_first[q] == sources@[i];
            assert(graph@[sources@[i] as int]@.len() == g[w_first[q] as int].len());
            assert(edge_relaxed(s_old, ctx.states@, w@, g, bound, w_first[q], e));
        }
    }
    // The forest of predecessors within W.
    let mut j: usize = 0;
    while j < w.len()
        invariant
            ctx.wf(n),
            ctx.labels_real(adj(graph@), start),
            ctx.lowers(*old(ctx)),
            n == graph@.len(),
            nodes_below(w@, n),
            ctx.fuel == old(ctx).fuel,
            j <= w@.len(),
            covers(w@, sources@),
            ctx.reached_below(w@, sources@, bound),
            ctx.states@ == st_end,
            no_repeats(w@),
        decreases w@.len() - j,
    {
        let v = w[j];
        ctx.scratch.children[v].clear();
        ctx.scratch.parent_in_w.set(v, usize::MAX);
        ctx.scratch.subtree_size.set(v, 0);
        proof {
            assert forall|x: int, k: int| 0 <= x < n && 0 <= k < ctx.scratch.children@[x]@.len() implies #[trigger] ctx.scratch.children@[x]@[k] < n by {}
        }
        j = j + 1;
    }
    let mut j2: usize = 0;
    while j2 < w.len()
        invariant
            ctx.wf(n),
            ctx.labels_real(adj(graph@), start),
            ctx.lowers(*old(ctx)),
            n == graph@.len(),
            nodes_below(w@, n),
            ctx.fuel == old(ctx).fuel,
            j2 <= w@.len(),
            covers(w@, sources@),
            ctx.reached_below(w@, sources@, bound),
            ctx.states@ == st_end,
            no_repeats(w@),
        decreases w@.len() - j2,
    {
        let v = w[j2];
        let p = ctx.states[v].pred;
        if p != usize::MAX && ctx.scratch.in_w.is_marked(p, in_w_epoch) {
            ctx.scratch.children[p].push(v);
            ctx.scratch.parent_in_w.set(v, p);
            proof {
                assert forall|x: int, k: int| 0 <= x < n && 0 <= k < ctx.scratch.children@[x]@.len() implies #[trigger] ctx.scratch.children@[x]@[k] < n by {}
            }
        }
        j2 = j2 + 1;
    }
    // The sizes of the trees, children before parents.
    let mut r: usize = 0;
    while r < w.len()
        invariant
            ctx.wf(n),
            ctx.labels_real(adj(graph@), start),
            ctx.lowers(*old(ctx)),
            n == graph@.len(),
            nodes_below(w@, n),
            ctx.fuel <= old(ctx).fuel,
            r <= w@.len(),
            covers(w@, sources@),
            ctx.reached_below(w@, sources@, bound),
            ctx.states@ == st_end,
            no_repeats(w@),
        decreases w@.len() - r,
    {
        let root = w[r];
        if ctx.scratch.parent_in_w[root] == usize::MAX {
            let mut stack: Vec<(usize, usize)> = Vec::new();
            stack.push((root, 0));
            while stack.len() > 0
                invariant
                    ctx.wf(n),
                    ctx.labels_real(adj(graph@), start),
                    ctx.lowers(*old(ctx)),
                    ctx.fuel <= old(ctx).fuel,
                    forall|i: int| 0 <= i < stack@.len() ==> (#[trigger] stack@[i]).0 < n,
                    covers(w@, sources@),
                    ctx.reached_below(w@, sources@, bound),
                    ctx.states@ == st_end,
            no_repeats(w@),
                decreases ctx.fuel,
            {
                if !ctx.step() {
                    break;
                }
                let (node, next_child) = stack.pop().unwrap();
                proof { assert(stack@.len() >= 0); }
                if next_child < ctx.scratch.children[node].len() {
                    let child = ctx.scratch.children[node][next_child];
                    stack.push((node, next_child + 1));
                    stack.push((child, 0));
                } else {
                    let mut size: usize = 1;
                    let mut c: usize = 0;
                    while c < ctx.scratch.children[node].len()
                        invariant
                            ctx.wf(n),
                            ctx.labels_real(adj(graph@), start),
                            ctx.lowers(*old(ctx)),
                            node < n,
                            c <= ctx.scratch.children@[node as int]@.len(),
                            covers(w@, sources@),
                            ctx.reached_below(w@, sources@, bound),
                            ctx.states@ == st_end,
            no_repeats(w@),

                        decreases ctx.scratch.children@[node as int]@.len() - c,
                    {
                        let child = ctx.scratch.children[node][c];
                        size = size.saturating_add(ctx.scratch.subtree_size[child]);
                        c = c + 1;
                    }
                    ctx.scratch.subtree_size.set(node, size);
                }
            }
        }
        r = r + 1;
    }
    let mut pivots: Vec<usize> = Vec::new();
    let mut j3: usize = 0;
    while j3 < sources.len()
        invariant
            ctx.wf(n),
            ctx.labels_real(adj(graph@), start),
            ctx.lowers(*old(ctx)),
            nodes_below(sources@, n),
            nodes_below(pivots@, n),
            forall|i: int| 0 <= i < pivots@.len() ==> sources@.contains(#[trigger] pivots@[i]),
            forall|i: int| #![trigger pivots@[i]] 0 <= i < pivots@.len() ==> exists|q: int| 0 <= q < j3 && #[trigger] sources@[q] == pivots@[i],
            no_repeats(sources@) ==> no_repeats(pivots@),
            j3 <= sources@.len(),
            covers(w@, sources@),
            ctx.reached_below(w@, sources@, bound),
            ctx.states@ == st_end,
            no_repeats(w@),

        decreases sources@.len() - j3,
    {
        let u = sources[j3];
        if ctx.scratch.parent_in_w[u] == usize::MAX && ctx.scratch.subtree_size[u] >= params.k {
            let ghost p0 = pivots@;
            pivots.push(u);
            proof {
                assert(sources@[j3 as int] == u);
                assert forall|i: int| 0 <= i < pivots@.len() implies sources@.contains(#[trigger] pivots@[i]) by {
                    if i < p0.len() {
                        assert(pivots@[i] == p0[i]);
                    }
                }
                assert forall|i: int| #![trigger pivots@[i]] 0 <= i < pivots@.len() implies exists|q: int| 0 <= q < j3 + 1 && #[trigger] sources@[q] == pivots@[i] by {
                    if i < p0.len() {
                        assert(pivots@[i] == p0[i]);
                        let q = choose|q: int| 0 <= q < j3 && #[trigger] sources@[q] == p0[i];
                        assert(sources@[q] == pivots@[i]);
                    } else {
                        assert(sources@[j3 as int] == pivots@[i]);
                    }
                }
                if no_repeats(sources@) {
                    assert forall|a: int, b: int| 0 <= a < b < pivots@.len() implies pivots@[a] != pivots@[b] by {
                        assert(pivots@[a] == p0[a]);
                        let qa = choose|q: int| 0 <= q < j3 && #[trigger] sources@[q] == p0[a];
                        if b < p0.len() {
                            assert(pivots@[b] == p0[b]);
                        } else {
                            assert(sources@[qa] != sources@[j3 as int]);
                        }
                    }
                }
            }
        }
        j3 = j3 + 1;
    }
    proof {
        assert(ctx.states@ == st_end);
    }
    (pivots, w)
}

/// The base of the recursion: a search from a single source, by Dijkstra's
/// algorithm below the bound, that stops after `k + 1` nodes.
fn base_case<C: Weight>(
    ctx: &mut IndexedContext<C>,
    bound: Bound<C>,
    sources: &Vec<usize>,
    params: &Params,
    graph: &[Vec<(usize, C)>],
    Ghost(start): Ghost<usize>,
) -> (r: (Bound<C>, Vec<usize>))
    requires
        wf(adj(graph@)),
        old(ctx).wf(graph@.len() as nat),
        old(ctx).labels_real(adj(graph@), start),
        nodes_below(sources@, graph@.len() as nat),
    ensures
        final(ctx).wf(graph@.len() as nat),
        final(ctx).labels_real(adj(graph@), start),
        final(ctx).lowers(*old(ctx)),
        final(ctx).fuel <= old(ctx).fuel,
        nodes_below(r.1@, graph@.len() as nat),
        sources@.len() == 0 ==> r.0 == bound && r.1@.len() == 0,
        final(ctx).settled(r.1@),
        r.1@.len() <= params.k + 1,
        r.0 == bound || (r.0 is Some && forall|i: int| 0 <= i < r.1@.len()
            ==> label_less(#[trigger] final(ctx).states@[r.1@[i] as int].label.unwrap(), r.0.unwrap())),
        r.0 != bound ==> exists|v: usize| v < graph@.len() && #[trigger] final(ctx).states@[v as int].label == r.0
            && final(ctx).states@[v as int].complete && !r.1@.contains(v),
        r.0 != bound ==> r.1@.len() <= params.k,
        sources@.len() > 0 && old(ctx).states@[sources@[0] as int].label is Some && old(ctx).fuel > 0
            ==> final(ctx).states@[sources@[0] as int].complete,
{
    let ghost n = graph@.len() as nat;
    let ghost g = adj(graph@);
    if sources.len() == 0 {
        return (bound, Vec::new());
    }
    let x = sources[0];
    let label_x = match ctx.states[x].label {
        Some(l) => l,
        None => {
            return (bound, Vec::new());
        },
    };
    let mut heap: Vec<(Label<C>, usize)> = Vec::new();
    heap.push((label_x, x));
    let extracted_epoch = ctx.scratch.extracted.next_epoch();
    let mut u0: Vec<usize> = Vec::new();
    while heap.len() > 0
        invariant_except_break
            u0@.len() <= params.k,
        invariant
            ctx.wf(n),
            ctx.labels_real(adj(graph@), start),
            ctx.lowers(*old(ctx)),
            n == graph@.len(),
            g == adj(graph@),
            wf(g),
            ctx.fuel <= old(ctx).fuel,
            forall|i: int| 0 <= i < heap@.len() ==> (#[trigger] heap@[i]).1 < n,
            nodes_below(u0@, n),
            u0@.len() <= params.k + 1,
            forall|i: int| 0 <= i < u0@.len() ==> (#[trigger] ctx.states@[u0@[i] as int]).label is Some,
            ctx.scratch.extracted.epoch == extracted_epoch,
            x < n,
            old(ctx).fuel > 0 ==> (u0@.len() > 0 && u0@[0] == x) || (u0@.len() == 0 && heap@.len() == 1
                && heap@[0] == (label_x, x) && ctx.fuel == old(ctx).fuel && ctx.states@[x as int].label == Some(label_x)
                && ctx.scratch.extracted.marks@[x as int] != extracted_epoch),
        ensures
            old(ctx).fuel > 0 ==> u0@.len() > 0 && u0@[0] == x,
        decreases ctx.fuel,
    {
        if !ctx.step() {
            break;
        }
        let ghost f_iter = ctx.fuel;
        let mut best: usize = 0;
        let mut j: usize = 1;
        while j < heap.len()
            invariant
                best < heap@.len(),
                j <= heap@.len(),
            decreases heap@.len() - j,
        {
            if label_lt(&heap[j].0, &heap[best].0) {
                best = j;
            }
            j = j + 1;
        }
        let (label_u, u) = heap[best];
        proof { assert(heap@[best as int].1 < n); }
        let ghost h0 = heap@;
        heap.swap_remove(best);
        proof {
            assert forall|i: int| 0 <= i < heap@.len() implies (#[trigger] heap@[i]).1 < n by {
                if i == best {
                    assert(heap@[i] == h0[h0.len() - 1]);
                } else {
                    assert(heap@[i] == h0[i]);
                }
            }
        }
        let current = match ctx.states[u].label {
            Some(l) => label_same(&l, &label_u),
            None => false,
        };
        if !current || ctx.scratch.extracted.is_marked(u, extracted_epoch) {
            continue;
        }
        ctx.scratch.extracted.mark(u, extracted_epoch);
        u0.push(u);
        if u0.len() > params.k {
            break;
        }
        let edges = &graph[u];
        proof { assert(edges@ == g[u as int]); }
        let mut k: usize = 0;
        while k < edges.len()
            invariant
                ctx.wf(n),
                ctx.labels_real(adj(graph@), start),
                ctx.lowers(*old(ctx)),
                n == graph@.len(),
                g == adj(graph@),
                wf(g),
                u < n,
                edges@ == g[u as int],
                k <= edges@.len(),
                ctx.fuel == f_iter,
                f_iter <= old(ctx).fuel,
                forall|i: int| 0 <= i < heap@.len() ==> (#[trigger] heap@[i]).1 < n,
                nodes_below(u0@, n),
                forall|i: int| 0 <= i < u0@.len() ==> (#[trigger] ctx.states@[u0@[i] as int]).label is Some,
                ctx.scratch.extracted.epoch == extracted_epoch,
                old(ctx).fuel > 0 ==> u0@.len() > 0 && u0@[0] == x,
            decreases edges@.len() - k,
        {
            let (v, w) = edges[k];
            proof { assert(g[u as int][k as int] == (v, w)); }
            match label_add(ctx, u, v, w) {
                Some(candidate) => {
                    proof {
                        let lu = ctx.states@[u as int].label.unwrap();
                        lemma_relax_real(g, start, u, k as int, lu.cost.val(), candidate.cost.val());
                    }
                    if bound_lt(&candidate, &bound) && try_relax(ctx, v, candidate, Ghost(n), Ghost(adj(graph@)), Ghost(start)) {
                        heap.push((candidate, v));
                    }
                },
                None => {},
            }
            k = k + 1;
        }
    }
    let mut j: usize = 0;
    while j < u0.len()
        invariant
            ctx.wf(n),
            ctx.labels_real(adj(graph@), start),
            ctx.lowers(*old(ctx)),
            nodes_below(u0@, n),
            ctx.fuel <= old(ctx).fuel,
            j <= u0@.len(),
            u0@.len() <= params.k + 1,
            forall|i: int| 0 <= i < u0@.len() ==> (#[trigger] ctx.states@[u0@[i] as int]).label is Some,
            forall|i: int| 0 <= i < j ==> (#[trigger] ctx.states@[u0@[i] as int]).complete,
            old(ctx).fuel > 0 ==> u0@.len() > 0 && u0@[0] == x,
            x == sources@[0],
        decreases u0@.len() - j,
    {
        let u = u0[j];
        let st = ctx.states[u];
        ctx.states.set(u, NodeState { label: st.label, pred: st.pred, complete: true });
        j = j + 1;
    }
    proof {
        assert(ctx.settled(u0@));
    }
    if u0.len() <= params.k {
        return (bound, u0);
    }
    let mut top: Bound<C> = None;
    let mut j2: usize = 0;
    while j2 < u0.len()
        invariant
            ctx.wf(n),
            ctx.labels_real(adj(graph@), start),
            ctx.lowers(*old(ctx)),
            nodes_below(u0@, n),
            j2 <= u0@.len(),
            ctx.settled(u0@),
            u0@.len() <= params.k + 1,
            j2 > 0 ==> top is Some,
            top matches Some(t) ==> exists|i: int| 0 <= i < j2 && #[trigger] ctx.states@[u0@[i] as int].label == Some(t),
            old(ctx).fuel > 0 ==> u0@.len() > 0 && u0@[0] == x,
            x == sources@[0],
        decreases u0@.len() - j2,
    {
        match ctx.states[u0[j2]].label {
            Some(l) => {
                top = match top {
                    None => Some(l),
                    Some(t) => if label_lt(&t, &l) { Some(l) } else { Some(t) },
                };
            },
            None => {},
        }
        j2 = j2 + 1;
    }
    let b_prime = match top {
        Some(t) => Some(t),
        None => bound,
    };
    let ghost iw: int = choose|i: int| 0 <= i < u0@.len() && #[trigger] ctx.states@[u0@[i] as int].label == top;
    let ghost witness: usize = if top is Some { u0@[iw] } else { 0 };
    proof {
        if b_prime != bound {
            let i = choose|i: int| 0 <= i < u0@.len() && #[trigger] ctx.states@[u0@[i] as int].label == top;
            assert(ctx.states@[witness as int].label == b_prime);
            assert(witness < n);
            assert(ctx.states@[witness as int].complete);
        }
    }
    let mut u: Vec<usize> = Vec::new();
    let mut j3: usize = 0;
    while j3 < u0.len()
        invariant
            ctx.wf(n),
            ctx.labels_real(adj(graph@), start),
            ctx.lowers(*old(ctx)),
            nodes_below(u0@, n),
            nodes_below(u@, n),
            j3 <= u0@.len(),
            ctx.settled(u0@),
            ctx.settled(u@),
            u0@.len() <= params.k + 1,
            old(ctx).fuel > 0 ==> u0@.len() > 0 && u0@[0] == x,
            x == sources@[0],
            u@.len() <= j3,
            b_prime == bound || (b_prime is Some && forall|i: int| 0 <= i < u@.len()
                ==> label_less(#[trigger] ctx.states@[u@[i] as int].label.unwrap(), b_prime.unwrap())),
            b_prime != bound ==> witness < n && ctx.states@[witness as int].label == b_prime
                && ctx.states@[witness as int].complete,
            b_prime != bound ==> 0 <= iw < u0@.len() && u0@[iw] == witness
                && u@.len() + (if iw < j3 { 1int } else { 0int }) <= j3,
        decreases u0@.len() - j3,
    {
        let x = u0[j3];
        match ctx.states[x].label {
            Some(l) => {
                if bound_lt(&l, &b_prime) {
                    u.push(x);
                }
            },
            None => {},
        }
        j3 = j3 + 1;
    }
    proof {
        if b_prime != bound {
            assert forall|i: int| 0 <= i < u@.len() implies u@[i] != witness by {
                assert(label_less(ctx.states@[u@[i] as int].label.unwrap(), b_prime.unwrap()));
            }
            assert(ctx.states@[witness as int].label == b_prime);
        }
    }
    (b_prime, u)
}

/// The recursion: settle the nodes whose distances lie below `bound` and that
/// are reached through the sources, at most about `k * 2^(layer * t)` of them;
/// give back the bound below which every node is settled, and those nodes.
fn bmssp_rec<C: Weight>(
    ctx: &mut IndexedContext<C>,
    layer: usize,
    bound: Bound<C>,
    sources: &Vec<usize>,
    params: &Params,
    graph: &[Vec<(usize, C)>],
    Ghost(start): Ghost<usize>,
) -> (r: (Bound<C>, Vec<usize>))
    requires
        wf(adj(graph@)),
        old(ctx).wf(graph@.len() as nat),
        old(ctx).labels_real(adj(graph@), start),
        nodes_below(sources@, graph@.len() as nat),
    ensures
        final(ctx).wf(graph@.len() as nat),
        final(ctx).labels_real(adj(graph@), start),
        final(ctx).lowers(*old(ctx)),
        final(ctx).fuel <= old(ctx).fuel,
        nodes_below(r.1@, graph@.len() as nat),
        final(ctx).settled(r.1@),
        layer > 0 ==> at_most(r.0, bound),
        layer > 0 && r.0 != bound ==> r.1@.len() >= layer_budget(params.k, layer, params.t) || final(ctx).failed,
        layer > 0 ==> forall|i: int| 0 <= i < sources@.len()
            && (#[trigger] final(ctx).states@[sources@[i] as int]).label is Some
            && below_bound(final(ctx).states@[sources@[i] as int].label.unwrap(), r.0)
            ==> final(ctx).states@[sources@[i] as int].complete,
    decreases layer,
{
    let ghost n = graph@.len() as nat;
    let ghost g = adj(graph@);
    if layer == 0 {
        return base_case(ctx, bound, sources, params, graph, Ghost(start));
    }
    let (pivots, w) = find_pivots(ctx, bound, sources, params, graph, Ghost(start));
    let m = pow2_sat(sat_mul(layer - 1, params.t));
    let mut ds = ctx.take_queue(if m > 1 { m } else { 1 }, bound, Ghost(n));
    let mut i: usize = 0;
    while i < pivots.len()
        invariant
            ctx.wf(n),
            ctx.labels_real(adj(graph@), start),
            ctx.lowers(*old(ctx)),
            nodes_below(pivots@, n),
            ds.wf(n),
            ds.synced(n),
            ctx.fuel <= old(ctx).fuel,
            i <= pivots@.len(),
        decreases pivots@.len() - i,
    {
        let p = pivots[i];
        match ctx.states[p].label {
            Some(label) => {
                ds.insert(p, label, Ghost(n));
            },
            None => {},
        }
        i = i + 1;
    }
    let budget = sat_mul(params.k, pow2_sat(sat_mul(layer, params.t)));
    let out_epoch = ctx.scratch.out_set.next_epoch();
    let mut out: Vec<usize> = Vec::new();
    let mut current_b: Bound<C> = None;
    let mut i2: usize = 0;
    while i2 < pivots.len()
        invariant
            ctx.wf(n),
            ctx.labels_real(adj(graph@), start),
            ctx.lowers(*old(ctx)),
            nodes_below(pivots@, n),
            i2 <= pivots@.len(),
        decreases pivots@.len() - i2,
    {
        match ctx.states[pivots[i2]].label {
            Some(l) => {
                current_b = match current_b {
                    None => Some(l),
                    Some(c) => if label_lt(&l, &c) { Some(l) } else { Some(c) },
                };
            },
            None => {},
        }
        i2 = i2 + 1;
    }
    if current_b.is_none() {
        current_b = bound;
    }
    while out.len() < budget && !ds.is_empty(Ghost(n))
        invariant
            budget == layer_budget(params.k, layer, params.t),
            ctx.wf(n),
            ctx.labels_real(adj(graph@), start),
            ctx.lowers(*old(ctx)),
            n == graph@.len(),
            g == adj(graph@),
            wf(g),
            ds.wf(n),
            ds.synced(n),
            nodes_below(out@, n),
            ctx.fuel <= old(ctx).fuel,
            layer > 0,
            ctx.settled(out@),
        ensures
            (exists|k: usize| #[trigger] ds.contents(n).contains_key(k)) ==> out@.len() >= budget || ctx.failed,
        decreases ctx.fuel,
    {
        if !ctx.step() {
            break;
        }
        let ghost f_iter = ctx.fuel;
        let (b_i, s_i) = ds.pull(Ghost(n));
        let ghost pre = *ctx;
        let (b_prime_i, u_i) = bmssp_rec(ctx, layer - 1, b_i, &s_i, params, graph, Ghost(start));
        proof { lemma_settled_kept(pre, *ctx, out@); }
        current_b = b_prime_i;
        let mut j: usize = 0;
        while j < u_i.len()
            invariant
                ctx.wf(n),
                ctx.labels_real(adj(graph@), start),
                ctx.lowers(*old(ctx)),
                nodes_below(u_i@, n),
                nodes_below(out@, n),
                ctx.fuel <= f_iter,
                j <= u_i@.len(),
                ctx.settled(out@),
                ctx.settled(u_i@),
            decreases u_i@.len() - j,
        {
            let u = u_i[j];
            let st = ctx.states[u];
            ctx.states.set(u, NodeState { label: st.label, pred: st.pred, complete: true });
            if !ctx.scratch.out_set.is_marked(u, out_epoch) {
                ctx.scratch.out_set.mark(u, out_epoch);
                out.push(u);
            }
            j = j + 1;
        }
        let mut k_list: Vec<(usize, Label<C>)> = Vec::new();
        let mut j2: usize = 0;
        while j2 < u_i.len()
            invariant
                ctx.wf(n),
                ctx.labels_real(adj(graph@), start),
                ctx.lowers(*old(ctx)),
                n == graph@.len(),
                g == adj(graph@),
                wf(g),
                ds.wf(n),
                ds.synced(n),
                nodes_below(u_i@, n),
                forall|i: int| 0 <= i < k_list@.len() ==> (#[trigger] k_list@[i]).0 < n,
                ctx.fuel <= f_iter,
                j2 <= u_i@.len(),
                ctx.settled(out@),
            decreases u_i@.len() - j2,
        {
            let u = u_i[j2];
            let edges = &graph[u];
            proof { assert(edges@ == g[u as int]); }
            let mut k: usize = 0;
            while k < edges.len()
                invariant
                    ctx.wf(n),
                    ctx.labels_real(adj(graph@), start),
                    ctx.lowers(*old(ctx)),
                    n == graph@.len(),
                    g == adj(graph@),
                    wf(g),
                    ds.wf(n),
                    ds.synced(n),
                    u < n,
                    edges@ == g[u as int],
                    k <= edges@.len(),
                    forall|i: int| 0 <= i < k_list@.len() ==> (#[trigger] k_list@[i]).0 < n,
                    ctx.fuel <= f_iter,
                    ctx.settled(out@),
                decreases edges@.len() - k,
            {
                let (v, w_uv) = edges[k];
                proof { assert(g[u as int][k as int] == (v, w_uv)); }
                let ghost pre_k = *ctx;
                match label_add(ctx, u, v, w_uv) {
                    Some(candidate) => {
                        proof {
                            let lu = ctx.states@[u as int].label.unwrap();
                            lemma_relax_real(g, start, u, k as int, lu.cost.val(), candidate.cost.val());
                        }
                        if try_relax(ctx, v, candidate, Ghost(n), Ghost(adj(graph@)), Ghost(start)) && bound_lt(&candidate, &bound) {
                            if in_range(&candidate, &b_i, &bound) {
                                ds.insert(v, candidate, Ghost(n));
                            } else if in_range(&candidate, &b_prime_i, &b_i) {
                                k_list.push((v, candidate));
                            }
                        }
                    },
                    None => {},
                }
                proof { lemma_settled_kept(pre_k, *ctx, out@); }
                k = k + 1;
            }
            j2 = j2 + 1;
        }
        let mut j3: usize = 0;
        while j3 < s_i.len()
            invariant
                ctx.wf(n),
                ctx.labels_real(adj(graph@), start),
                ctx.lowers(*old(ctx)),
                nodes_below(s_i@, n),
                forall|i: int| 0 <= i < k_list@.len() ==> (#[trigger] k_list@[i]).0 < n,
                ctx.fuel <= f_iter,
                j3 <= s_i@.len(),
                ctx.settled(out@),
            decreases s_i@.len() - j3,
        {
            let x = s_i[j3];
            match ctx.states[x].label {
                Some(label) => {
                    if in_range(&label, &b_prime_i, &b_i) {
                        k_list.push((x, label));
                    }
                },
                None => {},
            }
            j3 = j3 + 1;
        }
        ds.batch_prepend(k_list, Ghost(n));
    }
    let ds_empty = ds.is_empty(Ghost(n));
    let b_return = if ds_empty { bound } else { bound_min(current_b, bound) };
    let ghost labels0 = ctx.states@;
    let mut j4: usize = 0;
    while j4 < w.len()
        invariant
            ctx.wf(n),
            ctx.labels_real(adj(graph@), start),
            ctx.lowers(*old(ctx)),
            nodes_below(w@, n),
            nodes_below(out@, n),
            ctx.fuel <= old(ctx).fuel,
            j4 <= w@.len(),
            ctx.settled(out@),
            at_most(b_return, bound),
            b_return != bound ==> out@.len() >= layer_budget(params.k, layer, params.t) || ctx.failed,
            covers(w@, sources@),
            ctx.states@.len() == labels0.len(),
            forall|v: int| 0 <= v < labels0.len() ==> (#[trigger] ctx.states@[v]).label == labels0[v].label,
            forall|j: int| 0 <= j < j4 && (#[trigger] labels0[w@[j] as int]).label is Some
                && below_bound(labels0[w@[j] as int].label.unwrap(), b_return) ==> ctx.states@[w@[j] as int].complete,
        decreases w@.len() - j4,
    {
        let x = w[j4];
        match ctx.states[x].label {
            Some(label) => {
                if bound_lt(&label, &b_return) {
                    let st = ctx.states[x];
                    ctx.states.set(x, NodeState { label: st.label, pred: st.pred, complete: true });
                    if !ctx.scratch.out_set.is_marked(x, out_epoch) {
                        ctx.scratch.out_set.mark(x, out_epoch);
                        out.push(x);
                    }
                }
            },
            None => {},
        }
        j4 = j4 + 1;
    }
    ctx.recycle_queue(ds, Ghost(n));
    proof {
        assert forall|i: int| 0 <= i < sources@.len()
            && (#[trigger] ctx.states@[sources@[i] as int]).label is Some
            && below_bound(ctx.states@[sources@[i] as int].label.unwrap(), b_return)
            implies ctx.states@[sources@[i] as int].complete by {
            assert(w@.contains(sources@[i]));
            let j = choose|j: int| 0 <= j < w@.len() && w@[j] == sources@[i];
            assert(labels0[w@[j] as int].label == ctx.states@[sources@[i] as int].label);
        }
    }
    (b_return, out)
}

/// The port graph: each node becomes a ring of ports joined by edges of
/// weight zero, one port for each edge that leaves it and one for each edge
/// that enters it; each edge of the input joins the port of its start to the
/// port of its end.
struct PortGraph<C> {
    adjacency: Vec<Vec<(usize, C)>>,
    in_ports_by_node: Vec<Vec<usize>>,
    in_port_source: Vec<Option<usize>>,
    start_port: usize,
}

impl<C> PortGraph<C> {
    spec fn wf(&self, n: nat) -> bool {
        &&& wf(adj(self.adjacency@))
        &&& self.in_ports_by_node@.len() == n
        &&& self.in_port_source@.len() == self.adjacency@.len()
        &&& self.start_port < self.adjacency@.len()
        &&& forall|v: int, k: int| 0 <= v < n && 0 <= k < self.in_ports_by_node@[v]@.len()
            ==> #[trigger] self.in_ports_by_node@[v]@[k] < self.adjacency@.len()
        &&& forall|p: int| 0 <= p < self.in_port_source@.len() && #[trigger] self.in_port_source@[p] is Some
            ==> self.in_port_source@[p]->Some_0 < n
    }
}

/// How many of the first `k` edges of `row` end at `v`.
spec fn row_count<C>(row: Seq<(usize, C)>, v: usize, k: int) -> nat
    decreases k,
{
    if k <= 0 {
        0
    } else {
        row_count(row, v, k - 1) + if row[k - 1].0 == v { 1nat } else { 0nat }
    }
}

/// How many edges of the first `u` lists end at `v`.
spec fn in_rows<C>(g: Seq<Seq<(usize, C)>>, v: usize, u: int) -> nat
    decreases u,
{
    if u <= 0 {
        0
    } else {
        in_rows(g, v, u - 1) + row_count(g[u - 1], v, g[u - 1].len() as int)
    }
}

/// The number of edges that end at `v`.
spec fn in_count<C>(g: Seq<Seq<(usize, C)>>, v: usize) -> nat {
    in_rows(g, v, g.len() as int)
}

/// The ports of node `v`: one for each edge that leaves it and one for each
/// edge that enters it, and one for the start where it has no edge.
spec fn node_ports<C>(g: Seq<Seq<(usize, C)>>, start: usize, v: int) -> nat {
    let c = g[v].len() + in_count(g, v as usize);
    if c == 0 && v == start { 1 } else { c }
}

/// The ports of the first `v` nodes.
spec fn ports_before<C>(g: Seq<Seq<(usize, C)>>, start: usize, v: int) -> nat
    decreases v,
{
    if v <= 0 {
        0
    } else {
        ports_before(g, start, v - 1) + node_ports(g, start, v - 1)
    }
}

/// A port below the ports of the first `v` nodes belongs to one of them.
proof fn lemma_port_owner<C>(g: Seq<Seq<(usize, C)>>, start: usize, p: int, v: int)
    requires
        0 <= p < ports_before(g, start, v),
    ensures
        exists|u: int| 0 <= u < v && #[trigger] ports_before(g, start, u) <= p < ports_before(g, start, u) + node_ports(g, start, u),
    decreases v,
{
    if v > 0 {
        if p >= ports_before(g, start, v - 1) {
            assert(ports_before(g, start, v - 1) <= p < ports_before(g, start, v - 1) + node_ports(g, start, v - 1));
        } else {
            lemma_port_owner(g, start, p, v - 1);
        }
    }
}

/// The sum of the first `v` items.
spec fn count_sum(s: Seq<usize>, v: int) -> int
    decreases v,
{
    if v <= 0 {
        0
    } else {
        count_sum(s, v - 1) + s[v - 1]
    }
}

proof fn lemma_count_sum_prefix(s: Seq<usize>, c: usize, x: int)
    requires
        0 <= x <= s.len(),
    ensures
        count_sum(s, x) == count_sum(s.push(c), x),
    decreases x,
{
    if x > 0 {
        lemma_count_sum_prefix(s, c, x - 1);
        assert(s.push(c)[x - 1] == s[x - 1]);
    }
}

proof fn lemma_row_count_le<C>(row: Seq<(usize, C)>, v: usize, k: int)
    requires
        0 <= k <= row.len(),
    ensures
        row_count(row, v, k) <= row_count(row, v, row.len() as int),
    decreases row.len() - k,
{
    if k < row.len() {
        lemma_row_count_le(row, v, k + 1);
    }
}

proof fn lemma_in_rows_mono<C>(g: Seq<Seq<(usize, C)>>, v: usize, a: int, b: int)
    requires
        0 <= a <= b,
    ensures
        in_rows(g, v, a) <= in_rows(g, v, b),
    decreases b - a,
{
    if a < b {
        lemma_in_rows_mono(g, v, a, b - 1);
    }
}

/// An edge into `v` not yet counted leaves room below the full count.
proof fn lemma_in_upto_lt<C>(g: Seq<Seq<(usize, C)>>, v: usize, u: int, k: int)
    requires
        0 <= u < g.len(),
        0 <= k < g[u].len(),
        g[u][k].0 == v,
    ensures
        in_rows(g, v, u) + row_count(g[u], v, k) + 1 <= in_count(g, v),
{
    lemma_row_count_le(g[u], v, k + 1);
    lemma_in_rows_mono(g, v, u + 1, g.len() as int);
}

proof fn lemma_ports_mono<C>(g: Seq<Seq<(usize, C)>>, start: usize, a: int, b: int)
    requires
        0 <= a <= b,
    ensures
        ports_before(g, start, a) <= ports_before(g, start, b),
    decreases b - a,
{
    if a < b {
        lemma_ports_mono(g, start, a, b - 1);
    }
}

/// The ports of one node are among all of them.
proof fn lemma_node_ports_le<C>(g: Seq<Seq<(usize, C)>>, start: usize, v: int)
    requires
        0 <= v < g.len(),
    ensures
        g[v].len() + in_count(g, v as usize) <= ports_before(g, start, g.len() as int),
        node_ports(g, start, v) <= ports_before(g, start, g.len() as int),
{
    lemma_ports_mono(g, start, v + 1, g.len() as int);
}

/// Sums of counts bounded item by item are bounded.
proof fn lemma_sum_bounds<C>(g: Seq<Seq<(usize, C)>>, start: usize, s: Seq<usize>, v: int)
    requires
        0 <= v <= s.len(),
    ensures
        (forall|y: int| 0 <= y < v ==> node_ports(g, start, y) <= #[trigger] s[y]) ==> ports_before(g, start, v) <= count_sum(s, v),
        (forall|y: int| 0 <= y < v ==> #[trigger] s[y] <= node_ports(g, start, y)) ==> count_sum(s, v) <= ports_before(g, start, v),
    decreases v,
{
    if v > 0 {
        lemma_sum_bounds(g, start, s, v - 1);
    }
}

/// What the counts of ports hold: each is the ports of its node where the
/// whole fits in a `usize`, no more than them and no fewer than the edges that
/// leave the node in any case, and at least 1 for the start.
spec fn counts_ok<C>(g: Seq<Seq<(usize, C)>>, start: usize, counts: Seq<usize>, v: int) -> bool {
    &&& counts.len() >= v
    &&& forall|x: int| 0 <= x < v ==> g[x].len() <= #[trigger] counts[x] <= node_ports(g, start, x)
    &&& forall|x: int| 0 <= x < v && ports_before(g, start, g.len() as int) <= usize::MAX
        ==> #[trigger] counts[x] == node_ports(g, start, x)
}

/// The edges of port `j` of a node whose ports start at `base` and number
/// `count`: the edge of weight 0 to the next port of the ring where there are
/// two ports or more, then the edge of the input where `extra` holds.
spec fn ring_ok<C: Weight>(l: Seq<(usize, C)>, base: int, count: int, j: int, extra: bool) -> bool {
    &&& l.len() == (if count > 1 { 1int } else { 0int }) + (if extra { 1int } else { 0int })
    &&& count > 1 ==> l[0].0 == base + (j + 1) % count && l[0].1.val() == 0
}

/// The edges of port `j` of node `v`.
spec fn port_list<C>(adjacency: Seq<Vec<(usize, C)>>, base: Seq<usize>, v: int, j: int) -> Seq<(usize, C)> {
    adjacency[base[v] + j]@
}

/// The port at which edge `j` of node `v` enters its end `t`: past the ports of
/// the edges that leave `t`, one for each edge into `t` that comes earlier.
spec fn entry_port<C>(g: Seq<Seq<(usize, C)>>, base: spec_fn(int) -> int, v: int, j: int) -> int {
    let t = g[v][j].0;
    base(t as int) + g[t as int].len() + in_rows(g, t, v) + row_count(g[v], t, j)
}

/// Port `j` of node `v` of the port graph of `g`.
spec fn final_port<C: Weight>(adjacency: Seq<Vec<(usize, C)>>, g: Seq<Seq<(usize, C)>>, start: usize, v: int, j: int) -> bool {
    port_ok(adjacency[ports_before(g, start, v) + j]@, g, |x: int| ports_before(g, start, x) as int,
        node_ports(g, start, v) as int, v, j, j < g[v].len())
}

/// Port `j` of node `v`, with the ports of each node starting at `base`.
spec fn port_state<C: Weight>(adjacency: Seq<Vec<(usize, C)>>, base: Seq<usize>, counts: Seq<usize>, g: Seq<Seq<(usize, C)>>,
    v: int, j: int, extra: bool) -> bool {
    port_ok(port_list(adjacency, base, v, j), g, |x: int| base[x] as int, counts[v] as int, v, j, extra)
}

/// Port `j` of node `v` holds its ring edge and, for an edge that leaves `v`,
/// that edge, to the port where it enters its end, with its weight.
spec fn port_ok<C: Weight>(l: Seq<(usize, C)>, g: Seq<Seq<(usize, C)>>, base: spec_fn(int) -> int, count: int, v: int, j: int, extra: bool) -> bool {
    &&& ring_ok(l, base(v), count, j, extra)
    &&& extra ==> l[l.len() - 1].0 == entry_port(g, base, v, j) && l[l.len() - 1].1 == g[v][j].1
}

/// The port at which edge `j` of node `v` of `g` enters its end in the port
/// graph of `g`.
spec fn graph_entry<C>(g: Seq<Seq<(usize, C)>>, start: usize, v: int, j: int) -> int {
    entry_port(g, |x: int| ports_before(g, start, x) as int, v, j)
}

/// The port at which edge `j` of node `v` enters its end, with the ports of
/// each node starting at `base`.
spec fn eport<C>(g: Seq<Seq<(usize, C)>>, base: Seq<usize>, v: int, j: int) -> int {
    entry_port(g, |x: int| base[x] as int, v, j)
}

/// An edge into `t` listed before another one into `t` comes earlier in
/// the count of edges into `t`.
proof fn lemma_in_order<C>(g: Seq<Seq<(usize, C)>>, t: usize, v: int, j: int, u: int, k: int)
    requires
        0 <= v <= u < g.len(),
        0 <= j < g[v].len(),
        0 <= k <= g[u].len(),
        v < u || j < k,
        g[v][j].0 == t,
    ensures
        in_rows(g, t, v) + row_count(g[v], t, j) + 1 <= in_rows(g, t, u) + row_count(g[u], t, k),
{
    assert(row_count(g[v], t, j + 1) == row_count(g[v], t, j) + 1);
    if v == u {
        lemma_row_count_prefix(g[v], t, j + 1, k);
    } else {
        lemma_row_count_le(g[v], t, j + 1);
        lemma_in_rows_mono(g, t, v + 1, u);
        assert(in_rows(g, t, v + 1) == in_rows(g, t, v) + row_count(g[v], t, g[v].len() as int));
    }
}

/// Counting among the first `b` edges counts at least as many as among the
/// first `a`.
proof fn lemma_row_count_prefix<C>(row: Seq<(usize, C)>, t: usize, a: int, b: int)
    requires
        0 <= a <= b <= row.len(),
    ensures
        row_count(row, t, a) <= row_count(row, t, b),
    decreases b - a,
{
    if a < b {
        lemma_row_count_prefix(row, t, a, b - 1);
    }
}

proof fn lemma_count_sum_mono(s: Seq<usize>, a: int, b: int)
    requires
        0 <= a <= b <= s.len(),
    ensures
        count_sum(s, a) <= count_sum(s, b),
    decreases b - a,
{
    if a < b {
        lemma_count_sum_mono(s, a, b - 1);
    }
}

/// Ports of different nodes, or different ports of one node, differ.
proof fn lemma_ports_differ(counts: Seq<usize>, v1: int, j1: int, v2: int, j2: int)
    requires
        0 <= v1 < counts.len(),
        0 <= v2 < counts.len(),
        0 <= j1 < counts[v1],
        0 <= j2 < counts[v2],
        v1 != v2 || j1 != j2,
    ensures
        count_sum(counts, v1) + j1 != count_sum(counts, v2) + j2,
{
    if v1 < v2 {
        lemma_count_sum_mono(counts, v1 + 1, v2);
    } else if v2 < v1 {
        lemma_count_sum_mono(counts, v2 + 1, v1);
    }
}

/// Build the port graph of the adjacency lists; `None` where the number of
/// ports does not fit in a `usize`.
fn build_port_graph<C: Weight>(start: usize, successors: &[Vec<(usize, C)>]) -> (r: Option<PortGraph<C>>)
    requires
        wf(adj(successors@)),
        start < successors@.len(),
    ensures
        r matches Some(pg) ==> pg.wf(successors@.len() as nat),
        r is Some <==> ports_before(adj(successors@), start, successors@.len() as int) <= usize::MAX,
        r matches Some(pg) ==> pg.adjacency@.len() == ports_before(adj(successors@), start, successors@.len() as int),
        r matches Some(pg) ==> pg.start_port == ports_before(adj(successors@), start, start as int),
        r matches Some(pg) ==> forall|p: int| 0 <= p < pg.adjacency@.len() ==> (#[trigger] pg.adjacency@[p])@.len() <= 2,
        r matches Some(pg) ==> forall|v: int, j: int| 0 <= v < successors@.len() && 0 <= j < node_ports(adj(successors@), start, v)
            ==> #[trigger] final_port(pg.adjacency@, adj(successors@), start, v, j),
        r matches Some(pg) ==> forall|v: int, j: int| 0 <= v < successors@.len() && 0 <= j < successors@[v]@.len()
            ==> pg.in_port_source@[#[trigger] graph_entry(adj(successors@), start, v, j)] == Some(v as usize),
        r matches Some(pg) ==> forall|v: int| 0 <= v < successors@.len()
            ==> (#[trigger] pg.in_ports_by_node@[v])@.len() == in_count(adj(successors@), v as usize),
        r matches Some(pg) ==> forall|v: int, i: int| 0 <= v < successors@.len() && 0 <= i < pg.in_ports_by_node@[v]@.len()
            ==> #[trigger] pg.in_ports_by_node@[v]@[i] == ports_before(adj(successors@), start, v) + successors@[v]@.len() + i,
{
    let ghost g = adj(successors@);
    let n = successors.len();
    let mut in_degree: Vec<usize> = Vec::new();
    let mut i: usize = 0;
    while i < n
        invariant
            i <= n,
            in_degree@.len() == i,
            forall|x: int| 0 <= x < i ==> #[trigger] in_degree@[x] == 0,
        decreases n - i,
    {
        in_degree.push(0);
        i = i + 1;
    }
    proof {
        assert forall|x: usize| x < n implies #[trigger] in_degree@[x as int] == if in_rows(g, x, 0) <= usize::MAX {
            in_rows(g, x, 0) as int } else { usize::MAX as int } by {
            assert(in_rows(g, x, 0) == 0);
        }
    }
    let mut u: usize = 0;
    while u < n
        invariant
            g == adj(successors@),
            wf(g),
            n == g.len(),
            in_degree@.len() == n,
            u <= n,
            forall|x: usize| x < n ==> #[trigger] in_degree@[x as int] == if in_rows(g, x, u as int) <= usize::MAX {
                in_rows(g, x, u as int) as int } else { usize::MAX as int },
        decreases n - u,
    {
        let edges = &successors[u];
        proof { assert(edges@ == g[u as int]); }
        let mut k: usize = 0;
        while k < edges.len()
            invariant
                g == adj(successors@),
                wf(g),
                n == g.len(),
                u < n,
                edges@ == g[u as int],
                in_degree@.len() == n,
                k <= edges@.len(),
                forall|x: usize| x < n ==> #[trigger] in_degree@[x as int] == if in_rows(g, x, u as int) + row_count(g[u as int], x, k as int) <= usize::MAX {
                    (in_rows(g, x, u as int) + row_count(g[u as int], x, k as int)) as int } else { usize::MAX as int },
            decreases edges@.len() - k,
        {
            let v = edges[k].0;
            proof { assert(g[u as int][k as int].0 == v); }
            let d = in_degree[v].saturating_add(1);
            in_degree.set(v, d);
            proof {
                assert forall|x: usize| x < n implies #[trigger] in_degree@[x as int] == if in_rows(g, x, u as int) + row_count(g[u as int], x, k + 1) <= usize::MAX {
                    (in_rows(g, x, u as int) + row_count(g[u as int], x, k + 1)) as int } else { usize::MAX as int } by {
                    assert(row_count(g[u as int], x, k + 1) == row_count(g[u as int], x, k as int) + if g[u as int][k as int].0 == x { 1nat } else { 0nat });
                }
            }
            k = k + 1;
        }
        proof {
            assert forall|x: usize| x < n implies #[trigger] in_degree@[x as int] == if in_rows(g, x, u + 1) <= usize::MAX {
                in_rows(g, x, u + 1) as int } else { usize::MAX as int } by {
                assert(in_rows(g, x, u + 1) == in_rows(g, x, u as int) + row_count(g[u as int], x, g[u as int].len() as int));
            }
        }
        u = u + 1;
    }
    proof {
        assert forall|x: usize| x < n implies #[trigger] in_degree@[x as int] == if in_count(g, x) <= usize::MAX {
            in_count(g, x) as int } else { usize::MAX as int } by {}
    }
    let mut port_counts: Vec<usize> = Vec::new();
    let mut port_base: Vec<usize> = Vec::new();
    let mut total: usize = 0;
    let mut v: usize = 0;
    while v < n
        invariant
            n == successors@.len(),
            in_degree@.len() == n,
            v <= n,
            port_counts@.len() == v,
            port_base@.len() == v,
            forall|x: int| 0 <= x < v ==> #[trigger] port_base@[x] + port_counts@[x] <= total,
            forall|x: int| 0 <= x < v && x == start ==> #[trigger] port_counts@[x] >= 1,
            g == adj(successors@),
            n == g.len(),
            forall|x: usize| x < n ==> #[trigger] in_degree@[x as int] == if in_count(g, x) <= usize::MAX {
                in_count(g, x) as int } else { usize::MAX as int },
            counts_ok(g, start, port_counts@, v as int),
            total == count_sum(port_counts@, v as int),
            forall|x: int| 0 <= x < v ==> #[trigger] port_base@[x] == count_sum(port_counts@, x),
        decreases n - v,
    {
        let count0 = successors[v].len().saturating_add(in_degree[v]);
        let count = if count0 == 0 && v == start { 1 } else { count0 };
        proof {
            assert(successors@[v as int]@.len() == g[v as int].len());
            if ports_before(g, start, n as int) <= usize::MAX {
                lemma_node_ports_le(g, start, v as int);
            }
        }
        let ghost pc0 = port_counts@;
        port_counts.push(count);
        port_base.push(total);
        proof {
            lemma_count_sum_prefix(pc0, count, v as int);
            assert(port_counts@ == pc0.push(count));
            assert(count_sum(port_counts@, v + 1) == count_sum(port_counts@, v as int) + port_counts@[v as int]);
            assert(count_sum(port_counts@, v + 1) == total + count);
            assert forall|x: int| 0 <= x < v + 1 implies #[trigger] port_base@[x] == count_sum(port_counts@, x) by {
                lemma_count_sum_prefix(pc0, count, x);
            }
        }
        match total.checked_add(count) {
            Some(t) => {
                total = t;
            },
            None => {
                proof {
                    lemma_sum_bounds(g, start, port_counts@, v + 1);
                    lemma_ports_mono(g, start, v + 1, n as int);
                }
                return None;
            },
        }
        v = v + 1;
    }
    let mut adjacency: Vec<Vec<(usize, C)>> = Vec::new();
    let mut in_port_source: Vec<Option<usize>> = Vec::new();
    let mut i2: usize = 0;
    while i2 < total
        invariant
            i2 <= total,
            adjacency@.len() == i2,
            in_port_source@.len() == i2,
            counts_ok(g, start, port_counts@, n as int),
            port_counts@.len() == n,
            total == count_sum(port_counts@, n as int),
            g == adj(successors@),
            n == g.len(),
            forall|x: int| 0 <= x < n && x == start ==> #[trigger] port_counts@[x] >= 1,

            forall|x: int| 0 <= x < n ==> #[trigger] port_base@[x] == count_sum(port_counts@, x),
            port_base@.len() == n,
            forall|p: int| 0 <= p < i2 ==> (#[trigger] adjacency@[p])@.len() == 0,
            forall|p: int| 0 <= p < i2 ==> #[trigger] in_port_source@[p] is None,
        decreases total - i2,
    {
        adjacency.push(Vec::new());
        in_port_source.push(None);
        i2 = i2 + 1;
    }
    let mut in_ports_by_node: Vec<Vec<usize>> = Vec::new();
    let mut i3: usize = 0;
    while i3 < n
        invariant
            i3 <= n,
            in_ports_by_node@.len() == i3,
            counts_ok(g, start, port_counts@, n as int),
            port_counts@.len() == n,
            total == count_sum(port_counts@, n as int),
            g == adj(successors@),
            n == g.len(),
            forall|x: int| 0 <= x < n && x == start ==> #[trigger] port_counts@[x] >= 1,

            forall|x: int| 0 <= x < n ==> #[trigger] port_base@[x] == count_sum(port_counts@, x),
            port_base@.len() == n,
            forall|p: int| 0 <= p < total ==> (#[trigger] adjacency@[p])@.len() == 0,
            adjacency@.len() == total,
            forall|x: int| 0 <= x < i3 ==> (#[trigger] in_ports_by_node@[x])@.len() == 0,
        decreases n - i3,
    {
        in_ports_by_node.push(Vec::new());
        i3 = i3 + 1;
    }
    // The rings of ports.
    let mut v2: usize = 0;
    while v2 < n
        invariant
            n == successors@.len(),
            port_counts@.len() == n,
            port_base@.len() == n,
            forall|x: int| 0 <= x < n ==> #[trigger] port_base@[x] + port_counts@[x] <= total,
            adjacency@.len() == total,
            wf(adj(adjacency@)),
            v2 <= n,
            counts_ok(g, start, port_counts@, n as int),
            port_counts@.len() == n,
            total == count_sum(port_counts@, n as int),
            g == adj(successors@),
            n == g.len(),
            forall|x: int| 0 <= x < n && x == start ==> #[trigger] port_counts@[x] >= 1,

            forall|x: int| 0 <= x < n ==> #[trigger] port_base@[x] == count_sum(port_counts@, x),
            port_base@.len() == n,
            forall|v: int, j: int| #![trigger port_list(adjacency@, port_base@, v, j)] 0 <= v < n && 0 <= j < port_counts@[v] ==>
                if v < v2 { port_state(adjacency@, port_base@, port_counts@, g, v, j, false) } else { port_list(adjacency@, port_base@, v, j).len() == 0 },
            in_ports_by_node@.len() == n,
            forall|x: int| 0 <= x < n ==> (#[trigger] in_ports_by_node@[x])@.len() == 0,
        decreases n - v2,
    {
        let count = port_counts[v2];
        let base = port_base[v2];
        proof { assert(port_base@[v2 as int] + port_counts@[v2 as int] <= total); }
        if count > 1 {
            let mut j: usize = 0;
            while j < count
                invariant
                    base + count <= total,
                    adjacency@.len() == total,
                    wf(adj(adjacency@)),
                    j <= count,
                    count > 1,
                    g == adj(successors@),
                    n == g.len(),
                    n == successors@.len(),
                    v2 < n,
                    count == port_counts@[v2 as int],
                    base == port_base@[v2 as int],
                    forall|x: int| 0 <= x < n ==> #[trigger] port_base@[x] + port_counts@[x] <= total,
                    port_counts@.len() == n,
                    forall|x: int| 0 <= x < n ==> #[trigger] port_base@[x] == count_sum(port_counts@, x),
                    port_base@.len() == n,
                    forall|v: int, jj: int| #![trigger port_list(adjacency@, port_base@, v, jj)] 0 <= v < n && 0 <= jj < port_counts@[v] ==>
                        if v < v2 || (v == v2 && jj < j) { port_state(adjacency@, port_base@, port_counts@, g, v, jj, false) }
                        else { port_list(adjacency@, port_base@, v, jj).len() == 0 },
                    in_ports_by_node@.len() == n,
                    forall|x: int| 0 <= x < n ==> (#[trigger] in_ports_by_node@[x])@.len() == 0,
                decreases count - j,
            {
                let from = base + j;
                let to = base + (j + 1) % count;
                let ghost a0 = adj(adjacency@);
                let ghost m0 = adjacency@;
                let z = C::zero();
                adjacency[from].push((to, z));
                proof {
                    let a1 = adj(adjacency@);
                    assert forall|v: int, jj: int| #![trigger port_list(adjacency@, port_base@, v, jj)] 0 <= v < n && 0 <= jj < port_counts@[v] implies
                        (if v < v2 || (v == v2 && jj < j + 1) { port_state(adjacency@, port_base@, port_counts@, g, v, jj, false) }
                        else { port_list(adjacency@, port_base@, v, jj).len() == 0 }) by {
                        assert(port_list(m0, port_base@, v, jj) == m0[port_base@[v] + jj]@);
                        if v != v2 || jj != j {
                            lemma_ports_differ(port_counts@, v, jj, v2 as int, j as int);
                            assert(from as int == port_base@[v2 as int] + j);
                            assert(port_base@[v] + jj != from as int);
                            assert(adjacency@[port_base@[v] + jj] == m0[port_base@[v] + jj]);
                        } else {
                            assert(port_list(m0, port_base@, v, jj).len() == 0);
                            assert(adjacency@[from as int]@ == m0[from as int]@.push((to, z)));
                        }
                    }
                    assert forall|x: int, y: int| 0 <= x < a1.len() && 0 <= y < a1[x].len() implies #[trigger] a1[x][y].0 < a1.len() by {
                        if x == from && y == a0[x].len() {
                        } else {
                            assert(a1[x][y] == a0[x][y]);
                        }
                    }
                }
                j = j + 1;
            }
        }
        v2 = v2 + 1;
    }
    // The edges of the input, from a port of their start to a port of their end.
    let mut next_in: Vec<usize> = Vec::new();
    let mut i4: usize = 0;
    while i4 < n
        invariant
            i4 <= n,
            next_in@.len() == i4,
            forall|x: int| 0 <= x < i4 ==> #[trigger] next_in@[x] == 0,
            forall|x: int| 0 <= x < n ==> #[trigger] port_base@[x] == count_sum(port_counts@, x),
            port_base@.len() == n,
            forall|v: int, j: int| #![trigger port_list(adjacency@, port_base@, v, j)] 0 <= v < n && 0 <= j < port_counts@[v] ==>
                port_state(adjacency@, port_base@, port_counts@, g, v, j, false),
            in_ports_by_node@.len() == n,
            forall|x: int| 0 <= x < n ==> (#[trigger] in_ports_by_node@[x])@.len() == 0,

            counts_ok(g, start, port_counts@, n as int),
            port_counts@.len() == n,
            total == count_sum(port_counts@, n as int),
            g == adj(successors@),
            n == g.len(),
            forall|x: int| 0 <= x < n && x == start ==> #[trigger] port_counts@[x] >= 1,

        decreases n - i4,
    {
        next_in.push(0);
        i4 = i4 + 1;
    }
    let mut u2: usize = 0;
    while u2 < n
        invariant
            g == adj(successors@),
            wf(g),
            n == g.len(),
            port_counts@.len() == n,
            port_base@.len() == n,
            next_in@.len() == n,
            forall|x: int| 0 <= x < n ==> #[trigger] port_base@[x] + port_counts@[x] <= total,
            adjacency@.len() == total,
            in_port_source@.len() == total,
            in_ports_by_node@.len() == n,
            wf(adj(adjacency@)),
            forall|x: int, k: int| 0 <= x < n && 0 <= k < in_ports_by_node@[x]@.len() ==> #[trigger] in_ports_by_node@[x]@[k] < total,
            forall|p: int| 0 <= p < total && #[trigger] in_port_source@[p] is Some ==> in_port_source@[p]->Some_0 < n,
            u2 <= n,
            counts_ok(g, start, port_counts@, n as int),
            port_counts@.len() == n,
            total == count_sum(port_counts@, n as int),
            g == adj(successors@),
            n == g.len(),
            forall|x: int| 0 <= x < n && x == start ==> #[trigger] port_counts@[x] >= 1,
            forall|x: usize| x < n ==> #[trigger] next_in@[x as int] == in_rows(g, x, u2 as int),
            forall|x: usize| x < n ==> #[trigger] next_in@[x as int] + g[x as int].len() <= port_counts@[x as int],
            forall|x: int| 0 <= x < n ==> #[trigger] port_base@[x] == count_sum(port_counts@, x),
            port_base@.len() == n,
            forall|v: int, j: int| #![trigger port_list(adjacency@, port_base@, v, j)] 0 <= v < n && 0 <= j < port_counts@[v] ==>
                port_state(adjacency@, port_base@, port_counts@, g, v, j, j < g[v].len() && v < u2),
            forall|v: int, j: int| 0 <= v < u2 && 0 <= j < g[v].len() ==>
                in_port_source@[#[trigger] eport(g, port_base@, v, j)] == Some(v as usize),
            forall|x: int| 0 <= x < n ==> (#[trigger] in_ports_by_node@[x])@.len() == next_in@[x],
            forall|x: int, i: int| 0 <= x < n && 0 <= i < in_ports_by_node@[x]@.len()
                ==> #[trigger] in_ports_by_node@[x]@[i] == port_base@[x] + g[x].len() + i,
        decreases n - u2,
    {
        let out_base = port_base[u2];
        let out_count = port_counts[u2];
        let edges = &successors[u2];
        proof { assert(edges@ == g[u2 as int]); }
        let mut k: usize = 0;
        while k < edges.len()
            invariant
                g == adj(successors@),
                wf(g),
                n == g.len(),
                u2 < n,
                edges@ == g[u2 as int],
                out_base + out_count <= total,
                port_counts@.len() == n,
                port_base@.len() == n,
                next_in@.len() == n,
                forall|x: int| 0 <= x < n ==> #[trigger] port_base@[x] + port_counts@[x] <= total,
                adjacency@.len() == total,
                in_port_source@.len() == total,
                in_ports_by_node@.len() == n,
                wf(adj(adjacency@)),
                forall|x: int, kk: int| 0 <= x < n && 0 <= kk < in_ports_by_node@[x]@.len() ==> #[trigger] in_ports_by_node@[x]@[kk] < total,
                forall|p: int| 0 <= p < total && #[trigger] in_port_source@[p] is Some ==> in_port_source@[p]->Some_0 < n,
                k <= edges@.len(),
                counts_ok(g, start, port_counts@, n as int),
                port_counts@.len() == n,
                total == count_sum(port_counts@, n as int),
                g == adj(successors@),
                n == g.len(),
                forall|x: int| 0 <= x < n && x == start ==> #[trigger] port_counts@[x] >= 1,
                out_count == port_counts@[u2 as int],
                out_base == port_base@[u2 as int],
                forall|x: usize| x < n ==> #[trigger] next_in@[x as int] == in_rows(g, x, u2 as int) + row_count(g[u2 as int], x, k as int),
                forall|x: usize| x < n ==> #[trigger] next_in@[x as int] + g[x as int].len() <= port_counts@[x as int],
                forall|x: int| 0 <= x < n ==> #[trigger] port_base@[x] == count_sum(port_counts@, x),
                port_base@.len() == n,
                forall|v: int, j: int| #![trigger port_list(adjacency@, port_base@, v, j)] 0 <= v < n && 0 <= j < port_counts@[v] ==>
                    port_state(adjacency@, port_base@, port_counts@, g, v, j, j < g[v].len() && (v < u2 || (v == u2 && j < k))),
                forall|v: int, j: int| 0 <= v < n && 0 <= j < g[v].len() && (v < u2 || (v == u2 && j < k)) ==>
                    in_port_source@[#[trigger] eport(g, port_base@, v, j)] == Some(v as usize),
                forall|x: int| 0 <= x < n ==> (#[trigger] in_ports_by_node@[x])@.len() == next_in@[x],
                forall|x: int, i: int| 0 <= x < n && 0 <= i < in_ports_by_node@[x]@.len()
                    ==> #[trigger] in_ports_by_node@[x]@[i] == port_base@[x] + g[x].len() + i,
            decreases edges@.len() - k,
        {
            let (v3, w) = edges[k];
            proof { assert(g[u2 as int][k as int] == (v3, w)); }
            let in_idx = next_in[v3];
            let ghost ni0 = next_in@;
            next_in.set(v3, in_idx.saturating_add(1));
            let out_len_v = successors[v3].len();
            proof {
                assert(port_base@[v3 as int] + port_counts@[v3 as int] <= total);
                assert(successors@[v3 as int]@.len() == g[v3 as int].len());
                assert(successors@[u2 as int]@.len() == g[u2 as int].len());
            }
            if k >= out_count || in_idx >= port_counts[v3] || out_len_v >= port_counts[v3] - in_idx {
                proof {
                    if ports_before(g, start, n as int) <= usize::MAX {
                        lemma_in_upto_lt(g, v3, u2 as int, k as int);
                        assert(port_counts@[v3 as int] == node_ports(g, start, v3 as int));
                        assert(port_counts@[u2 as int] == node_ports(g, start, u2 as int));
                    }
                }
                return None;
            }
            proof {
                assert forall|x: usize| x < n implies #[trigger] next_in@[x as int] == in_rows(g, x, u2 as int) + row_count(g[u2 as int], x, k + 1) by {
                    assert(row_count(g[u2 as int], x, k + 1) == row_count(g[u2 as int], x, k as int) + if g[u2 as int][k as int].0 == x { 1nat } else { 0nat });
                }
            }
            let out_port = out_base + k;
            let in_port = port_base[v3] + out_len_v + in_idx;
            let ghost a0 = adj(adjacency@);
            let ghost m0 = adjacency@;
            adjacency[out_port].push((in_port, w));
            proof {
                assert(adjacency@[out_port as int]@ == m0[out_port as int]@.push((in_port, w)));
                assert forall|v: int, j: int| #![trigger port_list(adjacency@, port_base@, v, j)] 0 <= v < n && 0 <= j < port_counts@[v] implies
                    port_state(adjacency@, port_base@, port_counts@, g, v, j, j < g[v].len() && (v < u2 || (v == u2 && j < k + 1))) by {
                    assert(port_state(m0, port_base@, port_counts@, g, v, j, j < g[v].len() && (v < u2 || (v == u2 && j < k))));
                    if v != u2 || j != k {
                        lemma_ports_differ(port_counts@, v, j, u2 as int, k as int);
                        assert(port_base@[v] + j != out_port as int);
                        assert(adjacency@[port_base@[v] + j] == m0[port_base@[v] + j]);
                    } else {
                        let t = g[v][j].0;
                        assert(t == v3);
                        assert(in_port as int == entry_port(g, |x: int| port_base@[x] as int, v, j));
                    }
                }
            }
            let ghost ips0 = in_port_source@;
            in_port_source.set(in_port, Some(u2));
            proof {
                assert(in_port as int == eport(g, port_base@, u2 as int, k as int));
                assert forall|v: int, j: int| 0 <= v < n && 0 <= j < g[v].len() && (v < u2 || (v == u2 && j < k + 1)) implies
                    in_port_source@[#[trigger] eport(g, port_base@, v, j)] == Some(v as usize) by {
                    if v != u2 || j != k {
                        let t2 = g[v][j].0;
                        let x: int = (g[t2 as int].len() + in_rows(g, t2, v) + row_count(g[v], t2, j)) as int;
                        let y: int = g[v3 as int].len() + in_idx;
                        lemma_in_order(g, t2, v, j, u2 as int, k as int);
                        assert(ni0[t2 as int] == in_rows(g, t2, u2 as int) + row_count(g[u2 as int], t2, k as int));
                        assert(ni0[t2 as int] + g[t2 as int].len() <= port_counts@[t2 as int]);
                        if t2 != v3 {
                            lemma_ports_differ(port_counts@, t2 as int, x, v3 as int, y);
                        }
                        assert(eport(g, port_base@, v, j) != in_port as int);
                        assert(in_port_source@[eport(g, port_base@, v, j)] == ips0[eport(g, port_base@, v, j)]);
                    }
                }
            }
            let ghost b0 = in_ports_by_node@;
            in_ports_by_node[v3].push(in_port);
            proof {
                let a1 = adj(adjacency@);
                assert forall|x: int, y: int| 0 <= x < a1.len() && 0 <= y < a1[x].len() implies #[trigger] a1[x][y].0 < a1.len() by {
                    if x == out_port && y == a0[x].len() {
                    } else {
                        assert(a1[x][y] == a0[x][y]);
                    }
                }
                assert forall|x: int| 0 <= x < n implies (#[trigger] in_ports_by_node@[x])@.len() == next_in@[x] by {
                    if x != v3 {
                        assert(in_ports_by_node@[x] == b0[x]);
                    }
                }
                assert forall|x: int, i: int| 0 <= x < n && 0 <= i < in_ports_by_node@[x]@.len()
                    implies #[trigger] in_ports_by_node@[x]@[i] == port_base@[x] + g[x].len() + i by {
                    if x != v3 {
                        assert(in_ports_by_node@[x] == b0[x]);
                    } else if i < b0[x]@.len() {
                        assert(in_ports_by_node@[x]@[i] == b0[x]@[i]);
                    }
                }
                assert forall|x: int, kk: int| 0 <= x < n && 0 <= kk < in_ports_by_node@[x]@.len() implies #[trigger] in_ports_by_node@[x]@[kk] < total by {
                    if x == v3 && kk == b0[x]@.len() {
                    } else if x == v3 {
                        assert(in_ports_by_node@[x]@[kk] == b0[x]@[kk]);
                    } else {
                        assert(in_ports_by_node@[x] == b0[x]);
                    }
                }
            }
            k = k + 1;
        }
        proof {
            assert forall|x: usize| x < n implies #[trigger] next_in@[x as int] == in_rows(g, x, u2 + 1) by {
                assert(in_rows(g, x, u2 + 1) == in_rows(g, x, u2 as int) + row_count(g[u2 as int], x, g[u2 as int].len() as int));
            }
        }
        u2 = u2 + 1;
    }
    let start_port = port_base[start];
    proof {
        assert(port_base@[start as int] + port_counts@[start as int] <= total);
        assert forall|y: int| 0 <= y < n implies node_ports(g, start, y) <= #[trigger] port_counts@[y] by {
            assert(next_in@[(y as usize) as int] == in_count(g, y as usize));
        }
        lemma_sum_bounds(g, start, port_counts@, n as int);
        assert(ports_before(g, start, n as int) <= usize::MAX);
        assert forall|y: int| 0 <= y < n implies #[trigger] port_counts@[y] <= node_ports(g, start, y) by {}
        assert forall|x: int| 0 <= x < n implies #[trigger] port_base@[x] == ports_before(g, start, x) by {
            lemma_sum_bounds(g, start, port_counts@, x);
        }
        assert forall|v: int, j: int| 0 <= v < n && 0 <= j < node_ports(g, start, v)
            implies #[trigger] final_port(adjacency@, g, start, v, j) by {
            assert(port_counts@[v] == node_ports(g, start, v));
            assert(port_state(adjacency@, port_base@, port_counts@, g, v, j, j < g[v].len()));
            assert(port_base@[v] == ports_before(g, start, v));
            if j < g[v].len() {
                let t = g[v][j].0 as int;
                assert(port_base@[t] == ports_before(g, start, t));
                assert(entry_port(g, |x: int| port_base@[x] as int, v, j) == entry_port(g, |x: int| ports_before(g, start, x) as int, v, j));
            }
        }
        assert forall|v: int, j: int| 0 <= v < n && 0 <= j < successors@[v]@.len()
            implies in_port_source@[#[trigger] graph_entry(g, start, v, j)] == Some(v as usize) by {
            assert(successors@[v]@.len() == g[v].len());
            let t = g[v][j].0 as int;
            assert(port_base@[t] == ports_before(g, start, t));
            assert(eport(g, port_base@, v, j) == graph_entry(g, start, v, j));
        }
        assert forall|v: int| 0 <= v < n implies (#[trigger] in_ports_by_node@[v])@.len() == in_count(g, v as usize) by {
            assert(next_in@[(v as usize) as int] == in_rows(g, v as usize, n as int));
        }
        assert forall|v: int, i: int| 0 <= v < n && 0 <= i < in_ports_by_node@[v]@.len()
            implies #[trigger] in_ports_by_node@[v]@[i] == ports_before(g, start, v) + successors@[v]@.len() + i by {
            assert(successors@[v]@.len() == g[v].len());
        }
        assert forall|p: int| 0 <= p < adjacency@.len() implies (#[trigger] adjacency@[p])@.len() <= 2 by {
            lemma_port_owner(g, start, p, n as int);
            let u = choose|u: int| 0 <= u < n && #[trigger] ports_before(g, start, u) <= p < ports_before(g, start, u) + node_ports(g, start, u);
            let j = p - ports_before(g, start, u);
            assert(final_port(adjacency@, g, start, u, j));
            assert(ports_before(g, start, u) + j == p);
        }
    }
    Some(PortGraph { adjacency, in_ports_by_node, in_port_source, start_port })
}

/// Compute all reachable nodes from a starting point as well as the minimum
/// cost to reach them and a possible optimal parent node, using the BMSSP-based
/// algorithm on the port graph of the adjacency lists `successors`, whose
/// weights must not be negative.
///
/// Slot `v` of the result holds `Some((parent, cost))` for each node `v` that
/// the start reaches, the start itself excepted, and `None` for the others. A
/// result of the recursion that fails its check is replaced by the result of
/// Dijkstra's algorithm.
pub fn bmssp_all_indexed<C: Weight>(start: usize, successors: &[Vec<(usize, C)>], number_of_nodes: usize)
    -> (r: Vec<Option<(usize, C)>>)
    requires
        number_of_nodes == successors@.len(),
        number_of_nodes == 0 || start < number_of_nodes,
        wf(adj(successors@)),
        nonneg(adj(successors@)),
        costs_fit(adj(successors@), start),
    ensures
        number_of_nodes == 0 ==> r@.len() == 0,
        number_of_nodes > 0 ==> shortest_table(adj(successors@), start, r@),
{
    let ghost g = adj(successors@);
    if number_of_nodes == 0 {
        return Vec::new();
    }
    let n = number_of_nodes;
    match build_port_graph(start, successors) {
        Some(pg) => {
            let port_count = pg.adjacency.len();
            let logn = log2_ceil(if n > 2 { n } else { 2 });
            let k0 = cube_root_floor(logn);
            let k = if k0 > 1 { k0 } else { 1 };
            proof {
                assert(logn * logn <= 65 * 65) by (nonlinear_arith)
                    requires logn <= 65;
            }
            let t0 = cube_root_floor(sat_mul(logn, logn));
            let t = if t0 > 1 { t0 } else { 1 };
            let l = logn / t + if logn % t == 0 { 0 } else { 1 };
            let params = Params { k, t, l };
            let start_label = Label { cost: C::zero(), hops: 0, node: pg.start_port, pred: usize::MAX };
            let mut ctx = IndexedContext::new(port_count, pg.start_port, start_label, Ghost(adj(pg.adjacency@)));
            let mut sources: Vec<usize> = Vec::new();
            sources.push(pg.start_port);
            let _ = bmssp_rec(&mut ctx, params.l, None, &sources, &params, pg.adjacency.as_slice(), Ghost(pg.start_port));
            let mut out: Vec<Option<(usize, C)>> = Vec::new();
            let mut idx: usize = 0;
            while idx < n
                invariant
                    pg.wf(n as nat),
                    ctx.wf(pg.adjacency@.len() as nat),
                    idx <= n,
                    out@.len() == idx,
                decreases n - idx,
            {
                let mut entry: Option<(usize, C)> = None;
                if idx != start {
                    let mut best: Option<(Label<C>, usize)> = None;
                    let ports = &pg.in_ports_by_node[idx];
                    let mut j: usize = 0;
                    while j < ports.len()
                        invariant
                            pg.wf(n as nat),
                            ctx.wf(pg.adjacency@.len() as nat),
                            idx < n,
                            ports@ == pg.in_ports_by_node@[idx as int]@,
                            j <= ports@.len(),
                            best matches Some(b) ==> b.1 < pg.adjacency@.len(),
                        decreases ports@.len() - j,
                    {
                        let port = ports[j];
                        proof { assert(pg.in_ports_by_node@[idx as int]@[j as int] < pg.adjacency@.len()); }
                        match ctx.states[port].label {
                            Some(label) => {
                                best = match best {
                                    None => Some((label, port)),
                                    Some((b, bp)) => if label_lt(&label, &b) { Some((label, port)) } else { Some((b, bp)) },
                                };
                            },
                            None => {},
                        }
                        j = j + 1;
                    }
                    match best {
                        Some((label, port)) => {
                            match pg.in_port_source[port] {
                                Some(pred) => {
                                    entry = Some((pred, label.cost));
                                },
                                None => {},
                            }
                        },
                        None => {},
                    }
                }
                out.push(entry);
                idx = idx + 1;
            }
            if certify(start, successors, &out) {
                out
            } else {
                dijkstra_all_indexed(start, successors)
            }
        },
        None => dijkstra_all_indexed(start, successors),
    }
}

/// The table of shortest paths that Dijkstra's algorithm gives, where the
/// recursion could not be completed or its table did not check.
fn dijkstra_all_indexed<C: Weight>(start: usize, adjacency: &[Vec<(usize, C)>]) -> (r: Vec<Option<(usize, C)>>)
    requires
        start < adjacency@.len(),
        wf(adj(adjacency@)),
        nonneg(adj(adjacency@)),
        costs_fit(adj(adjacency@), start),
    ensures
        shortest_table(adj(adjacency@), start, r@),
{
    let r = crate::directed::dijkstra::dijkstra_all(start, adjacency);
    proof { lemma_dijkstra_shortest(adj(adjacency@), start, r@); }
    r
}

/// What Dijkstra's algorithm gives is a table of shortest paths.
proof fn lemma_dijkstra_shortest<C: Weight>(g: Seq<Seq<(usize, C)>>, start: usize, r: Seq<Option<(usize, C)>>)
    requires
        table_ok(g, start, r),
        forall|v: usize| v < g.len() && v != start ==> (r[v as int] is Some <==> #[trigger] wreach(g, start, v)),
        forall|v: usize| v < g.len() && #[trigger] in_table(r, start, v) ==> is_dist(g, start, v, entry_cost(r, start, v)),
        exists|rank: Seq<int>| #[trigger] ranked(r, start, rank),
    ensures
        shortest_table(g, start, r),
{
}

/// Follow the parents of a table of shortest paths from `target` back to the
/// start, and give the path from the start to `target` that they make.
fn build_path_indexed<C: Weight>(
    target: usize,
    parents: &Vec<Option<(usize, C)>>,
    start: usize,
    Ghost(g): Ghost<Seq<Seq<(usize, C)>>>,
) -> (r: Vec<usize>)
    requires
        wf(g),
        start < g.len(),
        shortest_table(g, start, parents@),
        target < g.len(),
        in_table(parents@, start, target),
    ensures
        crate::spec::distinct(r@),
        exists|e: Seq<int>| #[trigger] is_wpath(g, r@, e, start, target) && walk_cost(g, r@, e) == entry_cost(parents@, start, target),
{
    let ghost r0 = parents@;
    let ghost rank = choose|rank: Seq<int>| #[trigger] ranked(r0, start, rank);
    let mut rev: Vec<usize> = Vec::new();
    rev.push(target);
    let mut next = target;
    let ghost mut e: Seq<int> = Seq::empty();
    proof {
        assert(rev@.reverse() =~= seq![target]);
        assert(walk_cost(g, seq![target], e) == 0);
    }
    while next < parents.len() && parents[next].is_some()
        invariant
            wf(g),
            r0 == parents@,
            ranked(r0, start, rank),
            table_ok(g, start, r0),
            next < g.len(),
            in_table(r0, start, next),
            rev@.len() >= 1,
            rev@[0] == target,
            rev@[rev@.len() - 1] == next,
            is_wpath(g, rev@.reverse(), e, next, target),
            walk_cost(g, rev@.reverse(), e) == entry_cost(r0, start, target) - entry_cost(r0, start, next),
            forall|j: int| 0 <= j < rev@.len() ==> #[trigger] rev@[j] < r0.len(),
            forall|i: int, j: int| 0 <= i < j < rev@.len() ==> rank[#[trigger] rev@[i] as int] > rank[#[trigger] rev@[j] as int],
        decreases rank[next as int],
    {
        let p = match parents[next] {
            Some((p, _)) => p,
            None => next,
        };
        proof {
            assert(entry_ok(g, start, r0, next as int));
            let k = choose|k: int| 0 <= k < g[p as int].len() && #[trigger] g[p as int][k].0 == next
                && r0[next as int]->Some_0.1.val() == entry_cost(r0, start, p) + g[p as int][k].1.val();
            let q = rev@.reverse();
            crate::spec::lemma_wpath_prepend(g, q, e, p, k, target);
            crate::directed::dijkstra::lemma_reverse_push(rev@, p);
            e = seq![k] + e;
            assert(next != start);
            assert(0 <= rank[p as int] < rank[next as int]);
        }
        let ghost v0 = rev@;
        rev.push(p);
        proof {
            assert(rev@ == v0.push(p));
            assert forall|i: int, j: int| 0 <= i < j < rev@.len() implies rank[#[trigger] rev@[i] as int] > rank[#[trigger] rev@[j] as int] by {
                if j == v0.len() {
                    assert(rank[v0[i] as int] >= rank[next as int]);
                } else {
                    assert(rev@[i] == v0[i] && rev@[j] == v0[j]);
                }
            }
        }
        next = p;
    }
    proof {
        assert(next == start);
    }
    let r = crate::directed::dijkstra::reversed(&rev);
    proof {
        assert forall|a: int, b: int| 0 <= a < b < r@.len() implies r@[a] != r@[b] by {
            assert(r@[a] == rev@[rev@.len() - 1 - a]);
            assert(r@[b] == rev@[rev@.len() - 1 - b]);
            assert(rank[rev@[rev@.len() - 1 - b] as int] > rank[rev@[rev@.len() - 1 - a] as int]);
        }
    }
    r
}

/// Compute a shortest path using the BMSSP-based algorithm: the table of all
/// reachable nodes first, then the path to a node where `success` holds of
/// least cost.
pub fn bmssp_indexed<C: Weight, FS: Fn(usize) -> bool>(
    start: usize,
    successors: &[Vec<(usize, C)>],
    success: FS,
    number_of_nodes: usize,
) -> (r: Option<(Vec<usize>, C)>)
    requires
        number_of_nodes == successors@.len(),
        number_of_nodes == 0 || start < number_of_nodes,
        wf(adj(successors@)),
        nonneg(adj(successors@)),
        costs_fit(adj(successors@), start),
        is_predicate(success),
    ensures
        number_of_nodes == 0 ==> r is None,
        number_of_nodes > 0 ==> match r {
            Some((p, c)) => cheapest_goal_path(adj(successors@), p@, c.val(), start, pred_of(success))
                && crate::spec::distinct(p@),
            None => no_goal_wpath(adj(successors@), start, pred_of(success)),
        },
        number_of_nodes > 0 && crate::spec::holds(success, start) ==> (r matches Some((p, c)) && p@ == seq![start] && c.val() == 0),
{
    let ghost g = adj(successors@);
    if number_of_nodes == 0 {
        return None;
    }
    let goal = crate::spec::FnGoal { f: success };
    let ghost pred = pred_of(goal.f);
    if goal.test(start) {
        let mut path: Vec<usize> = Vec::new();
        path.push(start);
        proof {
            let e = Seq::<int>::empty();
            assert(is_wpath(g, path@, e, start, start));
            assert(walk_cost(g, path@, e) == 0);
            assert forall|t: usize, q: Seq<usize>, e2: Seq<int>| #[trigger] is_wpath(g, q, e2, start, t) && pred(t)
                implies walk_cost(g, q, e2) >= 0 by {
                crate::spec::lemma_walk_prefix(g, q, e2, start, t, 0);
                assert(e2.take(0) =~= Seq::<int>::empty());
            }
            assert(crate::spec::distinct(path@));
        }
        return Some((path, C::zero()));
    }
    let parents = bmssp_all_indexed(start, successors, number_of_nodes);
    let n = number_of_nodes;
    let mut best: Option<(usize, C)> = None;
    let mut node: usize = 0;
    while node < n
        invariant
            g == adj(successors@),
            n == g.len(),
            start < n,
            shortest_table(g, start, parents@),
            goal.ready(),
            pred == goal.pred(),
            !pred(start),
            node <= n,
            best matches Some(b) ==> b.0 < n && b.0 != start && parents@[b.0 as int] is Some && pred(b.0)
                && b.1.val() == entry_cost(parents@, start, b.0),
            forall|v: usize| v < node && v != start && parents@[v as int] is Some && #[trigger] pred(v)
                ==> (best matches Some(b) && b.1.val() <= entry_cost(parents@, start, v)),
        decreases n - node,
    {
        match parents[node] {
            Some((_, cost)) => {
                if goal.test(node) {
                    let better = match best {
                        None => true,
                        Some((_, bc)) => cost.lt(&bc),
                    };
                    if better {
                        best = Some((node, cost));
                    }
                }
            },
            None => {},
        }
        node = node + 1;
    }
    match best {
        Some((t, c)) => {
            let path = build_path_indexed(t, &parents, start, Ghost(g));
            proof {
                assert(in_table(parents@, start, t));
                assert(is_dist(g, start, t, entry_cost(parents@, start, t)));
                assert forall|w: usize, q: Seq<usize>, e: Seq<int>| #[trigger] is_wpath(g, q, e, start, w) && pred(w)
                    implies walk_cost(g, q, e) >= c.val() by {
                    assert(w != start);
                    assert(wreach(g, start, w));
                    assert(w < g.len());
                    assert(parents@[w as int] is Some);
                    assert(in_table(parents@, start, w));
                    assert(is_dist(g, start, w, entry_cost(parents@, start, w)));
                }
                let e = choose|e: Seq<int>| #[trigger] is_wpath(g, path@, e, start, t) && walk_cost(g, path@, e) == entry_cost(parents@, start, t);
                assert(path@[path@.len() - 1] == t);
            }
            Some((path, c))
        },
        None => {
            proof {
                assert forall|w: usize, q: Seq<usize>, e: Seq<int>| #[trigger] is_wpath(g, q, e, start, w) implies !pred(w) by {
                    if pred(w) {
                        assert(w != start);
                        assert(wreach(g, start, w));
                        assert(w < g.len());
                    }
                }
            }
            None
        },
    }
}

} // verus!
