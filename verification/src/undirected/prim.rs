//! Minimum spanning trees by Prim's algorithm.

use vstd::prelude::*;
use crate::weight::Weight;
use crate::spec::{edge, lemma_reach_self, lemma_reach_step};
use crate::undirected::kruskal::{connected, edge_graph, ends_below, joins,
    lemma_edge_graph};

verus! {

/// The edge `(a, b, c)`, or its reverse, is an edge of the list.
pub open spec fn listed_either<C>(es: Seq<(usize, usize, C)>, e: (usize, usize, C)) -> bool {
    es.contains(e) || es.contains((e.1, e.0, e.2))
}

/// The nodes of the tree grown from `first` by the first `i` edges of `t`:
/// `first` and the node each of those edges leads to.
pub open spec fn in_tree<C>(first: usize, t: Seq<(usize, usize, C)>, i: int, v: usize) -> bool {
    v == first || exists|j: int| 0 <= j < i && (#[trigger] t[j]).1 == v
}

/// Edge `i` of the tree leads from a node of the tree grown so far to a node
/// outside it, and no edge of the list that crosses between the two weighs
/// less.
pub open spec fn greedy_step<C: Weight>(es: Seq<(usize, usize, C)>, first: usize, t: Seq<(usize, usize, C)>, i: int) -> bool {
    &&& in_tree(first, t, i, t[i].0)
    &&& !in_tree(first, t, i, t[i].1)
    &&& forall|k: int| 0 <= k < es.len() && (in_tree(first, t, i, (#[trigger] es[k]).0) != in_tree(first, t, i, es[k].1))
        ==> t[i].2.val() <= es[k].2.val()
}

/// The nodes below `n` of the tree grown from `first` by the first `i` edges of `t`.
pub open spec fn tree_nodes<C>(n: nat, first: usize, t: Seq<(usize, usize, C)>, i: int) -> Set<usize> {
    Set::new(|v: usize| v < n && in_tree(first, t, i, v))
}

/// A tree grown one new node per edge has one node more than it has edges.
proof fn lemma_tree_nodes_len<C: Weight>(n: nat, es: Seq<(usize, usize, C)>, first: usize, t: Seq<(usize, usize, C)>, i: int)
    requires
        first < n,
        0 <= i <= t.len(),
        forall|j: int| 0 <= j < t.len() ==> (#[trigger] t[j]).1 < n,
        forall|j: int| 0 <= j < t.len() ==> #[trigger] greedy_step(es, first, t, j),
    ensures
        tree_nodes(n, first, t, i).finite(),
        tree_nodes(n, first, t, i).len() == i + 1,
    decreases i,
{
    let full = Set::new(|v: usize| v < n);
    assert(full =~= vstd::set_lib::set_int_range(0, n as int).map(|x: int| x as usize)) by {
        assert forall|v: usize| full.contains(v) implies vstd::set_lib::set_int_range(0, n as int).map(|x: int| x as usize).contains(v) by {
            assert(vstd::set_lib::set_int_range(0, n as int).contains(v as int));
        }
    }
    vstd::set_lib::lemma_int_range(0, n as int);
    vstd::set_lib::set_int_range(0, n as int).lemma_map_finite(|x: int| x as usize);
    assert(tree_nodes(n, first, t, i).subset_of(full));
    vstd::set_lib::lemma_len_subset(tree_nodes(n, first, t, i), full);
    if i == 0 {
        assert(tree_nodes(n, first, t, 0) =~= set![first]);
    } else {
        lemma_tree_nodes_len(n, es, first, t, i - 1);
        assert(greedy_step(es, first, t, i - 1));
        assert(tree_nodes(n, first, t, i) =~= tree_nodes(n, first, t, i - 1).insert(t[i - 1].1)) by {
            assert forall|v: usize| #[trigger] tree_nodes(n, first, t, i).contains(v)
                implies tree_nodes(n, first, t, i - 1).insert(t[i - 1].1).contains(v) by {
                if v != first && v != t[i - 1].1 {
                    let j = choose|j: int| 0 <= j < i && (#[trigger] t[j]).1 == v;
                    assert(j < i - 1);
                }
            }
            assert forall|v: usize| #[trigger] tree_nodes(n, first, t, i - 1).insert(t[i - 1].1).contains(v)
                implies tree_nodes(n, first, t, i).contains(v) by {
                if v != first && v != t[i - 1].1 {
                    let j = choose|j: int| 0 <= j < i - 1 && (#[trigger] t[j]).1 == v;
                    assert(t[j].1 == v);
                }
            }
        }
        assert(!tree_nodes(n, first, t, i - 1).contains(t[i - 1].1));
    }
}

/// The nodes below `n` that the edges of `es` connect to `a`.
pub open spec fn component<C>(n: nat, es: Seq<(usize, usize, C)>, a: usize) -> Set<usize> {
    Set::new(|v: usize| v < n && connected(n, es, a, v))
}

/// A tree that Prim's algorithm can give, grown from the first node of the
/// first edge, has one edge fewer than the nodes connected to that node.
pub proof fn lemma_prim_edge_count<C: Weight>(n: nat, es: Seq<(usize, usize, C)>, t: Seq<(usize, usize, C)>)
    requires
        ends_below(n, es),
        es.len() > 0,
        forall|i: int| 0 <= i < t.len() ==> listed_either(es, #[trigger] t[i]),
        forall|i: int| 0 <= i < t.len() ==> #[trigger] greedy_step(es, es[0].0, t, i),
        forall|v: usize| v < n ==> (in_tree(es[0].0, t, t.len() as int, v) <==> #[trigger] connected(n, es, es[0].0, v)),
    ensures
        component(n, es, es[0].0).finite(),
        t.len() + 1 == component(n, es, es[0].0).len(),
{
    let first = es[0].0;
    assert(first < n);
    assert forall|j: int| 0 <= j < t.len() implies (#[trigger] t[j]).1 < n by {
        assert(listed_either(es, t[j]));
        if es.contains(t[j]) {
            let k = choose|k: int| 0 <= k < es.len() && es[k] == t[j];
            assert(es[k].1 < n);
        } else {
            let k = choose|k: int| 0 <= k < es.len() && es[k] == (t[j].1, t[j].0, t[j].2);
            assert(es[k].0 < n);
        }
    }
    lemma_tree_nodes_len(n, es, first, t, t.len() as int);
    assert(component(n, es, first) =~= tree_nodes(n, first, t, t.len() as int));
}

/// The adjacency lists of the edges: each edge is listed at both ends with its
/// weight, and every entry comes from an edge.
spec fn lists_ok<C>(n: nat, es: Seq<(usize, usize, C)>, lists: Seq<Seq<(usize, C)>>, done: int) -> bool {
    &&& lists.len() == n
    &&& forall|x: int, j: int| 0 <= x < n && 0 <= j < lists[x].len() ==> #[trigger] listed_either(es, (x as usize, lists[x][j].0, lists[x][j].1))
        && lists[x][j].0 < n
    &&& forall|k: int| 0 <= k < done ==> lists[(#[trigger] es[k]).0 as int].contains((es[k].1, es[k].2))
        && lists[es[k].1 as int].contains((es[k].0, es[k].2))
}

/// The search state: the visited nodes are those of the tree, and each edge
/// that leaves the tree waits in the queue.
spec fn grow_ok<C: Weight>(
    n: nat,
    es: Seq<(usize, usize, C)>,
    first: usize,
    mst: Seq<(usize, usize, C)>,
    visited: Seq<bool>,
    heap: Seq<(C, usize, usize)>,
) -> bool {
    &&& visited.len() == n
    &&& first < n
    &&& forall|v: usize| v < n ==> (visited[v as int] <==> #[trigger] in_tree(first, mst, mst.len() as int, v))
    &&& forall|v: usize| v < n && #[trigger] visited[v as int] ==> connected(n, es, first, v)
    &&& forall|h: int| 0 <= h < heap.len() ==> (#[trigger] heap[h]).1 < n && heap[h].2 < n && visited[heap[h].1 as int]
        && listed_either(es, (heap[h].1, heap[h].2, heap[h].0))
    &&& forall|k: int| 0 <= k < es.len() && visited[(#[trigger] es[k]).0 as int] && !visited[es[k].1 as int]
        ==> heap.contains((es[k].2, es[k].0, es[k].1))
    &&& forall|k: int| 0 <= k < es.len() && visited[(#[trigger] es[k]).1 as int] && !visited[es[k].0 as int]
        ==> heap.contains((es[k].2, es[k].1, es[k].0))
    &&& forall|i: int| 0 <= i < mst.len() ==> listed_either(es, #[trigger] mst[i])
    &&& forall|i: int| 0 <= i < mst.len() ==> #[trigger] greedy_step(es, first, mst, i)
}

/// An edge that is listed, in either direction, joins its ends.
proof fn lemma_listed_joins<C>(es: Seq<(usize, usize, C)>, e: (usize, usize, C))
    requires
        listed_either(es, e),
    ensures
        joins(es, e.0, e.1),
{
    if es.contains(e) {
        let k = choose|k: int| 0 <= k < es.len() && es[k] == e;
        assert(es[k].0 == e.0 && es[k].1 == e.1);
    } else {
        let k = choose|k: int| 0 <= k < es.len() && es[k] == (e.1, e.0, e.2);
        assert(es[k].0 == e.1 && es[k].1 == e.0);
    }
}

/// Growing the tree by one edge keeps what held of the earlier steps.
proof fn lemma_tree_push<C: Weight>(es: Seq<(usize, usize, C)>, first: usize, t: Seq<(usize, usize, C)>, x: (usize, usize, C))
    requires
        forall|i: int| 0 <= i < t.len() ==> #[trigger] greedy_step(es, first, t, i),
    ensures
        forall|i: int| 0 <= i < t.len() ==> #[trigger] greedy_step(es, first, t.push(x), i),
        forall|i: int, v: usize| 0 <= i <= t.len() ==> (#[trigger] in_tree(first, t.push(x), i, v) <==> in_tree(first, t, i, v)),
{
    let t2 = t.push(x);
    assert forall|i: int, v: usize| 0 <= i <= t.len() implies (#[trigger] in_tree(first, t2, i, v) <==> in_tree(first, t, i, v)) by {
        if in_tree(first, t2, i, v) && v != first {
            let j = choose|j: int| 0 <= j < i && (#[trigger] t2[j]).1 == v;
            assert(t[j] == t2[j]);
        }
        if in_tree(first, t, i, v) && v != first {
            let j = choose|j: int| 0 <= j < i && (#[trigger] t[j]).1 == v;
            assert(t2[j] == t[j]);
        }
    }
    assert forall|i: int| 0 <= i < t.len() implies #[trigger] greedy_step(es, first, t2, i) by {
        assert(greedy_step(es, first, t, i));
        assert(t2[i] == t[i]);
        assert(in_tree(first, t2, i, t2[i].0) == in_tree(first, t, i, t[i].0));
        assert(in_tree(first, t2, i, t2[i].1) == in_tree(first, t, i, t[i].1));
        assert forall|k: int| 0 <= k < es.len() && (in_tree(first, t2, i, (#[trigger] es[k]).0) != in_tree(first, t2, i, es[k].1))
            implies t2[i].2.val() <= es[k].2.val() by {
            assert(in_tree(first, t2, i, es[k].0) == in_tree(first, t, i, es[k].0));
            assert(in_tree(first, t2, i, es[k].1) == in_tree(first, t, i, es[k].1));
        }
    }
}

/// Compute a minimum spanning tree of the component of the first node of the
/// first edge, by Prim's algorithm: the tree grows by a lightest edge from it
/// to a node outside it, until no edge leaves it.
///
/// Each result edge, an input edge in one of its two directions, leads from
/// the tree grown so far to a new node and weighs no more than any edge that
/// crosses between the two; the tree ends up holding exactly the nodes
/// connected to the first node.
pub fn prim<C: Weight>(number_of_nodes: usize, edges: &[(usize, usize, C)]) -> (r: Vec<(usize, usize, C)>)
    requires
        ends_below(number_of_nodes as nat, edges@),
    ensures
        edges@.len() == 0 ==> r@.len() == 0,
        edges@.len() > 0 ==> {
            let first = edges@[0].0;
            &&& forall|i: int| 0 <= i < r@.len() ==> listed_either(edges@, #[trigger] r@[i])
            &&& forall|i: int| 0 <= i < r@.len() ==> #[trigger] greedy_step(edges@, first, r@, i)
            &&& forall|v: usize| v < number_of_nodes ==> (in_tree(first, r@, r@.len() as int, v) <==> #[trigger] connected(number_of_nodes as nat, edges@, first, v))
            &&& r@.len() + 1 == component(number_of_nodes as nat, edges@, first).len()
        },
{
    let ghost n = number_of_nodes as nat;
    let ghost es = edges@;
    let mut mst: Vec<(usize, usize, C)> = Vec::new();
    if edges.len() == 0 {
        return mst;
    }
    let m = edges.len();
    let mut lists: Vec<Vec<(usize, C)>> = Vec::new();
    let mut i: usize = 0;
    while i < number_of_nodes
        invariant
            i <= number_of_nodes,
            lists@.len() == i,
            forall|x: int| 0 <= x < i ==> (#[trigger] lists@[x])@.len() == 0,
        decreases number_of_nodes - i,
    {
        lists.push(Vec::new());
        i = i + 1;
    }
    proof {
        let l = crate::spec::adj(lists@);
        assert forall|x: int| 0 <= x < n implies (#[trigger] l[x]).len() == 0 by {
            assert(l[x] == lists@[x]@);
        }
    }
    let mut k: usize = 0;
    while k < m
        invariant
            es == edges@,
            n == number_of_nodes as nat,
            ends_below(n, es),
            k <= m,
            m == es.len(),
            lists@.len() == n,
            lists_ok(n, es, crate::spec::adj(lists@), k as int),
        decreases m - k,
    {
        let (a, b, c) = edges[k];
        proof { assert(es[k as int] == (a, b, c)); }
        let ghost l0 = crate::spec::adj(lists@);
        lists[a].push((b, c));
        let ghost l1 = crate::spec::adj(lists@);
        lists[b].push((a, c));
        proof {
            let l2 = crate::spec::adj(lists@);
            assert(l1 == l0.update(a as int, l0[a as int].push((b, c))));
            assert(l2 == l1.update(b as int, l1[b as int].push((a, c))));
            assert(es.contains((a, b, c)));
            assert forall|x: int, j: int| 0 <= x < n && 0 <= j < l2[x].len() implies #[trigger] listed_either(es, (x as usize, l2[x][j].0, l2[x][j].1))
                && l2[x][j].0 < n by {
                if x == b && j == l1[x].len() {
                } else {
                    assert(l2[x][j] == l1[x][j]);
                    if x == a && j == l0[x].len() {
                    } else {
                        assert(l1[x][j] == l0[x][j]);
                    }
                }
            }
            assert forall|q: int| 0 <= q < k + 1 implies l2[(#[trigger] es[q]).0 as int].contains((es[q].1, es[q].2))
                && l2[es[q].1 as int].contains((es[q].0, es[q].2)) by {
                let y0 = es[q].0 as int;
                let y1 = es[q].1 as int;
                if q < k {
                    let j0 = choose|j: int| 0 <= j < l0[y0].len() && l0[y0][j] == (es[q].1, es[q].2);
                    assert(l2[y0][j0] == l0[y0][j0]);
                    let j1 = choose|j: int| 0 <= j < l0[y1].len() && l0[y1][j] == (es[q].0, es[q].2);
                    assert(l2[y1][j1] == l0[y1][j1]);
                } else {
                    assert(l1[a as int][l0[a as int].len() as int] == (b, c));
                    assert(l2[a as int][l0[a as int].len() as int] == (b, c));
                    assert(l2[b as int][l1[b as int].len() as int] == (a, c));
                }
            }
        }
        k = k + 1;
    }
    let first = edges[0].0;
    proof { assert(es[0].0 < n); }
    let mut visited: Vec<bool> = Vec::new();
    let mut i2: usize = 0;
    while i2 < number_of_nodes
        invariant
            i2 <= number_of_nodes,
            visited@.len() == i2,
            forall|x: int| 0 <= x < i2 ==> !#[trigger] visited@[x],
        decreases number_of_nodes - i2,
    {
        visited.push(false);
        i2 = i2 + 1;
    }
    let ghost unvisited = visited@;
    visited.set(first, true);
    let mut heap: Vec<(C, usize, usize)> = Vec::new();
    let ghost mut seen: Seq<usize> = seq![first];
    proof {
        assert forall|v: usize| v < n && #[trigger] visited@[v as int] implies seen.contains(v) by {
            if v != first {
                assert(!unvisited[v as int]);
            }
            assert(seen[0] == first);
        }
        lemma_edge_graph(n, es);
        lemma_reach_self(edge_graph(n, es), first);
        assert forall|v: usize| v < n implies (visited@[v as int] <==> #[trigger] in_tree(first, mst@, mst@.len() as int, v)) by {}
        assert(grow_ok_but_b(n, es, first, mst@, visited@, heap@, first));
    }
    let ghost h_before = heap@;
    proof {
        lemma_list_entries(n, es, crate::spec::adj(lists@), first);
        assert(lists@[first as int]@ == crate::spec::adj(lists@)[first as int]);
    }
    push_edges(&mut heap, &lists[first], &visited, first, Ghost(n), Ghost(es));
    proof {
        assert(lists@[first as int]@ == crate::spec::adj(lists@)[first as int]);
        lemma_after_push(n, es, first, mst@, visited@, h_before, heap@, crate::spec::adj(lists@), first);
    }
    while heap.len() > 0
        invariant
            es == edges@,
            n == number_of_nodes as nat,
            ends_below(n, es),
            lists@.len() == n,
            lists_ok(n, es, crate::spec::adj(lists@), es.len() as int),
            grow_ok(n, es, first, mst@, visited@, heap@),
            es.len() > 0,
            first == es[0].0,
            seen.len() >= 1,
            forall|a: int, b: int| 0 <= a < b < seen.len() ==> #[trigger] seen[a] != #[trigger] seen[b],
            forall|j: int| 0 <= j < seen.len() ==> #[trigger] seen[j] < n && visited@[seen[j] as int],
            forall|v: usize| v < n && #[trigger] visited@[v as int] ==> seen.contains(v),
        decreases n - seen.len(), heap@.len(),
    {
        proof { crate::directed::bfs::lemma_seq_distinct_len(seen, n); }
        let mut best: usize = 0;
        let mut j: usize = 1;
        while j < heap.len()
            invariant
                best < heap@.len(),
                j <= heap@.len(),
                forall|q: int| 0 <= q < j ==> heap@[best as int].0.val() <= (#[trigger] heap@[q]).0.val(),
            decreases heap@.len() - j,
        {
            if heap[j].0.lt(&heap[best].0) {
                best = j;
            }
            j = j + 1;
        }
        let (c, a, b) = heap[best];
        let ghost h0 = heap@;
        heap.swap_remove(best);
        proof {
            assert(h0[best as int] == (c, a, b));
        }
        if visited[b] {
            proof {
                lemma_drop_entry(n, es, first, mst@, visited@, h0, best as int);
                assert(heap@ == h0.update(best as int, h0.last()).drop_last());
            }
            continue;
        }
        let ghost m0 = mst@;
        let ghost v0 = visited@;
        let ghost s0 = seen;
        visited.set(b, true);
        mst.push((a, b, c));
        proof {
            seen = seen.push(b);
            assert(heap@ == h0.update(best as int, h0.last()).drop_last());
            lemma_grow(n, es, first, m0, v0, h0, best as int);
            assert(mst@ == m0.push((a, b, c)));
            assert(visited@ == v0.update(b as int, true));
            assert(grow_ok_but_b(n, es, first, mst@, visited@, heap@, b));
            assert forall|x: int, y: int| 0 <= x < y < seen.len() implies #[trigger] seen[x] != #[trigger] seen[y] by {
                if y == seen.len() - 1 {
                    assert(v0[seen[x] as int]);
                }
            }
            assert forall|v: usize| v < n && #[trigger] visited@[v as int] implies seen.contains(v) by {
                if v == b {
                    assert(seen[seen.len() - 1] == b);
                } else {
                    assert(v0[v as int]);
                    assert(s0.contains(v));
                    let q = choose|q: int| 0 <= q < s0.len() && s0[q] == v;
                    assert(seen[q] == v);
                }
            }
            assert forall|x: int| 0 <= x < seen.len() implies #[trigger] seen[x] < n by {
                if x < s0.len() {
                    assert(seen[x] == s0[x]);
                }
            }
            crate::directed::bfs::lemma_seq_distinct_len(seen, n);
        }
        let ghost h_mid = heap@;
        proof {
            lemma_list_entries(n, es, crate::spec::adj(lists@), b);
            assert(lists@[b as int]@ == crate::spec::adj(lists@)[b as int]);
        }
        push_edges(&mut heap, &lists[b], &visited, b, Ghost(n), Ghost(es));
        proof {
            assert(lists@[b as int]@ == crate::spec::adj(lists@)[b as int]);
            lemma_after_push(n, es, first, mst@, visited@, h_mid, heap@, crate::spec::adj(lists@), b);
        }
    }
    proof {
        lemma_closed_tree(n, es, first, mst@, visited@, heap@);
        lemma_prim_edge_count(n, es, mst@);
    }
    mst
}

/// The state holds, except that the edges from `b` to unvisited nodes are not
/// yet in the queue.
spec fn grow_ok_but_b<C: Weight>(
    n: nat,
    es: Seq<(usize, usize, C)>,
    first: usize,
    mst: Seq<(usize, usize, C)>,
    visited: Seq<bool>,
    heap: Seq<(C, usize, usize)>,
    b: usize,
) -> bool {
    &&& visited.len() == n
    &&& first < n
    &&& b < n
    &&& visited[b as int]
    &&& forall|v: usize| v < n ==> (visited[v as int] <==> #[trigger] in_tree(first, mst, mst.len() as int, v))
    &&& forall|v: usize| v < n && #[trigger] visited[v as int] ==> connected(n, es, first, v)
    &&& forall|h: int| 0 <= h < heap.len() ==> (#[trigger] heap[h]).1 < n && heap[h].2 < n && visited[heap[h].1 as int]
        && listed_either(es, (heap[h].1, heap[h].2, heap[h].0))
    &&& forall|k: int| 0 <= k < es.len() && visited[(#[trigger] es[k]).0 as int] && !visited[es[k].1 as int] && es[k].0 != b
        ==> heap.contains((es[k].2, es[k].0, es[k].1))
    &&& forall|k: int| 0 <= k < es.len() && visited[(#[trigger] es[k]).1 as int] && !visited[es[k].0 as int] && es[k].1 != b
        ==> heap.contains((es[k].2, es[k].1, es[k].0))
    &&& forall|i: int| 0 <= i < mst.len() ==> listed_either(es, #[trigger] mst[i])
    &&& forall|i: int| 0 <= i < mst.len() ==> #[trigger] greedy_step(es, first, mst, i)
}

/// The entries of the list of node `x` lead to nodes of the graph along
/// edges of the list.
proof fn lemma_list_entries<C>(n: nat, es: Seq<(usize, usize, C)>, lists: Seq<Seq<(usize, C)>>, x: usize)
    requires
        lists_ok(n, es, lists, 0),
        x < n,
    ensures
        forall|j: int| 0 <= j < lists[x as int].len() ==> (#[trigger] lists[x as int][j]).0 < n
            && listed_either(es, (x, lists[x as int][j].0, lists[x as int][j].1)),
{
    assert forall|j: int| 0 <= j < lists[x as int].len() implies (#[trigger] lists[x as int][j]).0 < n
        && listed_either(es, (x, lists[x as int][j].0, lists[x as int][j].1)) by {
        assert(listed_either(es, ((x as int) as usize, lists[x as int][j].0, lists[x as int][j].1)));
    }
}

/// Queue the edges of the list of `b` that lead to unvisited nodes.
fn push_edges<C: Weight>(
    heap: &mut Vec<(C, usize, usize)>,
    list: &Vec<(usize, C)>,
    visited: &Vec<bool>,
    b: usize,
    Ghost(n): Ghost<nat>,
    Ghost(es): Ghost<Seq<(usize, usize, C)>>,
)
    requires
        visited@.len() == n,
        b < n,
        forall|j: int| 0 <= j < list@.len() ==> (#[trigger] list@[j]).0 < n && listed_either(es, (b, list@[j].0, list@[j].1)),
    ensures
        final(heap)@.len() >= old(heap)@.len(),
        forall|h: int| 0 <= h < old(heap)@.len() ==> #[trigger] final(heap)@[h] == old(heap)@[h],
        forall|h: int| old(heap)@.len() <= h < final(heap)@.len() ==> (#[trigger] final(heap)@[h]).1 == b && final(heap)@[h].2 < n
            && listed_either(es, (b, final(heap)@[h].2, final(heap)@[h].0)),
        forall|j: int| 0 <= j < list@.len() && !visited@[(#[trigger] list@[j]).0 as int] ==> final(heap)@.contains((list@[j].1, b, list@[j].0)),
{
    let ghost h0 = heap@;
    let mut j: usize = 0;
    while j < list.len()
        invariant
            visited@.len() == n,
            b < n,
            forall|q: int| 0 <= q < list@.len() ==> (#[trigger] list@[q]).0 < n && listed_either(es, (b, list@[q].0, list@[q].1)),
            j <= list@.len(),
            heap@.len() >= h0.len(),
            forall|h: int| 0 <= h < h0.len() ==> #[trigger] heap@[h] == h0[h],
            forall|h: int| h0.len() <= h < heap@.len() ==> (#[trigger] heap@[h]).1 == b && heap@[h].2 < n
                && listed_either(es, (b, heap@[h].2, heap@[h].0)),
            forall|q: int| 0 <= q < j && !visited@[(#[trigger] list@[q]).0 as int] ==> heap@.contains((list@[q].1, b, list@[q].0)),
        decreases list@.len() - j,
    {
        let (v, w) = list[j];
        proof { assert(list@[j as int] == (v, w)); }
        if !visited[v] {
            let ghost hb = heap@;
            heap.push((w, b, v));
            proof {
                assert(heap@[hb.len() as int] == (w, b, v));
                assert forall|q: int| 0 <= q < j + 1 && !visited@[(#[trigger] list@[q]).0 as int] implies heap@.contains((list@[q].1, b, list@[q].0)) by {
                    if q < j {
                        let h = choose|h: int| 0 <= h < hb.len() && hb[h] == (list@[q].1, b, list@[q].0);
                        assert(heap@[h] == hb[h]);
                    }
                }
            }
        }
        j = j + 1;
    }
}

/// Queuing the edges from `b` restores the state.
proof fn lemma_after_push<C: Weight>(
    n: nat,
    es: Seq<(usize, usize, C)>,
    first: usize,
    mst: Seq<(usize, usize, C)>,
    visited: Seq<bool>,
    h0: Seq<(C, usize, usize)>,
    h1: Seq<(C, usize, usize)>,
    lists: Seq<Seq<(usize, C)>>,
    b: usize,
)
    requires
        grow_ok_but_b(n, es, first, mst, visited, h0, b),
        lists_ok(n, es, lists, es.len() as int),
        h1.len() >= h0.len(),
        forall|h: int| 0 <= h < h0.len() ==> #[trigger] h1[h] == h0[h],
        forall|h: int| h0.len() <= h < h1.len() ==> (#[trigger] h1[h]).1 == b && h1[h].2 < n
            && listed_either(es, (b, h1[h].2, h1[h].0)),
        forall|j: int| 0 <= j < lists[b as int].len() && !visited[(#[trigger] lists[b as int][j]).0 as int]
            ==> h1.contains((lists[b as int][j].1, b, lists[b as int][j].0)),
    ensures
        grow_ok(n, es, first, mst, visited, h1),
{
    assert forall|h: int| 0 <= h < h1.len() implies (#[trigger] h1[h]).1 < n && h1[h].2 < n && visited[h1[h].1 as int]
        && listed_either(es, (h1[h].1, h1[h].2, h1[h].0)) by {
        if h < h0.len() {
            assert(h1[h] == h0[h]);
        }
    }
    assert forall|k: int| 0 <= k < es.len() && visited[(#[trigger] es[k]).0 as int] && !visited[es[k].1 as int]
        implies h1.contains((es[k].2, es[k].0, es[k].1)) by {
        if es[k].0 == b {
            assert(lists[es[k].0 as int].contains((es[k].1, es[k].2)));
            let j = choose|j: int| 0 <= j < lists[b as int].len() && lists[b as int][j] == (es[k].1, es[k].2);
            assert(!visited[lists[b as int][j].0 as int]);
        } else {
            assert(h0.contains((es[k].2, es[k].0, es[k].1)));
            let h = choose|h: int| 0 <= h < h0.len() && h0[h] == (es[k].2, es[k].0, es[k].1);
            assert(h1[h] == h0[h]);
        }
    }
    assert forall|k: int| 0 <= k < es.len() && visited[(#[trigger] es[k]).1 as int] && !visited[es[k].0 as int]
        implies h1.contains((es[k].2, es[k].1, es[k].0)) by {
        if es[k].1 == b {
            assert(lists[es[k].1 as int].contains((es[k].0, es[k].2)));
            let j = choose|j: int| 0 <= j < lists[b as int].len() && lists[b as int][j] == (es[k].0, es[k].2);
            assert(!visited[lists[b as int][j].0 as int]);
        } else {
            assert(h0.contains((es[k].2, es[k].1, es[k].0)));
            let h = choose|h: int| 0 <= h < h0.len() && h0[h] == (es[k].2, es[k].1, es[k].0);
            assert(h1[h] == h0[h]);
        }
    }
}

/// Dropping a queued edge to a visited node keeps the state.
proof fn lemma_drop_entry<C: Weight>(
    n: nat,
    es: Seq<(usize, usize, C)>,
    first: usize,
    mst: Seq<(usize, usize, C)>,
    visited: Seq<bool>,
    h0: Seq<(C, usize, usize)>,
    at: int,
)
    requires
        grow_ok(n, es, first, mst, visited, h0),
        0 <= at < h0.len(),
        visited[h0[at].2 as int],
    ensures
        grow_ok(n, es, first, mst, visited, h0.update(at, h0.last()).drop_last()),
{
    let h1 = h0.update(at, h0.last()).drop_last();
    assert forall|h: int| 0 <= h < h1.len() implies h1[h] == h0[if h == at { h0.len() - 1 } else { h }] by {}
    assert forall|h: int| 0 <= h < h1.len() implies (#[trigger] h1[h]).1 < n && h1[h].2 < n && visited[h1[h].1 as int]
        && listed_either(es, (h1[h].1, h1[h].2, h1[h].0)) by {
        let j = if h == at { h0.len() - 1 } else { h };
        assert(h1[h] == h0[j]);
    }
    assert forall|z: (C, usize, usize)| h0.contains(z) && !visited[z.2 as int] implies h1.contains(z) by {
        let h = choose|h: int| 0 <= h < h0.len() && h0[h] == z;
        assert(h != at);
        if h == h0.len() - 1 {
            assert(h1[at] == z);
        } else {
            assert(h1[h] == z);
        }
    }
}

/// Taking the lightest queued edge to the unvisited node `b` into the tree.
proof fn lemma_grow<C: Weight>(
    n: nat,
    es: Seq<(usize, usize, C)>,
    first: usize,
    mst: Seq<(usize, usize, C)>,
    visited: Seq<bool>,
    h0: Seq<(C, usize, usize)>,
    at: int,
)
    requires
        grow_ok(n, es, first, mst, visited, h0),
        ends_below(n, es),
        0 <= at < h0.len(),
        !visited[h0[at].2 as int],
        forall|q: int| 0 <= q < h0.len() ==> h0[at].0.val() <= (#[trigger] h0[q]).0.val(),
    ensures
        ({
            let (c, a, b) = h0[at];
            grow_ok_but_b(n, es, first, mst.push((a, b, c)), visited.update(b as int, true),
                h0.update(at, h0.last()).drop_last(), b)
        }),
{
    let (c, a, b) = h0[at];
    let e = (a, b, c);
    let mst2 = mst.push(e);
    let v2 = visited.update(b as int, true);
    let h1 = h0.update(at, h0.last()).drop_last();
    assert forall|h: int| 0 <= h < h1.len() implies h1[h] == h0[if h == at { h0.len() - 1 } else { h }] by {}
    lemma_tree_push(es, first, mst, e);
    let len = mst.len() as int;
    // The tree grows by `b`.
    assert forall|v: usize| v < n implies (v2[v as int] <==> #[trigger] in_tree(first, mst2, mst2.len() as int, v)) by {
        assert(in_tree(first, mst2, len, v) == in_tree(first, mst, len, v));
        if v == b {
            assert(mst2[len].1 == b);
        } else if in_tree(first, mst2, len + 1, v) && v != first {
            let j = choose|j: int| 0 <= j < len + 1 && (#[trigger] mst2[j]).1 == v;
            assert(j < len);
        } else if in_tree(first, mst2, len, v) && v != first {
            let j = choose|j: int| 0 <= j < len && (#[trigger] mst2[j]).1 == v;
        }
    }
    // `b` is connected to the first node through `a`.
    lemma_edge_graph(n, es);
    let g = edge_graph(n, es);
    assert(listed_either(es, (a, b, c)));
    lemma_listed_joins(es, (a, b, c));
    assert(edge(g, a, b));
    lemma_reach_step(g, first, a, b);
    assert forall|v: usize| v < n && #[trigger] v2[v as int] implies connected(n, es, first, v) by {}
    assert forall|h: int| 0 <= h < h1.len() implies (#[trigger] h1[h]).1 < n && h1[h].2 < n && v2[h1[h].1 as int]
        && listed_either(es, (h1[h].1, h1[h].2, h1[h].0)) by {
        let j = if h == at { h0.len() - 1 } else { h };
        assert(h1[h] == h0[j]);
    }
    assert forall|z: (C, usize, usize)| h0.contains(z) && z.2 != b implies h1.contains(z) by {
        let h = choose|h: int| 0 <= h < h0.len() && h0[h] == z;
        assert(h != at);
        if h == h0.len() - 1 {
            assert(h1[at] == z);
        } else {
            assert(h1[h] == z);
        }
    }
    assert forall|k: int| 0 <= k < es.len() && v2[(#[trigger] es[k]).0 as int] && !v2[es[k].1 as int] && es[k].0 != b
        implies h1.contains((es[k].2, es[k].0, es[k].1)) by {
        assert(visited[es[k].0 as int]);
        assert(h0.contains((es[k].2, es[k].0, es[k].1)));
    }
    assert forall|k: int| 0 <= k < es.len() && v2[(#[trigger] es[k]).1 as int] && !v2[es[k].0 as int] && es[k].1 != b
        implies h1.contains((es[k].2, es[k].1, es[k].0)) by {
        assert(visited[es[k].1 as int]);
        assert(h0.contains((es[k].2, es[k].1, es[k].0)));
    }
    assert forall|i: int| 0 <= i < mst2.len() implies listed_either(es, #[trigger] mst2[i]) by {
        if i < len {
            assert(mst2[i] == mst[i]);
        }
    }
    // The new step is greedy.
    assert(greedy_step(es, first, mst2, len)) by {
        assert(mst2[len] == e);
        assert(in_tree(first, mst2, len, a) == in_tree(first, mst, len, a));
        assert(in_tree(first, mst2, len, b) == in_tree(first, mst, len, b));
        assert forall|k: int| 0 <= k < es.len() && (in_tree(first, mst2, len, (#[trigger] es[k]).0) != in_tree(first, mst2, len, es[k].1))
            implies mst2[len].2.val() <= es[k].2.val() by {
            assert(in_tree(first, mst2, len, es[k].0) == in_tree(first, mst, len, es[k].0));
            assert(in_tree(first, mst2, len, es[k].1) == in_tree(first, mst, len, es[k].1));
            if visited[es[k].0 as int] {
                let z = (es[k].2, es[k].0, es[k].1);
                assert(h0.contains(z));
                let h = choose|h: int| 0 <= h < h0.len() && h0[h] == z;
                assert(h0[at].0.val() <= h0[h].0.val());
            } else {
                let z = (es[k].2, es[k].1, es[k].0);
                assert(h0.contains(z));
                let h = choose|h: int| 0 <= h < h0.len() && h0[h] == z;
                assert(h0[at].0.val() <= h0[h].0.val());
            }
        }
    }
    assert forall|i: int| 0 <= i < mst2.len() implies #[trigger] greedy_step(es, first, mst2, i) by {
        if i < len {
        }
    }
}

/// With nothing queued, the tree holds every node connected to the first.
proof fn lemma_closed_tree<C: Weight>(
    n: nat,
    es: Seq<(usize, usize, C)>,
    first: usize,
    mst: Seq<(usize, usize, C)>,
    visited: Seq<bool>,
    heap: Seq<(C, usize, usize)>,
)
    requires
        grow_ok(n, es, first, mst, visited, heap),
        ends_below(n, es),
        heap.len() == 0,
    ensures
        forall|v: usize| v < n ==> (in_tree(first, mst, mst.len() as int, v) <==> #[trigger] connected(n, es, first, v)),
{
    lemma_edge_graph(n, es);
    let g = edge_graph(n, es);
    let set = Set::new(|v: usize| v < n && visited[v as int]);
    assert forall|u: usize, w: usize| set.contains(u) && #[trigger] edge(g, u, w) implies set.contains(w) by {
        let k = choose|k: int| 0 <= k < es.len() && ((#[trigger] es[k]).0 == u && es[k].1 == w || es[k].0 == w && es[k].1 == u);
        if !visited[w as int] {
            if es[k].0 == u {
                assert(heap.contains((es[k].2, es[k].0, es[k].1)));
            } else {
                assert(heap.contains((es[k].2, es[k].1, es[k].0)));
            }
        }
    }
    assert forall|v: usize| v < n implies (in_tree(first, mst, mst.len() as int, v) <==> #[trigger] connected(n, es, first, v)) by {
        if connected(n, es, first, v) {
            assert(in_tree(first, mst, mst.len() as int, first));
            assert(set.contains(first));
            crate::spec::lemma_closed_reach(g, set, first, v);
        }
    }
}

} // verus!
