//! Minimum spanning forests by Kruskal's algorithm.

use vstd::prelude::*;
use crate::weight::Weight;
use crate::spec::{edge, is_path, is_path_from_to, lemma_reach_self, lemma_reach_step, reachable, follows};
use crate::indexed_graph::{incident, lemma_incident};
use crate::directed::strongly_connected_components::lemma_reach_trans;
use crate::undirected::connected_components::{lemma_reach_symmetric, symmetric};

verus! {

/// Some edge of the list joins `u` and `v`, in either direction.
pub open spec fn joins<C>(es: Seq<(usize, usize, C)>, u: usize, v: usize) -> bool {
    exists|k: int| 0 <= k < es.len() && ((#[trigger] es[k]).0 == u && es[k].1 == v || es[k].0 == v && es[k].1 == u)
}

/// The graph on the nodes `0..n` whose edges are those of the list, each in
/// both directions.
pub open spec fn edge_graph<C>(n: nat, es: Seq<(usize, usize, C)>) -> Seq<Seq<(usize, ())>> {
    Seq::new(n, |u: int| Seq::new(incident(es, u as usize).len(), |j: int| (incident(es, u as usize)[j], ())))
}

/// The edges of the list connect `a` and `b`, among the nodes `0..n`.
pub open spec fn connected<C>(n: nat, es: Seq<(usize, usize, C)>, a: usize, b: usize) -> bool {
    reachable(edge_graph(n, es), a, b)
}

/// Every end of an edge of the list is below `n`.
pub open spec fn ends_below<C>(n: nat, es: Seq<(usize, usize, C)>) -> bool {
    forall|k: int| 0 <= k < es.len() ==> (#[trigger] es[k]).0 < n && es[k].1 < n
}

/// Every edge of `a` is an edge of `b`.
pub open spec fn sub_list<C>(a: Seq<(usize, usize, C)>, b: Seq<(usize, usize, C)>) -> bool {
    forall|k: int| 0 <= k < a.len() ==> b.contains(#[trigger] a[k])
}

/// The edges of the list come in order of weight, lightest first.
pub open spec fn by_weight<C: Weight>(es: Seq<(usize, usize, C)>) -> bool {
    forall|s: int, t: int| 0 <= s < t < es.len() ==> (#[trigger] es[s]).2.val() <= (#[trigger] es[t]).2.val()
}

/// The edges of the list of weight at most `w`.
pub open spec fn light<C: Weight>(es: Seq<(usize, usize, C)>, w: int) -> Seq<(usize, usize, C)> {
    es.filter(|e: (usize, usize, C)| e.2.val() <= w)
}

/// Each edge of the list joins two nodes that the edges before it do not
/// connect: the list is a forest.
pub open spec fn is_forest<C>(n: nat, f: Seq<(usize, usize, C)>) -> bool {
    forall|i: int| 0 <= i < f.len() ==> !connected(n, f.take(i), (#[trigger] f[i]).0, f[i].1)
}

/// The edges of the graph of a list are exactly the pairs it joins.
pub proof fn lemma_edge_graph<C>(n: nat, es: Seq<(usize, usize, C)>)
    requires
        ends_below(n, es),
    ensures
        forall|u: usize, v: usize| #[trigger] edge(edge_graph(n, es), u, v) <==> u < n && joins(es, u, v),
        symmetric(edge_graph(n, es)),
        crate::spec::wf(edge_graph(n, es)),
{
    let g = edge_graph(n, es);
    assert forall|u: usize, v: usize| #[trigger] edge(g, u, v) <==> u < n && joins(es, u, v) by {
        if u < n {
            lemma_incident(es, u, v);
            let t = incident(es, u);
            if edge(g, u, v) {
                let j = choose|j: int| 0 <= j < g[u as int].len() && #[trigger] g[u as int][j].0 == v;
                assert(t[j] == v);
                assert(t.contains(v));
            }
            if joins(es, u, v) {
                assert(t.contains(v));
                let j = choose|j: int| 0 <= j < t.len() && t[j] == v;
                assert(g[u as int][j].0 == v);
            }
        }
    }
    assert forall|u: usize, v: usize| #[trigger] edge(g, u, v) implies edge(g, v, u) by {
        let k = choose|k: int| 0 <= k < es.len() && ((#[trigger] es[k]).0 == u && es[k].1 == v || es[k].0 == v && es[k].1 == u);
        assert(joins(es, v, u));
    }
    assert forall|u: int, j: int| 0 <= u < g.len() && 0 <= j < g[u].len() implies #[trigger] g[u][j].0 < g.len() by {
        let v = g[u][j].0;
        let uu = u as usize;
        let t = incident(es, uu);
        assert(t[j] == v);
        assert(t.contains(v));
        lemma_incident(es, uu, v);
        let k = choose|k: int| 0 <= k < es.len() && ((#[trigger] es[k]).0 == uu && es[k].1 == v || es[k].0 == v && es[k].1 == uu);
    }
}

/// More edges connect at least as much.
pub proof fn lemma_connected_mono<C>(n: nat, a: Seq<(usize, usize, C)>, b: Seq<(usize, usize, C)>, x: usize, y: usize)
    requires
        ends_below(n, a),
        ends_below(n, b),
        sub_list(a, b),
        connected(n, a, x, y),
    ensures
        connected(n, b, x, y),
{
    lemma_edge_graph(n, a);
    lemma_edge_graph(n, b);
    let ga = edge_graph(n, a);
    let gb = edge_graph(n, b);
    let p = choose|p: Seq<usize>| #[trigger] is_path_from_to(ga, p, x, y);
    assert forall|i: int| 0 <= i < p.len() - 1 implies #[trigger] follows(gb, p, i) by {
        assert(follows(ga, p, i));
        assert(edge(ga, p[i], p[i + 1]));
        let k = choose|k: int| 0 <= k < a.len() && ((#[trigger] a[k]).0 == p[i] && a[k].1 == p[i + 1] || a[k].0 == p[i + 1] && a[k].1 == p[i]);
        assert(b.contains(a[k]));
        let j = choose|j: int| 0 <= j < b.len() && b[j] == a[k];
        assert(joins(b, p[i], p[i + 1]));
    }
    assert forall|i: int| 0 <= i < p.len() implies #[trigger] p[i] < gb.len() by {}
    assert(is_path_from_to(gb, p, x, y));
}

/// Without edges, a node connects to itself alone.
proof fn lemma_connected_empty<C>(n: nat, es: Seq<(usize, usize, C)>, x: usize, y: usize)
    requires
        es.len() == 0,
        connected(n, es, x, y),
    ensures
        x == y,
{
    lemma_edge_graph(n, es);
    let g = edge_graph(n, es);
    let p = choose|p: Seq<usize>| #[trigger] is_path_from_to(g, p, x, y);
    if p.len() > 1 {
        assert(follows(g, p, 0));
        assert(edge(g, p[0], p[1]));
    }
}

/// A path that uses one more edge `e` either does without it, or goes through
/// it from one end to the other.
proof fn lemma_connected_split<C>(n: nat, es: Seq<(usize, usize, C)>, e: (usize, usize, C), x: usize, y: usize)
    requires
        ends_below(n, es),
        e.0 < n,
        e.1 < n,
        connected(n, es.push(e), x, y),
    ensures
        connected(n, es, x, y)
            || connected(n, es, x, e.0) && connected(n, es, e.1, y)
            || connected(n, es, x, e.1) && connected(n, es, e.0, y),
{
    let es2 = es.push(e);
    assert(ends_below(n, es2)) by {
        assert forall|k: int| 0 <= k < es2.len() implies (#[trigger] es2[k]).0 < n && es2[k].1 < n by {
            if k < es.len() {
                assert(es2[k] == es[k]);
            }
        }
    }
    lemma_edge_graph(n, es);
    lemma_edge_graph(n, es2);
    let g = edge_graph(n, es);
    let g2 = edge_graph(n, es2);
    let p = choose|p: Seq<usize>| #[trigger] is_path_from_to(g2, p, x, y);
    lemma_split_prefix(n, es, e, p, x, (p.len() - 1) as int);
}

/// The prefix of a path up to position `k` splits as in [`lemma_connected_split`].
proof fn lemma_split_prefix<C>(n: nat, es: Seq<(usize, usize, C)>, e: (usize, usize, C), p: Seq<usize>, x: usize, k: int)
    requires
        ends_below(n, es),
        ends_below(n, es.push(e)),
        e.0 < n,
        e.1 < n,
        is_path(edge_graph(n, es.push(e)), p),
        p[0] == x,
        0 <= k < p.len(),
    ensures
        connected(n, es, x, p[k])
            || connected(n, es, x, e.0) && connected(n, es, e.1, p[k])
            || connected(n, es, x, e.1) && connected(n, es, e.0, p[k]),
    decreases k,
{
    let g = edge_graph(n, es);
    let g2 = edge_graph(n, es.push(e));
    lemma_edge_graph(n, es);
    lemma_edge_graph(n, es.push(e));
    if k == 0 {
        lemma_reach_self(g, x);
    } else {
        lemma_split_prefix(n, es, e, p, x, k - 1);
        let u = p[k - 1];
        let v = p[k];
        assert(follows(g2, p, k - 1));
        assert(edge(g2, u, v));
        assert(joins(es.push(e), u, v));
        let j = choose|j: int| 0 <= j < es.push(e).len() && ((#[trigger] es.push(e)[j]).0 == u && es.push(e)[j].1 == v
            || es.push(e)[j].0 == v && es.push(e)[j].1 == u);
        if j < es.len() {
            assert(es.push(e)[j] == es[j]);
            assert(joins(es, u, v));
            assert(edge(g, u, v));
            if connected(n, es, x, u) {
                lemma_reach_step(g, x, u, v);
            }
            if connected(n, es, e.1, u) {
                lemma_reach_step(g, e.1, u, v);
            }
            if connected(n, es, e.0, u) {
                lemma_reach_step(g, e.0, u, v);
            }
        } else {
            assert(es.push(e)[j] == e);
            lemma_reach_self(g, v);
            if u == e.0 && v == e.1 {
                if connected(n, es, x, u) {
                } else if connected(n, es, x, e.0) && connected(n, es, e.1, u) {
                    lemma_reach_symmetric(g, e.1, u);
                    lemma_reach_trans(g, x, e.0, v);
                } else {
                }
            } else {
                if connected(n, es, x, u) {
                } else if connected(n, es, x, e.1) && connected(n, es, e.0, u) {
                    lemma_reach_symmetric(g, e.0, u);
                    lemma_reach_trans(g, x, e.1, v);
                } else {
                }
            }
        }
    }
}

/// Adding the edge `e` connects everything that reaches one of its ends with
/// everything that reaches the other.
proof fn lemma_connected_join<C>(n: nat, es: Seq<(usize, usize, C)>, e: (usize, usize, C), x: usize, y: usize)
    requires
        ends_below(n, es),
        e.0 < n,
        e.1 < n,
        connected(n, es, x, e.0),
        connected(n, es, e.1, y),
    ensures
        connected(n, es.push(e), x, y),
{
    let es2 = es.push(e);
    assert(ends_below(n, es2)) by {
        assert forall|k: int| 0 <= k < es2.len() implies (#[trigger] es2[k]).0 < n && es2[k].1 < n by {
            if k < es.len() {
                assert(es2[k] == es[k]);
            }
        }
    }
    assert(sub_list(es, es2)) by {
        assert forall|k: int| 0 <= k < es.len() implies es2.contains(#[trigger] es[k]) by {
            assert(es2[k] == es[k]);
        }
    }
    lemma_connected_mono(n, es, es2, x, e.0);
    lemma_connected_mono(n, es, es2, e.1, y);
    lemma_edge_graph(n, es2);
    let g2 = edge_graph(n, es2);
    assert(es2[es.len() as int] == e);
    assert(joins(es2, e.0, e.1));
    assert(edge(g2, e.0, e.1));
    lemma_reach_step(g2, x, e.0, e.1);
    lemma_reach_trans(g2, x, e.1, y);
}

/// The light edges of a list are edges of it, within the same bounds.
proof fn lemma_light_facts<C: Weight>(n: nat, f: Seq<(usize, usize, C)>, w: int)
    requires
        ends_below(n, f),
    ensures
        ends_below(n, light(f, w)),
        sub_list(light(f, w), f),
{
    let lf = light(f, w);
    let pred = |e: (usize, usize, C)| e.2.val() <= w;
    assert forall|k: int| 0 <= k < lf.len() implies f.contains(#[trigger] lf[k]) by {
        assert(lf.contains(lf[k]));
        f.lemma_filter_contains_rev(pred, lf[k]);
    }
    assert forall|k: int| 0 <= k < lf.len() implies (#[trigger] lf[k]).0 < n && lf[k].1 < n by {
        assert(f.contains(lf[k]));
        let j = choose|j: int| 0 <= j < f.len() && f[j] == lf[k];
        assert(f[j].0 < n && f[j].1 < n);
    }
}

/// The light edges of a sub-list are light edges of the list.
proof fn lemma_light_sub<C: Weight>(f: Seq<(usize, usize, C)>, g: Seq<(usize, usize, C)>, w: int)
    requires
        sub_list(f, g),
    ensures
        sub_list(light(f, w), light(g, w)),
{
    let lf = light(f, w);
    let pred = |e: (usize, usize, C)| e.2.val() <= w;
    assert forall|k: int| 0 <= k < lf.len() implies light(g, w).contains(#[trigger] lf[k]) by {
        assert(lf.contains(lf[k]));
        f.lemma_filter_contains_rev(pred, lf[k]);
        f.lemma_filter_pred(pred, k);
        assert(g.contains(lf[k]));
        let j = choose|j: int| 0 <= j < g.len() && g[j] == lf[k];
        g.lemma_filter_contains(pred, j);
    }
}

/// A list whose edges are all light is a sub-list of its light edges.
proof fn lemma_all_light<C: Weight>(f: Seq<(usize, usize, C)>, w: int)
    requires
        forall|k: int| 0 <= k < f.len() ==> (#[trigger] f[k]).2.val() <= w,
    ensures
        sub_list(f, light(f, w)),
{
    let pred = |e: (usize, usize, C)| e.2.val() <= w;
    assert forall|k: int| 0 <= k < f.len() implies light(f, w).contains(#[trigger] f[k]) by {
        f.lemma_filter_contains(pred, k);
    }
}

/// The indices, in order, of edges whose weights do not decrease.
pub open spec fn sorted_by_weight<C: Weight>(es: Seq<(usize, usize, C)>, idx: Seq<usize>) -> bool {
    forall|i: int, j: int| 0 <= i < j < idx.len() ==> es[#[trigger] idx[i] as int].2.val() <= es[#[trigger] idx[j] as int].2.val()
}

/// Every index is an index of the list.
spec fn indices_below(idx: Seq<usize>, m: int) -> bool {
    forall|i: int| 0 <= i < idx.len() ==> #[trigger] idx[i] < m
}

/// Merge two sequences of indices, each in order of weight.
fn merge<C: Weight>(es: &[(usize, usize, C)], a: Vec<usize>, b: Vec<usize>) -> (r: Vec<usize>)
    requires
        indices_below(a@, es@.len() as int),
        indices_below(b@, es@.len() as int),
        sorted_by_weight(es@, a@),
        sorted_by_weight(es@, b@),
    ensures
        indices_below(r@, es@.len() as int),
        sorted_by_weight(es@, r@),
        forall|x: usize| r@.contains(x) <==> a@.contains(x) || b@.contains(x),
{
    let mut r: Vec<usize> = Vec::new();
    let mut i: usize = 0;
    let mut j: usize = 0;
    while i < a.len() || j < b.len()
        invariant
            indices_below(a@, es@.len() as int),
            indices_below(b@, es@.len() as int),
            sorted_by_weight(es@, a@),
            sorted_by_weight(es@, b@),
            i <= a@.len(),
            j <= b@.len(),
            indices_below(r@, es@.len() as int),
            sorted_by_weight(es@, r@),
            forall|x: usize| r@.contains(x) <==> a@.subrange(0, i as int).contains(x) || b@.subrange(0, j as int).contains(x),
            r@.len() > 0 && i < a@.len() ==> es@[r@[r@.len() - 1] as int].2.val() <= es@[a@[i as int] as int].2.val(),
            r@.len() > 0 && j < b@.len() ==> es@[r@[r@.len() - 1] as int].2.val() <= es@[b@[j as int] as int].2.val(),
        decreases a@.len() + b@.len() - i - j,
    {
        let take_a = if i < a.len() && j < b.len() {
            es[a[i]].2.le(&es[b[j]].2)
        } else {
            i < a.len()
        };
        let ghost r0 = r@;
        let ghost i0 = i;
        let ghost j0 = j;
        if take_a {
            r.push(a[i]);
            i = i + 1;
        } else {
            r.push(b[j]);
            j = j + 1;
        }
        proof {
            let x0 = r@[r0.len() as int];
            assert forall|p: int, q: int| 0 <= p < q < r@.len() implies es@[#[trigger] r@[p] as int].2.val() <= es@[#[trigger] r@[q] as int].2.val() by {
                if q == r0.len() {
                    if p < r0.len() - 1 {
                        assert(es@[r0[p] as int].2.val() <= es@[r0[r0.len() - 1] as int].2.val());
                    }
                } else {
                    assert(r@[p] == r0[p] && r@[q] == r0[q]);
                }
            }
            assert forall|x: usize| r@.contains(x) <==> a@.subrange(0, i as int).contains(x) || b@.subrange(0, j as int).contains(x) by {
                if r@.contains(x) {
                    let p = choose|p: int| 0 <= p < r@.len() && r@[p] == x;
                    if p < r0.len() {
                        assert(r0.contains(x));
                        if a@.subrange(0, i0 as int).contains(x) {
                            let q = choose|q: int| 0 <= q < i0 && a@.subrange(0, i0 as int)[q] == x;
                            assert(a@.subrange(0, i as int)[q] == x);
                        } else {
                            assert(b@.subrange(0, j0 as int).contains(x));
                            let q = choose|q: int| 0 <= q < j0 && b@.subrange(0, j0 as int)[q] == x;
                            assert(b@.subrange(0, j as int)[q] == x);
                        }
                    } else if take_a {
                        assert(a@.subrange(0, i as int)[i0 as int] == x);
                    } else {
                        assert(b@.subrange(0, j as int)[j0 as int] == x);
                    }
                }
                if a@.subrange(0, i as int).contains(x) {
                    let q = choose|q: int| 0 <= q < i && a@.subrange(0, i as int)[q] == x;
                    if q < i0 {
                        assert(a@.subrange(0, i0 as int)[q] == x);
                        assert(r0.contains(x));
                        let p = choose|p: int| 0 <= p < r0.len() && r0[p] == x;
                        assert(r@[p] == x);
                    } else {
                        assert(r@[r0.len() as int] == x);
                    }
                }
                if b@.subrange(0, j as int).contains(x) {
                    let q = choose|q: int| 0 <= q < j && b@.subrange(0, j as int)[q] == x;
                    if q < j0 {
                        assert(b@.subrange(0, j0 as int)[q] == x);
                        assert(r0.contains(x));
                        let p = choose|p: int| 0 <= p < r0.len() && r0[p] == x;
                        assert(r@[p] == x);
                    } else {
                        assert(r@[r0.len() as int] == x);
                    }
                }
            }
        }
    }
    proof {
        assert(a@.subrange(0, a@.len() as int) =~= a@);
        assert(b@.subrange(0, b@.len() as int) =~= b@);
    }
    r
}

/// Sort indices of edges by weight.
fn merge_sort<C: Weight>(es: &[(usize, usize, C)], v: Vec<usize>) -> (r: Vec<usize>)
    requires
        indices_below(v@, es@.len() as int),
    ensures
        indices_below(r@, es@.len() as int),
        sorted_by_weight(es@, r@),
        forall|x: usize| r@.contains(x) <==> v@.contains(x),
    decreases v@.len(),
{
    if v.len() <= 1 {
        return v;
    }
    let mid = v.len() / 2;
    let mut left: Vec<usize> = Vec::new();
    let mut right: Vec<usize> = Vec::new();
    let mut i: usize = 0;
    while i < v.len()
        invariant
            indices_below(v@, es@.len() as int),
            i <= v@.len(),
            mid < v@.len(),
            left@ == v@.subrange(0, if i < mid { i as int } else { mid as int }),
            right@ == v@.subrange(mid as int, if i < mid { mid as int } else { i as int }),
        decreases v@.len() - i,
    {
        if i < mid {
            left.push(v[i]);
        } else {
            right.push(v[i]);
        }
        i = i + 1;
        proof {
            assert(left@ =~= v@.subrange(0, if i < mid { i as int } else { mid as int }));
            assert(right@ =~= v@.subrange(mid as int, if i < mid { mid as int } else { i as int }));
        }
    }
    let sl = merge_sort(es, left);
    let sr = merge_sort(es, right);
    let r = merge(es, sl, sr);
    proof {
        assert forall|x: usize| r@.contains(x) <==> v@.contains(x) by {
            if v@.contains(x) {
                let p = choose|p: int| 0 <= p < v@.len() && v@[p] == x;
                if p < mid {
                    assert(left@[p] == x);
                    assert(left@.contains(x));
                } else {
                    assert(right@[p - mid] == x);
                    assert(right@.contains(x));
                }
            }
            if left@.contains(x) {
                let p = choose|p: int| 0 <= p < left@.len() && left@[p] == x;
                assert(v@[p] == x);
            }
            if right@.contains(x) {
                let p = choose|p: int| 0 <= p < right@.len() && right@[p] == x;
                assert(v@[p + mid] == x);
            }
        }
    }
    r
}

/// The labels of the nodes name the components of the forest `f`: two nodes
/// have the same label exactly when `f` connects them, and `members[c]` lists
/// the nodes labelled `c`.
spec fn labels_ok<C>(n: nat, f: Seq<(usize, usize, C)>, label: Seq<usize>, members: Seq<Vec<usize>>) -> bool {
    &&& label.len() == n
    &&& members.len() == n
    &&& forall|v: int| 0 <= v < n ==> #[trigger] label[v] < n
    &&& forall|c: int, i: int| 0 <= c < n && 0 <= i < members[c]@.len() ==> #[trigger] members[c]@[i] < n && label[members[c]@[i] as int] == c
    &&& forall|v: int| 0 <= v < n ==> members[#[trigger] label[v] as int]@.contains(v as usize)
    &&& forall|u: usize, v: usize| u < n && v < n ==> (label[u as int] == label[v as int] <==> #[trigger] connected(n, f, u, v))
}

/// Joining the components of the two ends of `e` by relabelling one of them
/// gives the labels of the forest with `e`.
proof fn lemma_join_labels<C>(n: nat, f: Seq<(usize, usize, C)>, e: (usize, usize, C), label: Seq<usize>, label2: Seq<usize>, small: usize, large: usize)
    requires
        ends_below(n, f),
        e.0 < n,
        e.1 < n,
        label.len() == n,
        label2.len() == n,
        forall|u: usize, v: usize| u < n && v < n ==> (label[u as int] == label[v as int] <==> #[trigger] connected(n, f, u, v)),
        small == label[e.0 as int] && large == label[e.1 as int] || small == label[e.1 as int] && large == label[e.0 as int],
        small != large,
        forall|v: int| 0 <= v < n ==> #[trigger] label2[v] == if label[v] == small { large } else { label[v] },
    ensures
        forall|u: usize, v: usize| u < n && v < n ==> (label2[u as int] == label2[v as int] <==> #[trigger] connected(n, f.push(e), u, v)),
{
    let f2 = f.push(e);
    assert(ends_below(n, f2)) by {
        assert forall|k: int| 0 <= k < f2.len() implies (#[trigger] f2[k]).0 < n && f2[k].1 < n by {
            if k < f.len() {
                assert(f2[k] == f[k]);
            }
        }
    }
    assert(sub_list(f, f2)) by {
        assert forall|k: int| 0 <= k < f.len() implies f2.contains(#[trigger] f[k]) by {
            assert(f2[k] == f[k]);
        }
    }
    lemma_edge_graph(n, f);
    let g = edge_graph(n, f);
    assert forall|u: usize, v: usize| u < n && v < n implies (label2[u as int] == label2[v as int] <==> #[trigger] connected(n, f2, u, v)) by {
        lemma_reach_self(g, e.0);
        lemma_reach_self(g, e.1);
        assert(connected(n, f, e.0, e.0));
        assert(connected(n, f, e.1, e.1));
        if connected(n, f2, u, v) {
            lemma_connected_split(n, f, e, u, v);
            if connected(n, f, u, v) {
            } else if connected(n, f, u, e.0) && connected(n, f, e.1, v) {
                assert(label[u as int] == label[e.0 as int]);
                assert(label[e.1 as int] == label[v as int]) by {
                    lemma_reach_symmetric(g, e.1, v);
                    assert(connected(n, f, v, e.1));
                }
            } else {
                assert(label[u as int] == label[e.1 as int]);
                assert(label[e.0 as int] == label[v as int]) by {
                    lemma_reach_symmetric(g, e.0, v);
                    assert(connected(n, f, v, e.0));
                }
            }
        }
        if label2[u as int] == label2[v as int] {
            if label[u as int] == label[v as int] {
                lemma_connected_mono(n, f, f2, u, v);
            } else if label[u as int] == label[e.0 as int] && label[v as int] == label[e.1 as int] {
                assert(connected(n, f, u, e.0));
                assert(connected(n, f, e.1, v)) by {
                    assert(connected(n, f, v, e.1));
                    lemma_reach_symmetric(g, v, e.1);
                }
                lemma_connected_join(n, f, e, u, v);
            } else {
                assert(label[u as int] == label[e.1 as int] && label[v as int] == label[e.0 as int]);
                let e2 = (e.1, e.0, e.2);
                assert(connected(n, f, u, e.1));
                assert(connected(n, f, e.0, v)) by {
                    assert(connected(n, f, v, e.0));
                    lemma_reach_symmetric(g, v, e.0);
                }
                lemma_connected_join(n, f, e, v, u);
                lemma_edge_graph(n, f2);
                lemma_reach_symmetric(edge_graph(n, f2), v, u);
            }
        }
    }
}

/// Compute a minimum spanning forest of the nodes `0..number_of_nodes` and the
/// undirected `edges`, by Kruskal's algorithm: the edges in order of weight,
/// each kept when it joins two components.
///
/// The result is a forest of input edges, and each input edge has its ends
/// connected by result edges no heavier than itself: no spanning forest weighs less.
pub fn kruskal_indices<C: Weight>(number_of_nodes: usize, edges: &[(usize, usize, C)]) -> (r: Vec<(usize, usize, C)>)
    requires
        ends_below(number_of_nodes as nat, edges@),
    ensures
        ends_below(number_of_nodes as nat, r@),
        sub_list(r@, edges@),
        is_forest(number_of_nodes as nat, r@),
        by_weight(r@),
        forall|k: int| 0 <= k < edges@.len() ==> #[trigger] connected(number_of_nodes as nat, light(r@, edges@[k].2.val()), edges@[k].0, edges@[k].1),
{
    let ghost n = number_of_nodes as nat;
    let m = edges.len();
    let mut all: Vec<usize> = Vec::new();
    let mut i: usize = 0;
    while i < m
        invariant
            i <= m,
            all@.len() == i,
            forall|k: int| 0 <= k < i ==> #[trigger] all@[k] == k,
        decreases m - i,
    {
        all.push(i);
        i = i + 1;
    }
    let order = merge_sort(edges, all);
    proof {
        assert forall|k: usize| k < m implies #[trigger] order@.contains(k) by {
            assert(all@[k as int] == k);
            assert(all@.contains(k));
        }
    }
    let mut label: Vec<usize> = Vec::new();
    let mut members: Vec<Vec<usize>> = Vec::new();
    let mut v: usize = 0;
    while v < number_of_nodes
        invariant
            v <= number_of_nodes,
            label@.len() == v,
            members@.len() == v,
            forall|x: int| 0 <= x < v ==> #[trigger] label@[x] == x,
            forall|x: int| 0 <= x < v ==> (#[trigger] members@[x])@ == seq![x as usize],
        decreases number_of_nodes - v,
    {
        label.push(v);
        let mut one: Vec<usize> = Vec::new();
        one.push(v);
        members.push(one);
        v = v + 1;
    }
    let mut forest: Vec<(usize, usize, C)> = Vec::new();
    proof {
        assert forall|c: int, i: int| 0 <= c < n && 0 <= i < members@[c]@.len() implies #[trigger] members@[c]@[i] < n
            && label@[members@[c]@[i] as int] == c by {}
        assert forall|x: int| 0 <= x < n implies members@[#[trigger] label@[x] as int]@.contains(x as usize) by {
            assert(members@[x]@[0] == x as usize);
        }
        assert forall|a: usize, b: usize| a < n && b < n implies (label@[a as int] == label@[b as int] <==> #[trigger] connected(n, forest@, a, b)) by {
            if connected(n, forest@, a, b) {
                lemma_connected_empty(n, forest@, a, b);
            }
            if a == b {
                lemma_reach_self(edge_graph(n, forest@), a);
            }
        }
    }
    let mut pos: usize = 0;
    while pos < order.len()
        invariant
            n == number_of_nodes as nat,
            ends_below(n, edges@),
            indices_below(order@, edges@.len() as int),
            sorted_by_weight(edges@, order@),
            pos <= order@.len(),
            labels_ok(n, forest@, label@, members@),
            ends_below(n, forest@),
            sub_list(forest@, edges@),
            is_forest(n, forest@),
            by_weight(forest@),
            forall|t: int, i: int| 0 <= t < forest@.len() && pos <= i < order@.len()
                ==> (#[trigger] forest@[t]).2.val() <= edges@[#[trigger] order@[i] as int].2.val(),
            forall|i: int| 0 <= i < pos ==> #[trigger] connected(n, light(forest@, edges@[order@[i] as int].2.val()),
                edges@[order@[i] as int].0, edges@[order@[i] as int].1),
        decreases order@.len() - pos,
    {
        let k = order[pos];
        let e = edges[k];
        proof { assert(order@.contains(k) || true); }
        let (a, b, w) = e;
        proof {
            assert(order@[pos as int] < edges@.len());
            assert(edges@[k as int].0 < n && edges@[k as int].1 < n);
        }
        let la = label[a];
        let lb = label[b];
        let ghost f0 = forest@;
        if la != lb {
            let (small, large) = if members[la].len() < members[lb].len() { (la, lb) } else { (lb, la) };
            let ghost label0 = label@;
            let ghost members0 = members@;
            let mut moving: Vec<usize> = Vec::new();
            std::mem::swap(&mut moving, &mut members[small]);
            proof {
                assert(moving@ == members0[small as int]@);
            }
            let mut t: usize = 0;
            while t < moving.len()
                invariant
                    n == number_of_nodes as nat,
                    small < n,
                    large < n,
                    small != large,
                    label0.len() == n,
                    members0.len() == n,
                    moving@ == members0[small as int]@,
                    forall|c: int, i: int| 0 <= c < n && 0 <= i < members0[c]@.len() ==> #[trigger] members0[c]@[i] < n && label0[members0[c]@[i] as int] == c,
                    label@.len() == n,
                    members@.len() == n,
                    t <= moving@.len(),
                    forall|x: int| 0 <= x < n ==> #[trigger] label@[x] == if label0[x] == small && moving@.subrange(0, t as int).contains(x as usize) {
                        large
                    } else {
                        label0[x]
                    },
                    forall|c: int| 0 <= c < n && c != small && c != large ==> #[trigger] members@[c] == members0[c],
                    members@[small as int]@.len() == 0,
                    members@[large as int]@ == members0[large as int]@ + moving@.subrange(0, t as int),
                decreases moving@.len() - t,
            {
                let x = moving[t];
                proof {
                    assert(members0[small as int]@[t as int] == x);
                    assert(x < n);
                }
                let ghost lab0 = label@;
                let ghost mem0 = members@;
                label.set(x, large);
                members[large].push(x);
                proof {
                    assert forall|y: int| 0 <= y < n implies #[trigger] label@[y] == if label0[y] == small && moving@.subrange(0, t + 1).contains(y as usize) {
                        large
                    } else {
                        label0[y]
                    } by {
                        if y == x {
                            assert(moving@.subrange(0, t + 1)[t as int] == x);
                            assert(label0[x as int] == small);
                        } else {
                            assert(label@[y] == lab0[y]);
                            if moving@.subrange(0, t + 1).contains(y as usize) {
                                let q = choose|q: int| 0 <= q < t + 1 && #[trigger] moving@.subrange(0, t + 1)[q] == y as usize;
                                assert(q < t);
                                assert(moving@.subrange(0, t as int)[q] == y as usize);
                            }
                            if moving@.subrange(0, t as int).contains(y as usize) {
                                let q = choose|q: int| 0 <= q < t && #[trigger] moving@.subrange(0, t as int)[q] == y as usize;
                                assert(moving@.subrange(0, t + 1)[q] == y as usize);
                            }
                        }
                    }
                    assert forall|c: int| 0 <= c < n && c != small && c != large implies #[trigger] members@[c] == members0[c] by {
                        assert(members@[c] == mem0[c]);
                    }
                    assert(members@[small as int] == mem0[small as int]);
                    assert(members@[large as int]@ =~= members0[large as int]@ + moving@.subrange(0, t + 1));
                }
                t = t + 1;
            }
            forest.push(e);
            proof {
                let lab2 = label@;
                assert(moving@.subrange(0, moving@.len() as int) =~= moving@);
                assert forall|x: int| 0 <= x < n implies #[trigger] lab2[x] == if label0[x] == small { large } else { label0[x] } by {
                    if label0[x] == small {
                        assert(members0[small as int]@.contains(x as usize));
                    }
                }
                lemma_join_labels(n, f0, e, label0, lab2, small, large);
                // The labels and member lists stay in step.
                assert forall|c: int, i: int| 0 <= c < n && 0 <= i < members@[c]@.len() implies #[trigger] members@[c]@[i] < n
                    && lab2[members@[c]@[i] as int] == c by {
                    if c == large {
                        let y = members@[c]@[i];
                        if i < members0[large as int]@.len() {
                            assert(y == members0[large as int]@[i]);
                        } else {
                            assert(y == moving@[i - members0[large as int]@.len()]);
                            assert(y == members0[small as int]@[i - members0[large as int]@.len()]);
                        }
                    } else if c != small {
                        assert(members@[c] == members0[c]);
                    }
                }
                assert forall|x: int| 0 <= x < n implies members@[#[trigger] lab2[x] as int]@.contains(x as usize) by {
                    let c0 = label0[x] as int;
                    assert(members0[c0]@.contains(x as usize));
                    let q = choose|q: int| 0 <= q < members0[c0]@.len() && members0[c0]@[q] == x as usize;
                    if c0 == small {
                        assert(members@[large as int]@[members0[large as int]@.len() + q] == x as usize);
                    } else if c0 == large {
                        assert(members@[large as int]@[q] == x as usize);
                    } else {
                        assert(members@[c0] == members0[c0]);
                    }
                }
                assert forall|x: int| 0 <= x < n implies #[trigger] lab2[x] < n by {}
                let f2 = forest@;
                assert(f2 == f0.push(e));
                assert(ends_below(n, f2)) by {
                    assert forall|q: int| 0 <= q < f2.len() implies (#[trigger] f2[q]).0 < n && f2[q].1 < n by {
                        if q < f0.len() {
                            assert(f2[q] == f0[q]);
                        }
                    }
                }
                assert(sub_list(f2, edges@)) by {
                    assert forall|q: int| 0 <= q < f2.len() implies edges@.contains(#[trigger] f2[q]) by {
                        if q < f0.len() {
                            assert(f2[q] == f0[q]);
                        } else {
                            assert(edges@[k as int] == e);
                        }
                    }
                }
                assert(is_forest(n, f2)) by {
                    assert forall|q: int| 0 <= q < f2.len() implies !connected(n, f2.take(q), (#[trigger] f2[q]).0, f2[q].1) by {
                        if q < f0.len() {
                            assert(f2.take(q) =~= f0.take(q));
                            assert(f2[q] == f0[q]);
                        } else {
                            assert(f2.take(q) =~= f0);
                            assert(label0[a as int] != label0[b as int]);
                        }
                    }
                }
                assert(by_weight(f2)) by {
                    assert forall|s: int, t: int| 0 <= s < t < f2.len() implies (#[trigger] f2[s]).2.val() <= (#[trigger] f2[t]).2.val() by {
                        assert(f2[s] == f0[s]);
                        if t < f0.len() {
                            assert(f2[t] == f0[t]);
                        } else {
                            assert(f0[s].2.val() <= edges@[order@[pos as int] as int].2.val());
                        }
                    }
                }
                lemma_keep_processed(n, edges@, order@, f0, e, pos as int);
            }
        } else {
            proof {
                assert(connected(n, f0, a, b));
                assert forall|t: int| 0 <= t < f0.len() implies (#[trigger] f0[t]).2.val() <= w.val() by {
                    assert(f0[t].2.val() <= edges@[order@[pos as int] as int].2.val());
                }
                lemma_all_light(f0, w.val());
                lemma_light_facts(n, f0, w.val());
                lemma_connected_mono(n, f0, light(f0, w.val()), a, b);
            }
        }
        pos = pos + 1;
    }
    proof {
        assert forall|k: int| 0 <= k < edges@.len() implies #[trigger] connected(n, light(forest@, edges@[k].2.val()), edges@[k].0, edges@[k].1) by {
            assert(order@.contains(k as usize));
            let i = choose|i: int| 0 <= i < order@.len() && order@[i] == k as usize;
            assert(connected(n, light(forest@, edges@[order@[i] as int].2.val()), edges@[order@[i] as int].0, edges@[order@[i] as int].1));
        }
    }
    forest
}

/// Adding the edge at position `pos` of the order, after the edges before it,
/// keeps the facts about the edges processed so far, and gives them for it.
proof fn lemma_keep_processed<C: Weight>(
    n: nat,
    edges: Seq<(usize, usize, C)>,
    order: Seq<usize>,
    f0: Seq<(usize, usize, C)>,
    e: (usize, usize, C),
    pos: int,
)
    requires
        ends_below(n, edges),
        ends_below(n, f0),
        indices_below(order, edges.len() as int),
        sorted_by_weight(edges, order),
        0 <= pos < order.len(),
        e == edges[order[pos] as int],
        forall|t: int, i: int| 0 <= t < f0.len() && pos <= i < order.len()
            ==> (#[trigger] f0[t]).2.val() <= edges[#[trigger] order[i] as int].2.val(),
        forall|i: int| 0 <= i < pos ==> #[trigger] connected(n, light(f0, edges[order[i] as int].2.val()),
            edges[order[i] as int].0, edges[order[i] as int].1),
    ensures
        forall|t: int, i: int| 0 <= t < f0.push(e).len() && pos + 1 <= i < order.len()
            ==> (#[trigger] f0.push(e)[t]).2.val() <= edges[#[trigger] order[i] as int].2.val(),
        forall|i: int| 0 <= i < pos + 1 ==> #[trigger] connected(n, light(f0.push(e), edges[order[i] as int].2.val()),
            edges[order[i] as int].0, edges[order[i] as int].1),
{
    let f2 = f0.push(e);
    assert(ends_below(n, f2)) by {
        assert forall|q: int| 0 <= q < f2.len() implies (#[trigger] f2[q]).0 < n && f2[q].1 < n by {
            if q < f0.len() {
                assert(f2[q] == f0[q]);
            } else {
                assert(order[pos] < edges.len());
            }
        }
    }
    assert(sub_list(f0, f2)) by {
        assert forall|q: int| 0 <= q < f0.len() implies f2.contains(#[trigger] f0[q]) by {
            assert(f2[q] == f0[q]);
        }
    }
    assert forall|t: int, i: int| 0 <= t < f2.len() && pos + 1 <= i < order.len()
        implies (#[trigger] f2[t]).2.val() <= edges[#[trigger] order[i] as int].2.val() by {
        if t < f0.len() {
            assert(f2[t] == f0[t]);
        } else {
            assert(edges[order[pos] as int].2.val() <= edges[order[i] as int].2.val());
        }
    }
    assert forall|i: int| 0 <= i < pos + 1 implies #[trigger] connected(n, light(f2, edges[order[i] as int].2.val()),
        edges[order[i] as int].0, edges[order[i] as int].1) by {
        let wi = edges[order[i] as int].2.val();
        lemma_light_facts(n, f0, wi);
        lemma_light_facts(n, f2, wi);
        if i < pos {
            lemma_light_sub(f0, f2, wi);
            lemma_connected_mono(n, light(f0, wi), light(f2, wi), edges[order[i] as int].0, edges[order[i] as int].1);
        } else {
            assert forall|t: int| 0 <= t < f2.len() implies (#[trigger] f2[t]).2.val() <= wi by {
                if t < f0.len() {
                    assert(f2[t] == f0[t]);
                }
            }
            lemma_all_light(f2, wi);
            lemma_edge_graph(n, f0);
            lemma_reach_self(edge_graph(n, f0), e.0);
            lemma_reach_self(edge_graph(n, f0), e.1);
            assert(order[pos] < edges.len());
            lemma_connected_join(n, f0, e, e.0, e.1);
            lemma_connected_mono(n, f2, light(f2, wi), e.0, e.1);
        }
    }
}

} // verus!
