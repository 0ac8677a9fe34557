//! Strongly connected components of directed graphs.

use vstd::prelude::*;
use crate::spec::{adj, edge, is_path, is_path_from_to, lemma_reach_self, reachable, wf};
use crate::directed::bfs::{lemma_reverse_path, predecessor_lists, reachable_marks, reverses};

verus! {

/// `u` and `v` reach each other.
pub open spec fn strongly_connected<C>(g: Seq<Seq<(usize, C)>>, u: usize, v: usize) -> bool {
    reachable(g, u, v) && reachable(g, v, u)
}

/// The items of `s` increase strictly.
pub open spec fn increasing(s: Seq<usize>) -> bool {
    forall|i: int, j: int| 0 <= i < j < s.len() ==> s[i] < s[j]
}

/// The sequences held in a sequence of vectors.
pub open spec fn nested(a: Seq<Vec<usize>>) -> Seq<Seq<usize>> {
    Seq::new(a.len(), |i: int| a[i]@)
}

/// `cs` lists the strongly connected components of `g` that hold the nodes
/// where `covered` holds, each in increasing order, the components in
/// increasing order of their smallest node.
pub open spec fn scc_list<C>(g: Seq<Seq<(usize, C)>>, cs: Seq<Seq<usize>>, covered: spec_fn(usize) -> bool) -> bool {
    &&& forall|i: int| 0 <= i < cs.len() ==> (#[trigger] cs[i]).len() >= 1 && increasing(cs[i])
    &&& forall|i: int, v: usize| 0 <= i < cs.len() ==> (#[trigger] cs[i].contains(v) <==> strongly_connected(g, cs[i][0], v))
    &&& forall|i: int, j: int| 0 <= i < j < cs.len() ==> (#[trigger] cs[i])[0] < (#[trigger] cs[j])[0]
    &&& forall|v: usize| #[trigger] covered(v) <==> exists|i: int| 0 <= i < cs.len() && #[trigger] cs[i].contains(v)
}

/// Read backwards, the paths of the reversed graph are those of `g`.
pub proof fn lemma_reverse_reach<C, D>(g: Seq<Seq<(usize, C)>>, h: Seq<Seq<(usize, D)>>, a: usize, b: usize)
    requires
        reverses(g, h),
    ensures
        reachable(h, a, b) <==> reachable(g, b, a),
{
    if reachable(h, a, b) {
        let p = choose|p: Seq<usize>| #[trigger] is_path_from_to(h, p, a, b);
        lemma_reverse_path(g, h, p);
        assert(is_path_from_to(g, p.reverse(), b, a));
    }
    if reachable(g, b, a) {
        let p = choose|p: Seq<usize>| #[trigger] is_path_from_to(g, p, b, a);
        assert forall|u: usize, v: usize| #[trigger] edge(g, u, v) implies edge(h, v, u) by {}
        lemma_reverse_path(h, g, p);
        assert(is_path_from_to(h, p.reverse(), a, b));
    }
}

/// What `u` reaches, and `v` reaches, `u` reaches through `v`.
pub proof fn lemma_reach_trans<C>(g: Seq<Seq<(usize, C)>>, u: usize, v: usize, w: usize)
    requires
        reachable(g, u, v),
        reachable(g, v, w),
    ensures
        reachable(g, u, w),
{
    let p = choose|p: Seq<usize>| #[trigger] is_path_from_to(g, p, u, v);
    let q = choose|q: Seq<usize>| #[trigger] is_path_from_to(g, q, v, w);
    crate::directed::bfs::lemma_path_concat(g, p, q);
    assert(is_path_from_to(g, p + q.drop_first(), u, w));
}

/// A node that some node reaches is a node of the graph.
proof fn lemma_reach_in<C>(g: Seq<Seq<(usize, C)>>, u: usize, v: usize)
    requires
        reachable(g, u, v),
    ensures
        u < g.len(),
        v < g.len(),
{
    let p = choose|p: Seq<usize>| #[trigger] is_path_from_to(g, p, u, v);
    assert(p[0] < g.len());
    assert(p[p.len() - 1] < g.len());
}

/// Mark the nodes strongly connected to `node`.
fn component_marks<C>(node: usize, successors: &[Vec<(usize, C)>], predecessors: &[Vec<(usize, ())>]) -> (r: Vec<bool>)
    requires
        wf(adj(successors@)),
        wf(adj(predecessors@)),
        reverses(adj(successors@), adj(predecessors@)),
        node < successors@.len(),
    ensures
        r@.len() == successors@.len(),
        forall|v: usize| v < successors@.len() ==> (r@[v as int] <==> strongly_connected(adj(successors@), node, v)),
{
    let ghost g = adj(successors@);
    let ghost h = adj(predecessors@);
    let fwd = reachable_marks(node, successors);
    let bwd = reachable_marks(node, predecessors);
    let n = successors.len();
    let mut r: Vec<bool> = Vec::new();
    let mut v: usize = 0;
    while v < n
        invariant
            n == g.len(),
            h.len() == n,
            fwd@.len() == n,
            bwd@.len() == n,
            reverses(g, h),
            forall|x: usize| x < n ==> (fwd@[x as int] <==> reachable(g, node, x)),
            forall|x: usize| x < n ==> (bwd@[x as int] <==> reachable(h, node, x)),
            v <= n,
            r@.len() == v,
            forall|x: usize| x < v ==> (r@[x as int] <==> strongly_connected(g, node, x)),
        decreases n - v,
    {
        proof { lemma_reverse_reach(g, h, node, v); }
        r.push(fwd[v] && bwd[v]);
        v = v + 1;
    }
    r
}

/// Gather the marked nodes in increasing order.
fn marked_nodes(marks: &Vec<bool>) -> (r: Vec<usize>)
    ensures
        increasing(r@),
        forall|v: usize| r@.contains(v) <==> v < marks@.len() && marks@[v as int],
{
    let mut r: Vec<usize> = Vec::new();
    let mut v: usize = 0;
    while v < marks.len()
        invariant
            v <= marks@.len(),
            increasing(r@),
            forall|k: int| 0 <= k < r@.len() ==> #[trigger] r@[k] < v,
            forall|x: usize| r@.contains(x) <==> x < v && marks@[x as int],
        decreases marks@.len() - v,
    {
        if marks[v] {
            let ghost r0 = r@;
            r.push(v);
            proof {
                assert forall|x: usize| r@.contains(x) <==> x < v + 1 && marks@[x as int] by {
                    if x == v {
                        assert(r@[r0.len() as int] == v);
                    } else if r@.contains(x) {
                        let k = choose|k: int| 0 <= k < r@.len() && r@[k] == x;
                        assert(r0[k] == x);
                    } else if r0.contains(x) {
                        let k = choose|k: int| 0 <= k < r0.len() && r0[k] == x;
                        assert(r@[k] == x);
                    }
                }
            }
        }
        v = v + 1;
    }
    r
}

/// Compute the strongly connected component that holds `node`, in increasing order.
pub fn strongly_connected_component<C>(node: usize, successors: &[Vec<(usize, C)>]) -> (r: Vec<usize>)
    requires
        wf(adj(successors@)),
        node < successors@.len(),
    ensures
        increasing(r@),
        forall|v: usize| r@.contains(v) <==> strongly_connected(adj(successors@), node, v),
{
    let ghost g = adj(successors@);
    let predecessors = predecessor_lists(successors);
    let marks = component_marks(node, successors, predecessors.as_slice());
    let r = marked_nodes(&marks);
    proof {
        assert forall|v: usize| r@.contains(v) <==> strongly_connected(g, node, v) by {
            if strongly_connected(g, node, v) {
                lemma_reach_in(g, node, v);
            }
        }
    }
    r
}

/// The components of the covered nodes, for a set of covered nodes that holds
/// the whole component of each of its nodes.
fn components_covering<C>(successors: &[Vec<(usize, C)>], predecessors: &[Vec<(usize, ())>], covered: &Vec<bool>)
    -> (r: Vec<Vec<usize>>)
    requires
        wf(adj(successors@)),
        wf(adj(predecessors@)),
        reverses(adj(successors@), adj(predecessors@)),
        covered@.len() == successors@.len(),
        forall|u: usize, v: usize| u < successors@.len() && covered@[u as int] && #[trigger] strongly_connected(adj(successors@), u, v)
            ==> v < successors@.len() && covered@[v as int],
    ensures
        scc_list(adj(successors@), nested(r@), |v: usize| v < successors@.len() && covered@[v as int]),
{
    let ghost g = adj(successors@);
    let n = successors.len();
    let mut comp_of: Vec<usize> = Vec::new();
    let mut i: usize = 0;
    while i < n
        invariant
            i <= n,
            comp_of@.len() == i,
            forall|x: int| 0 <= x < i ==> #[trigger] comp_of@[x] == usize::MAX,
        decreases n - i,
    {
        comp_of.push(usize::MAX);
        i = i + 1;
    }
    let mut out: Vec<Vec<usize>> = Vec::new();
    let mut v: usize = 0;
    while v < n
        invariant
            g == adj(successors@),
            n == g.len(),
            wf(g),
            wf(adj(predecessors@)),
            reverses(g, adj(predecessors@)),
            covered@.len() == n,
            forall|a: usize, b: usize| a < n && covered@[a as int] && #[trigger] strongly_connected(g, a, b)
                ==> b < n && covered@[b as int],
            v <= n,
            comp_of@.len() == n,
            out@.len() <= v,
            forall|k: int| 0 <= k < out@.len() ==> (#[trigger] out@[k])@.len() >= 1 && increasing(out@[k]@)
                && out@[k]@[0] < v && covered@[out@[k]@[0] as int],
            forall|k: int, x: usize| 0 <= k < out@.len() ==> (#[trigger] out@[k]@.contains(x) <==> strongly_connected(g, out@[k]@[0], x)),
            forall|a: int, b: int| 0 <= a < b < out@.len() ==> (#[trigger] out@[a])@[0] < (#[trigger] out@[b])@[0],
            forall|x: usize| x < n && #[trigger] comp_of@[x as int] != usize::MAX ==> comp_of@[x as int] < out@.len()
                && out@[comp_of@[x as int] as int]@.contains(x),
            forall|k: int, x: usize| 0 <= k < out@.len() && #[trigger] out@[k]@.contains(x) ==> x < n && comp_of@[x as int] == k,
            forall|x: usize| x < v && covered@[x as int] ==> #[trigger] comp_of@[x as int] != usize::MAX,
        decreases n - v,
    {
        if covered[v] && comp_of[v] == usize::MAX {
            let marks = component_marks(v, successors, predecessors);
            let comp = marked_nodes(&marks);
            let k = out.len();
            proof {
                lemma_reach_self(g, v);
                assert(comp@.contains(v));
                assert forall|x: usize| #[trigger] comp@.contains(x) implies x < n && comp_of@[x as int] == usize::MAX && x >= v by {
                    if comp_of@[x as int] != usize::MAX {
                        let c = comp_of@[x as int] as int;
                        let f = out@[c]@[0];
                        assert(strongly_connected(g, f, x));
                        lemma_reach_trans(g, f, x, v);
                        lemma_reach_trans(g, v, x, f);
                        assert(out@[c]@.contains(v));
                    }
                    if x < v {
                        assert(covered@[x as int]);
                    }
                }
                let c0 = comp@[0];
                assert(comp@.contains(c0));
                if c0 != v {
                    let kv = choose|kv: int| 0 <= kv < comp@.len() && comp@[kv] == v;
                    assert(kv > 0);
                    assert(c0 < v);
                }
            }
            let mut j: usize = 0;
            let ghost comp_of0 = comp_of@;
            while j < comp.len()
                invariant
                    n == g.len(),
                    comp_of@.len() == n,
                    comp_of0.len() == n,
                    k == out@.len(),
                    j <= comp@.len(),
                    forall|x: usize| #[trigger] comp@.contains(x) ==> x < n && comp_of0[x as int] == usize::MAX,
                    forall|x: int| 0 <= x < n ==> #[trigger] comp_of@[x] == if exists|t: int| 0 <= t < j && comp@[t] == x {
                        k
                    } else {
                        comp_of0[x]
                    },
                decreases comp@.len() - j,
            {
                let x = comp[j];
                proof { assert(comp@.contains(x)); }
                comp_of.set(x, k);
                proof {
                    assert forall|y: int| 0 <= y < n implies #[trigger] comp_of@[y] == if exists|t: int| 0 <= t < j + 1 && comp@[t] == y {
                        k
                    } else {
                        comp_of0[y]
                    } by {
                        if y == x {
                            assert(comp@[j as int] == y);
                        } else if exists|t: int| 0 <= t < j + 1 && comp@[t] == y {
                            let t = choose|t: int| 0 <= t < j + 1 && comp@[t] == y;
                            assert(t < j);
                        }
                    }
                }
                j = j + 1;
            }
            let ghost out0 = out@;
            out.push(comp);
            proof {
                assert(out@[k as int] == comp);
                assert forall|y: usize| y < n && #[trigger] comp_of@[y as int] != usize::MAX implies comp_of@[y as int] < out@.len()
                    && out@[comp_of@[y as int] as int]@.contains(y) by {
                    if exists|t: int| 0 <= t < comp@.len() && comp@[t] == y {
                        let t = choose|t: int| 0 <= t < comp@.len() && comp@[t] == y;
                        assert(comp@.contains(y));
                    } else {
                        assert(comp_of@[y as int] == comp_of0[y as int]);
                        assert(out@[comp_of0[y as int] as int] == out0[comp_of0[y as int] as int]);
                    }
                }
                assert forall|c: int, y: usize| 0 <= c < out@.len() && #[trigger] out@[c]@.contains(y) implies y < n && comp_of@[y as int] == c by {
                    if c == k {
                        let t = choose|t: int| 0 <= t < comp@.len() && comp@[t] == y;
                        assert(exists|t: int| 0 <= t < comp@.len() && comp@[t] == y);
                    } else {
                        assert(out@[c] == out0[c]);
                        assert(comp_of0[y as int] == c);
                        if comp@.contains(y) {
                            assert(false);
                        }
                        assert(!exists|t: int| 0 <= t < comp@.len() && comp@[t] == y);
                    }
                }
                assert forall|y: usize| y < v + 1 && covered@[y as int] implies #[trigger] comp_of@[y as int] != usize::MAX by {
                    if y == v {
                        assert(comp@[0] == v);
                        assert(exists|t: int| 0 <= t < comp@.len() && comp@[t] == y);
                    } else if exists|t: int| 0 <= t < comp@.len() && comp@[t] == y {
                    } else {
                        assert(comp_of@[y as int] == comp_of0[y as int]);
                    }
                }
                assert forall|c: int| 0 <= c < out@.len() implies (#[trigger] out@[c])@.len() >= 1 && increasing(out@[c]@)
                    && out@[c]@[0] < v + 1 && covered@[out@[c]@[0] as int] by {
                    if c < k {
                        assert(out@[c] == out0[c]);
                    }
                }
                assert forall|c: int, y: usize| 0 <= c < out@.len() implies (#[trigger] out@[c]@.contains(y) <==> strongly_connected(g, out@[c]@[0], y)) by {
                    if c < k {
                        assert(out@[c] == out0[c]);
                    } else {
                        if strongly_connected(g, v, y) {
                            lemma_reach_in(g, v, y);
                        }
                    }
                }
                assert forall|a: int, b: int| 0 <= a < b < out@.len() implies (#[trigger] out@[a])@[0] < (#[trigger] out@[b])@[0] by {
                    assert(out@[a] == out0[a]);
                    if b < k {
                        assert(out@[b] == out0[b]);
                    }
                }
            }
        }
        v = v + 1;
    }
    proof {
        let cs = nested(out@);
        let cov = |x: usize| x < n && covered@[x as int];
        assert forall|c: int| 0 <= c < cs.len() implies (#[trigger] cs[c]).len() >= 1 && increasing(cs[c]) by {
            assert(cs[c] == out@[c]@);
        }
        assert forall|c: int, y: usize| 0 <= c < cs.len() implies (#[trigger] cs[c].contains(y) <==> strongly_connected(g, cs[c][0], y)) by {
            assert(cs[c] == out@[c]@);
        }
        assert forall|a: int, b: int| 0 <= a < b < cs.len() implies (#[trigger] cs[a])[0] < (#[trigger] cs[b])[0] by {
            assert(cs[a] == out@[a]@);
            assert(cs[b] == out@[b]@);
        }
        assert forall|y: usize| #[trigger] cov(y) <==> exists|c: int| 0 <= c < cs.len() && #[trigger] cs[c].contains(y) by {
            if cov(y) {
                let c = comp_of@[y as int] as int;
                assert(cs[c] == out@[c]@);
            }
            if exists|c: int| 0 <= c < cs.len() && #[trigger] cs[c].contains(y) {
                let c = choose|c: int| 0 <= c < cs.len() && #[trigger] cs[c].contains(y);
                assert(cs[c] == out@[c]@);
                let f = out@[c]@[0];
                assert(covered@[f as int]);
                assert(strongly_connected(g, f, y));
            }
        }
    }
    out
}

/// Compute the strongly connected components of the whole graph.
pub fn strongly_connected_components<C>(successors: &[Vec<(usize, C)>]) -> (r: Vec<Vec<usize>>)
    requires
        wf(adj(successors@)),
    ensures
        scc_list(adj(successors@), nested(r@), |v: usize| v < successors@.len()),
{
    let ghost g = adj(successors@);
    let n = successors.len();
    let predecessors = predecessor_lists(successors);
    let mut covered: Vec<bool> = Vec::new();
    let mut i: usize = 0;
    while i < n
        invariant
            i <= n,
            covered@.len() == i,
            forall|x: int| 0 <= x < i ==> #[trigger] covered@[x],
        decreases n - i,
    {
        covered.push(true);
        i = i + 1;
    }
    proof {
        assert forall|u: usize, v: usize| u < n && covered@[u as int] && #[trigger] strongly_connected(g, u, v)
            implies v < n && covered@[v as int] by {
            lemma_reach_in(g, u, v);
        }
    }
    let r = components_covering(successors, predecessors.as_slice(), &covered);
    proof {
        let f1 = |v: usize| v < n && covered@[v as int];
        let f2 = |v: usize| v < n;
        assert(f1 =~= f2);
    }
    r
}

/// Compute the strongly connected components of the nodes that `start` reaches.
pub fn strongly_connected_components_from<C>(start: usize, successors: &[Vec<(usize, C)>]) -> (r: Vec<Vec<usize>>)
    requires
        wf(adj(successors@)),
        start < successors@.len(),
    ensures
        scc_list(adj(successors@), nested(r@), |v: usize| reachable(adj(successors@), start, v)),
{
    let ghost g = adj(successors@);
    let n = successors.len();
    let predecessors = predecessor_lists(successors);
    let covered = reachable_marks(start, successors);
    proof {
        assert forall|u: usize, v: usize| u < n && covered@[u as int] && #[trigger] strongly_connected(g, u, v)
            implies v < n && covered@[v as int] by {
            lemma_reach_in(g, u, v);
            lemma_reach_trans(g, start, u, v);
        }
    }
    let r = components_covering(successors, predecessors.as_slice(), &covered);
    proof {
        let f1 = |v: usize| v < n && covered@[v as int];
        let f2 = |v: usize| reachable(g, start, v);
        assert forall|v: usize| #[trigger] f1(v) == f2(v) by {
            if reachable(g, start, v) {
                lemma_reach_in(g, start, v);
            }
        }
        assert(f1 =~= f2);
    }
    r
}

} // verus!
