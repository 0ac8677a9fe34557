//! Connected components of undirected graphs.

use vstd::prelude::*;
use crate::spec::{adj, edge, is_path_from_to, reachable, wf};
use crate::directed::bfs::lemma_reverse_path;
use crate::directed::strongly_connected_components::{increasing, nested, scc_list, strongly_connected, strongly_connected_components};

verus! {

/// Every edge of `g` is matched by one in the other direction.
pub open spec fn symmetric<C>(g: Seq<Seq<(usize, C)>>) -> bool {
    forall|u: usize, v: usize| #[trigger] edge(g, u, v) ==> edge(g, v, u)
}

/// `cs` lists the connected components of `g`: every node of `g` is in one of
/// them, each component is in increasing order and holds exactly what its first
/// node reaches, and the components come in increasing order of their first node.
pub open spec fn component_list<C>(g: Seq<Seq<(usize, C)>>, cs: Seq<Seq<usize>>) -> bool {
    &&& forall|i: int| 0 <= i < cs.len() ==> (#[trigger] cs[i]).len() >= 1 && increasing(cs[i])
    &&& forall|i: int, v: usize| 0 <= i < cs.len() ==> (#[trigger] cs[i].contains(v) <==> reachable(g, cs[i][0], v))
    &&& forall|i: int, j: int| 0 <= i < j < cs.len() ==> (#[trigger] cs[i])[0] < (#[trigger] cs[j])[0]
    &&& forall|v: usize| v < g.len() <==> #[trigger] covered_by(cs, v)
}

/// Some sequence of `cs` holds `v`.
pub open spec fn covered_by(cs: Seq<Seq<usize>>, v: usize) -> bool {
    exists|i: int| 0 <= i < cs.len() && #[trigger] cs[i].contains(v)
}

/// In a symmetric graph, reaching is symmetric.
pub proof fn lemma_reach_symmetric<C>(g: Seq<Seq<(usize, C)>>, u: usize, v: usize)
    requires
        symmetric(g),
        reachable(g, u, v),
    ensures
        reachable(g, v, u),
{
    let p = choose|p: Seq<usize>| #[trigger] is_path_from_to(g, p, u, v);
    lemma_reverse_path(g, g, p);
    assert(is_path_from_to(g, p.reverse(), v, u));
}

/// Compute the connected components of a symmetric graph.
pub fn connected_components<C>(successors: &[Vec<(usize, C)>]) -> (r: Vec<Vec<usize>>)
    requires
        wf(adj(successors@)),
        symmetric(adj(successors@)),
    ensures
        component_list(adj(successors@), nested(r@)),
{
    let ghost g = adj(successors@);
    let r = strongly_connected_components(successors);
    proof {
        let cs = nested(r@);
        assert forall|i: int, v: usize| 0 <= i < cs.len() implies (#[trigger] cs[i].contains(v) <==> reachable(g, cs[i][0], v)) by {
            assert(cs[i].contains(v) <==> strongly_connected(g, cs[i][0], v));
            if reachable(g, cs[i][0], v) {
                lemma_reach_symmetric(g, cs[i][0], v);
            }
        }
        assert forall|v: usize| v < g.len() <==> #[trigger] covered_by(cs, v) by {
            let f = |x: usize| x < g.len();
            assert(f(v) <==> exists|i: int| 0 <= i < cs.len() && #[trigger] cs[i].contains(v));
        }
    }
    r
}

/// For each node, the position of its component in the list of
/// [`connected_components`].
pub fn component_index<C>(successors: &[Vec<(usize, C)>]) -> (r: Vec<usize>)
    requires
        wf(adj(successors@)),
        symmetric(adj(successors@)),
    ensures
        r@.len() == successors@.len(),
        forall|u: usize, v: usize| u < r@.len() && v < r@.len() ==> (r@[u as int] == r@[v as int] <==> reachable(adj(successors@), u, v)),
        forall|v: int| 0 <= v < r@.len() ==> #[trigger] r@[v] <= v,
        forall|v: int| 0 <= v < r@.len() && #[trigger] r@[v] > 0 ==> exists|u: int| 0 <= u < v && r@[u] + 1 == r@[v],
{
    let ghost g = adj(successors@);
    let n = successors.len();
    let cs = connected_components(successors);
    let ghost css = nested(cs@);
    let mut index: Vec<usize> = Vec::new();
    let mut i: usize = 0;
    while i < n
        invariant
            i <= n,
            index@.len() == i,
            forall|x: int| 0 <= x < i ==> #[trigger] index@[x] == usize::MAX,
        decreases n - i,
    {
        index.push(usize::MAX);
        i = i + 1;
    }
    let mut c: usize = 0;
    while c < cs.len()
        invariant
            g == adj(successors@),
            n == g.len(),
            css == nested(cs@),
            component_list(g, css),
            symmetric(g),
            index@.len() == n,
            c <= cs@.len(),
            forall|x: usize| x < n ==> (#[trigger] index@[x as int] == usize::MAX <==> forall|k: int| 0 <= k < c ==> !css[k].contains(x)),
            forall|x: usize, k: int| x < n && 0 <= k < c && #[trigger] css[k].contains(x) ==> index@[x as int] == k,
        decreases cs@.len() - c,
    {
        let comp = &cs[c];
        proof { assert(comp@ == css[c as int]); }
        let mut j: usize = 0;
        let ghost index0 = index@;
        while j < comp.len()
            invariant
                n == g.len(),
                css == nested(cs@),
                component_list(g, css),
                comp@ == css[c as int],
                c < cs@.len(),
                index@.len() == n,
                index0.len() == n,
                j <= comp@.len(),
                forall|x: int| 0 <= x < n ==> #[trigger] index@[x] == if exists|t: int| 0 <= t < j && comp@[t] == x {
                    c
                } else {
                    index0[x]
                },
            decreases comp@.len() - j,
        {
            let x = comp[j];
            proof {
                assert(css[c as int].contains(x));
                assert(x < n);
            }
            index.set(x, c);
            proof {
                assert forall|y: int| 0 <= y < n implies #[trigger] index@[y] == if exists|t: int| 0 <= t < j + 1 && comp@[t] == y {
                    c
                } else {
                    index0[y]
                } by {
                    if y == x {
                        assert(comp@[j as int] == y);
                    } else if exists|t: int| 0 <= t < j + 1 && comp@[t] == y {
                        let t = choose|t: int| 0 <= t < j + 1 && comp@[t] == y;
                        assert(t < j);
                    }
                }
            }
            j = j + 1;
        }
        proof {
            assert forall|x: usize| x < n implies (#[trigger] index@[x as int] == usize::MAX <==> forall|k: int| 0 <= k < c + 1 ==> !css[k].contains(x)) by {
                if css[c as int].contains(x) {
                    let t = choose|t: int| 0 <= t < comp@.len() && comp@[t] == x;
                    assert(exists|t: int| 0 <= t < comp@.len() && comp@[t] == x);
                } else {
                    assert(!exists|t: int| 0 <= t < comp@.len() && comp@[t] == x);
                }
            }
            assert forall|x: usize, k: int| x < n && 0 <= k < c + 1 && #[trigger] css[k].contains(x) implies index@[x as int] == k by {
                if k == c {
                    let t = choose|t: int| 0 <= t < comp@.len() && comp@[t] == x;
                    assert(exists|t: int| 0 <= t < comp@.len() && comp@[t] == x);
                } else {
                    lemma_components_disjoint(g, css, k, c as int, x);
                    assert(!exists|t: int| 0 <= t < comp@.len() && comp@[t] == x);
                }
            }
        }
        c = c + 1;
    }
    proof {
        assert forall|x: usize| x < n implies index@[x as int] < css.len() && #[trigger] css[index@[x as int] as int].contains(x) by {
            assert(covered_by(css, x));
            let k = choose|k: int| 0 <= k < css.len() && #[trigger] css[k].contains(x);
        }
        assert forall|u: usize, v: usize| u < n && v < n implies (index@[u as int] == index@[v as int] <==> reachable(g, u, v)) by {
            let ku = index@[u as int] as int;
            let kv = index@[v as int] as int;
            assert(css[ku].contains(u));
            assert(css[kv].contains(v));
            lemma_member_facts(g, css, ku, u);
            lemma_member_facts(g, css, kv, v);
            if ku == kv {
                lemma_reach_symmetric(g, css[ku][0], u);
                crate::directed::strongly_connected_components::lemma_reach_trans(g, u, css[ku][0], v);
            }
            if reachable(g, u, v) {
                crate::directed::strongly_connected_components::lemma_reach_trans(g, css[ku][0], u, v);
                assert(css[ku].contains(v));
                if ku != kv {
                    lemma_components_disjoint(g, css, ku, kv, v);
                }
            }
        }
        assert forall|v: int| 0 <= v < n implies #[trigger] index@[v] <= v by {
            let k = index@[v] as int;
            assert(css[k].contains(v as usize));
            lemma_first_nodes(g, css, k);
            lemma_member_facts(g, css, k, v as usize);
        }
        assert forall|v: int| 0 <= v < n && #[trigger] index@[v] > 0 implies exists|u: int| 0 <= u < v && index@[u] + 1 == index@[v] by {
            let k = index@[v] as int;
            assert(css[k].contains(v as usize));
            lemma_member_facts(g, css, k, v as usize);
            let u = css[k - 1][0];
            lemma_member_facts(g, css, k - 1, u);
            assert(css[k - 1].contains(u));
            let ku = index@[u as int] as int;
            assert(css[ku].contains(u));
            if ku != k - 1 {
                lemma_components_disjoint(g, css, ku, k - 1, u);
            }
            assert(index@[u as int] + 1 == index@[v]);
        }
    }
    index
}

/// The smallest node of the component of each node, once for the nodes and
/// once for the groups that each node forms with its neighbours.
pub fn separate_components<C>(successors: &[Vec<(usize, C)>]) -> (r: (Vec<usize>, Vec<usize>))
    requires
        wf(adj(successors@)),
        symmetric(adj(successors@)),
    ensures
        r.0@.len() == successors@.len(),
        r.1@ == r.0@,
        forall|v: usize| v < r.0@.len() ==> #[trigger] reachable(adj(successors@), v, r.0@[v as int]),
        forall|v: usize, u: usize| v < r.0@.len() && #[trigger] reachable(adj(successors@), v, u) ==> r.0@[v as int] <= u,
{
    let ghost g = adj(successors@);
    let n = successors.len();
    let cs = connected_components(successors);
    let ghost css = nested(cs@);
    let mut mins: Vec<usize> = Vec::new();
    let mut i: usize = 0;
    while i < n
        invariant
            i <= n,
            mins@.len() == i,
        decreases n - i,
    {
        mins.push(0);
        i = i + 1;
    }
    let mut c: usize = 0;
    while c < cs.len()
        invariant
            g == adj(successors@),
            n == g.len(),
            css == nested(cs@),
            component_list(g, css),
            symmetric(g),
            mins@.len() == n,
            c <= cs@.len(),
            forall|x: usize, k: int| x < n && 0 <= k < c && #[trigger] css[k].contains(x) ==> mins@[x as int] == css[k][0],
        decreases cs@.len() - c,
    {
        let comp = &cs[c];
        proof { assert(comp@ == css[c as int]); }
        let first = comp[0];
        let mut j: usize = 0;
        let ghost mins0 = mins@;
        while j < comp.len()
            invariant
                n == g.len(),
                css == nested(cs@),
                component_list(g, css),
                comp@ == css[c as int],
                c < cs@.len(),
                first == comp@[0],
                mins@.len() == n,
                mins0.len() == n,
                j <= comp@.len(),
                forall|x: int| 0 <= x < n ==> #[trigger] mins@[x] == if exists|t: int| 0 <= t < j && comp@[t] == x {
                    first
                } else {
                    mins0[x]
                },
            decreases comp@.len() - j,
        {
            let x = comp[j];
            proof {
                assert(css[c as int].contains(x));
                assert(x < n);
            }
            mins.set(x, first);
            proof {
                assert forall|y: int| 0 <= y < n implies #[trigger] mins@[y] == if exists|t: int| 0 <= t < j + 1 && comp@[t] == y {
                    first
                } else {
                    mins0[y]
                } by {
                    if y == x {
                        assert(comp@[j as int] == y);
                    } else if exists|t: int| 0 <= t < j + 1 && comp@[t] == y {
                        let t = choose|t: int| 0 <= t < j + 1 && comp@[t] == y;
                        assert(t < j);
                    }
                }
            }
            j = j + 1;
        }
        proof {
            assert forall|x: usize, k: int| x < n && 0 <= k < c + 1 && #[trigger] css[k].contains(x) implies mins@[x as int] == css[k][0] by {
                if k == c {
                    let t = choose|t: int| 0 <= t < comp@.len() && comp@[t] == x;
                    assert(exists|t: int| 0 <= t < comp@.len() && comp@[t] == x);
                } else {
                    lemma_components_disjoint(g, css, k, c as int, x);
                    assert(!exists|t: int| 0 <= t < comp@.len() && comp@[t] == x);
                }
            }
        }
        c = c + 1;
    }
    proof {
        assert forall|v: usize| v < n implies #[trigger] reachable(g, v, mins@[v as int]) by {
            assert(covered_by(css, v));
            let k = choose|k: int| 0 <= k < css.len() && #[trigger] css[k].contains(v);
            lemma_member_facts(g, css, k, v);
            lemma_reach_symmetric(g, css[k][0], v);
        }
        assert forall|v: usize, u: usize| v < n && #[trigger] reachable(g, v, u) implies mins@[v as int] <= u by {
            assert(covered_by(css, v));
            let k = choose|k: int| 0 <= k < css.len() && #[trigger] css[k].contains(v);
            lemma_member_facts(g, css, k, v);
            crate::directed::strongly_connected_components::lemma_reach_trans(g, css[k][0], v, u);
            assert(css[k].contains(u));
            let t = choose|t: int| 0 <= t < css[k].len() && css[k][t] == u;
            if t > 0 {
                assert(css[k][0] < css[k][t]);
            }
        }
    }
    let groups = copy_of(&mins);
    (mins, groups)
}

/// A copy of `v`.
fn copy_of(v: &Vec<usize>) -> (r: Vec<usize>)
    ensures
        r@ == v@,
{
    let mut r: Vec<usize> = Vec::new();
    let mut i: usize = 0;
    while i < v.len()
        invariant
            i <= v@.len(),
            r@ == v@.take(i as int),
        decreases v@.len() - i,
    {
        r.push(v[i]);
        i = i + 1;
        proof { assert(r@ =~= v@.take(i as int)); }
    }
    proof { assert(v@.take(v@.len() as int) =~= v@); }
    r
}

/// A member of a component reaches, and is reached from, its first node, and
/// is not below it.
proof fn lemma_member_facts<C>(g: Seq<Seq<(usize, C)>>, cs: Seq<Seq<usize>>, k: int, v: usize)
    requires
        component_list(g, cs),
        0 <= k < cs.len(),
        cs[k].contains(v),
    ensures
        reachable(g, cs[k][0], v),
        cs[k][0] <= v,
        v < g.len(),
{
    let t = choose|t: int| 0 <= t < cs[k].len() && cs[k][t] == v;
    if t > 0 {
        assert(cs[k][0] < cs[k][t]);
    }
    let p = choose|p: Seq<usize>| #[trigger] is_path_from_to(g, p, cs[k][0], v);
    assert(p[p.len() - 1] < g.len());
}

/// Two components of the list of a symmetric graph share no node.
proof fn lemma_components_disjoint<C>(g: Seq<Seq<(usize, C)>>, cs: Seq<Seq<usize>>, a: int, b: int, v: usize)
    requires
        symmetric(g),
        component_list(g, cs),
        0 <= a < cs.len(),
        0 <= b < cs.len(),
        a != b,
        cs[a].contains(v),
    ensures
        !cs[b].contains(v),
{
    if cs[b].contains(v) {
        let (i, j) = if a < b { (a, b) } else { (b, a) };
        lemma_member_facts(g, cs, i, v);
        lemma_member_facts(g, cs, j, v);
        assert(cs[i][0] < cs[j][0]);
        let fi = cs[i][0];
        let fj = cs[j][0];
        lemma_reach_symmetric(g, fj, v);
        crate::directed::strongly_connected_components::lemma_reach_trans(g, fi, v, fj);
        assert(cs[i].contains(fj));
        lemma_reach_symmetric(g, fi, v);
        crate::directed::strongly_connected_components::lemma_reach_trans(g, fj, v, fi);
        assert(cs[j].contains(fi));
        lemma_member_facts(g, cs, j, fi);
    }
}

/// The first node of component `k` is at least `k`.
proof fn lemma_first_nodes<C>(g: Seq<Seq<(usize, C)>>, cs: Seq<Seq<usize>>, k: int)
    requires
        component_list(g, cs),
        0 <= k < cs.len(),
    ensures
        cs[k][0] >= k,
    decreases k,
{
    if k > 0 {
        lemma_first_nodes(g, cs, k - 1);
        assert(cs[k - 1][0] < cs[k][0]);
    }
}

} // verus!
