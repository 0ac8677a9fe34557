//! Maximal cliques by the Bron–Kerbosch algorithm.

use vstd::prelude::*;
use crate::spec::{adj, edge, wf};
use crate::outside::{FxSet, fx_set_contains, fx_set_insert, fx_set_new};
use crate::directed::strongly_connected_components::nested;
use crate::undirected::connected_components::symmetric;

verus! {

/// `c` is a clique of `g`: a set of nodes of `g` any two of which are joined
/// by an edge.
pub open spec fn is_clique<C>(g: Seq<Seq<(usize, C)>>, c: Set<usize>) -> bool {
    &&& forall|v: usize| #[trigger] c.contains(v) ==> v < g.len()
    &&& forall|a: usize, b: usize| #![trigger c.contains(a), c.contains(b)]
        c.contains(a) && c.contains(b) && a != b ==> edge(g, a, b)
}

/// `c` is a maximal clique of `g`: a clique to which no other node of `g` can
/// be added.
pub open spec fn is_maximal_clique<C>(g: Seq<Seq<(usize, C)>>, c: Set<usize>) -> bool {
    &&& is_clique(g, c)
    &&& forall|v: usize| v < g.len() && !c.contains(v) ==> !#[trigger] is_clique(g, c.insert(v))
}

/// `l` lists the maximal cliques of `g`, each exactly once, each as a list of
/// distinct nodes.
pub open spec fn clique_list<C>(g: Seq<Seq<(usize, C)>>, l: Seq<Seq<usize>>) -> bool {
    &&& forall|k: int| 0 <= k < l.len() ==> (#[trigger] l[k]).no_duplicates() && is_maximal_clique(g, l[k].to_set())
    &&& forall|c: Set<usize>| #[trigger] is_maximal_clique(g, c) ==> exists|k: int| 0 <= k < l.len() && (#[trigger] l[k]).to_set() == c
    &&& forall|k1: int, k2: int| 0 <= k1 < k2 < l.len() ==> (#[trigger] l[k1]).to_set() != (#[trigger] l[k2]).to_set()
}

/// `after` is `before` followed by lists of distinct nodes whose sets are
/// exactly the sets where `want` holds, each once.
spec fn lists_exactly(before: Seq<Seq<usize>>, after: Seq<Seq<usize>>, want: spec_fn(Set<usize>) -> bool) -> bool {
    &&& before.len() <= after.len()
    &&& forall|k: int| 0 <= k < before.len() ==> #[trigger] after[k] == before[k]
    &&& forall|k: int| before.len() <= k < after.len() ==> (#[trigger] after[k]).no_duplicates() && want(after[k].to_set())
    &&& forall|c: Set<usize>| #[trigger] want(c) ==> exists|k: int| before.len() <= k < after.len() && (#[trigger] after[k]).to_set() == c
    &&& forall|k1: int, k2: int| before.len() <= k1 < k2 < after.len() ==> (#[trigger] after[k1]).to_set() != (#[trigger] after[k2]).to_set()
}

/// The state of a call of the search: `r` is a clique, the candidates `p`
/// and the excluded nodes `x` are apart from each other and from `r`, each
/// extends `r` to a clique, and every node that does is one or the other.
spec fn bk_ok<C>(g: Seq<Seq<(usize, C)>>, r: Set<usize>, p: Set<usize>, x: Set<usize>) -> bool {
    &&& is_clique(g, r)
    &&& forall|v: usize| #[trigger] p.contains(v) ==> !r.contains(v) && !x.contains(v) && v < g.len() && is_clique(g, r.insert(v))
    &&& forall|v: usize| #[trigger] x.contains(v) ==> !r.contains(v) && v < g.len() && is_clique(g, r.insert(v))
    &&& forall|v: usize| v < g.len() && !r.contains(v) && #[trigger] is_clique(g, r.insert(v)) ==> p.contains(v) || x.contains(v)
}

/// A maximal clique that holds `r` and otherwise only nodes of `p`: what a
/// call of the search on `r` and `p` reports.
spec fn target<C>(g: Seq<Seq<(usize, C)>>, r: Set<usize>, p: Set<usize>, c: Set<usize>) -> bool {
    &&& is_maximal_clique(g, c)
    &&& forall|v: usize| #[trigger] r.contains(v) ==> c.contains(v)
    &&& forall|v: usize| #[trigger] c.contains(v) ==> r.contains(v) || p.contains(v)
}

/// The cliques that a call on `r` and `p` is to report, as a predicate.
spec fn targets<C>(g: Seq<Seq<(usize, C)>>, r: Set<usize>, p: Set<usize>) -> spec_fn(Set<usize>) -> bool {
    |c: Set<usize>| target(g, r, p, c)
}

/// The cliques that a call on `r` and `p0` has reported once only `pi` is
/// left of its candidates.
spec fn found<C>(g: Seq<Seq<(usize, C)>>, r: Set<usize>, p0: Set<usize>, pi: Set<usize>) -> spec_fn(Set<usize>) -> bool {
    |c: Set<usize>| target(g, r, p0, c) && !target(g, r, pi, c)
}

/// The neighbours of each node, as sets.
spec fn neighbours_ok<C>(sets: Seq<FxSet>, g: Seq<Seq<(usize, C)>>) -> bool {
    &&& sets.len() == g.len()
    &&& forall|a: usize, b: usize| a < g.len() ==> (#[trigger] sets[a as int]@.contains(b) <==> edge(g, a, b))
}

/// A subset of a clique is a clique.
proof fn lemma_clique_subset<C>(g: Seq<Seq<(usize, C)>>, c: Set<usize>, d: Set<usize>)
    requires
        is_clique(g, c),
        forall|v: usize| #[trigger] d.contains(v) ==> c.contains(v),
    ensures
        is_clique(g, d),
{
    assert forall|a: usize, b: usize| d.contains(a) && d.contains(b) && a != b implies edge(g, a, b) by {
        assert(c.contains(a) && c.contains(b));
    }
}

/// Two nodes that each extend a clique, and are joined, extend it together.
proof fn lemma_clique_two<C>(g: Seq<Seq<(usize, C)>>, r: Set<usize>, v: usize, w: usize)
    requires
        symmetric(g),
        is_clique(g, r.insert(v)),
        is_clique(g, r.insert(w)),
        edge(g, v, w),
    ensures
        is_clique(g, r.insert(v).insert(w)),
{
    let c = r.insert(v).insert(w);
    assert(edge(g, w, v));
    assert forall|u: usize| #[trigger] c.contains(u) implies u < g.len() by {
        if u == w {
            assert(r.insert(w).contains(w));
        } else {
            assert(r.insert(v).contains(u));
        }
    }
    assert forall|a: usize, b: usize| c.contains(a) && c.contains(b) && a != b implies edge(g, a, b) by {
        if a == w && b == v {
        } else if a == v && b == w {
        } else if a == w || b == w {
            assert(r.insert(w).contains(a) && r.insert(w).contains(b));
        } else {
            assert(r.insert(v).contains(a) && r.insert(v).contains(b));
        }
    }
}

/// The state of the call made for the candidate `v`, and what it reports:
/// the cliques of the current call that hold `v`.
proof fn lemma_step<C>(
    g: Seq<Seq<(usize, C)>>,
    r: Set<usize>,
    pi: Set<usize>,
    xi: Set<usize>,
    v: usize,
    p2: Set<usize>,
    x2: Set<usize>,
)
    requires
        symmetric(g),
        bk_ok(g, r, pi, xi),
        pi.contains(v),
        forall|w: usize| #[trigger] p2.contains(w) <==> pi.contains(w) && w != v && edge(g, v, w),
        forall|w: usize| #[trigger] x2.contains(w) <==> xi.contains(w) && w != v && edge(g, v, w),
    ensures
        bk_ok(g, r.insert(v), p2, x2),
        forall|c: Set<usize>| #[trigger] target(g, r.insert(v), p2, c) <==> target(g, r, pi, c) && c.contains(v),
{
    let r2 = r.insert(v);
    assert forall|w: usize| #[trigger] p2.contains(w) implies !r2.contains(w) && !x2.contains(w) && w < g.len()
        && is_clique(g, r2.insert(w)) by {
        assert(pi.contains(w));
        lemma_clique_two(g, r, v, w);
    }
    assert forall|w: usize| #[trigger] x2.contains(w) implies !r2.contains(w) && w < g.len() && is_clique(g, r2.insert(w)) by {
        assert(xi.contains(w));
        lemma_clique_two(g, r, v, w);
    }
    assert forall|w: usize| w < g.len() && !r2.contains(w) && #[trigger] is_clique(g, r2.insert(w))
        implies p2.contains(w) || x2.contains(w) by {
        let c = r2.insert(w);
        lemma_clique_subset(g, c, r.insert(w));
        assert(is_clique(g, r.insert(w)));
        assert(c.contains(v) && c.contains(w));
        assert(edge(g, v, w));
        assert(pi.contains(w) || xi.contains(w));
    }
    assert forall|c: Set<usize>| #[trigger] target(g, r2, p2, c) <==> target(g, r, pi, c) && c.contains(v) by {
        if target(g, r2, p2, c) {
            assert(r2.contains(v));
            assert forall|u: usize| #[trigger] c.contains(u) implies r.contains(u) || pi.contains(u) by {
                assert(r2.contains(u) || p2.contains(u));
            }
            assert forall|u: usize| #[trigger] r.contains(u) implies c.contains(u) by {
                assert(r2.contains(u));
            }
        }
        if target(g, r, pi, c) && c.contains(v) {
            assert forall|u: usize| #[trigger] c.contains(u) implies r2.contains(u) || p2.contains(u) by {
                if !r.contains(u) && u != v {
                    assert(pi.contains(u));
                    assert(c.contains(v) && c.contains(u));
                    assert(edge(g, v, u));
                }
            }
            assert forall|u: usize| #[trigger] r2.contains(u) implies c.contains(u) by {
                if u != v {
                    assert(r.contains(u));
                }
            }
        }
    }
}

/// Moving the candidate `v` to the excluded nodes keeps the state; the
/// cliques of the call are then those left plus those that hold `v`.
proof fn lemma_advance<C>(
    g: Seq<Seq<(usize, C)>>,
    r: Set<usize>,
    pi: Set<usize>,
    xi: Set<usize>,
    v: usize,
)
    requires
        bk_ok(g, r, pi, xi),
        pi.contains(v),
    ensures
        bk_ok(g, r, pi.remove(v), xi.insert(v)),
        forall|c: Set<usize>| #[trigger] target(g, r, pi, c) <==> target(g, r, pi.remove(v), c) || (target(g, r, pi, c) && c.contains(v)),
        forall|c: Set<usize>| #[trigger] target(g, r, pi.remove(v), c) ==> !c.contains(v) && target(g, r, pi, c),
{
    let pn = pi.remove(v);
    let xn = xi.insert(v);
    assert forall|w: usize| w < g.len() && !r.contains(w) && #[trigger] is_clique(g, r.insert(w))
        implies pn.contains(w) || xn.contains(w) by {
        assert(pi.contains(w) || xi.contains(w));
    }
    assert forall|w: usize| #[trigger] xn.contains(w) implies !r.contains(w) && w < g.len() && is_clique(g, r.insert(w)) by {
        if w != v {
            assert(xi.contains(w));
        }
    }
    assert forall|c: Set<usize>| #[trigger] target(g, r, pn, c) implies !c.contains(v) && target(g, r, pi, c) by {
        assert forall|u: usize| #[trigger] c.contains(u) implies r.contains(u) || pi.contains(u) by {
            assert(r.contains(u) || pn.contains(u));
        }
        if c.contains(v) {
            assert(r.contains(v) || pn.contains(v));
        }
    }
    assert forall|c: Set<usize>| #[trigger] target(g, r, pi, c) && !c.contains(v) implies target(g, r, pn, c) by {
        assert forall|u: usize| #[trigger] c.contains(u) implies r.contains(u) || pn.contains(u) by {
            assert(r.contains(u) || pi.contains(u));
        }
    }
}

/// With no candidates left, the clique `r` is maximal exactly when nothing is
/// excluded.
proof fn lemma_no_candidates<C>(g: Seq<Seq<(usize, C)>>, r: Set<usize>, p: Set<usize>, x: Set<usize>)
    requires
        bk_ok(g, r, p, x),
        forall|v: usize| !#[trigger] p.contains(v),
    ensures
        (forall|v: usize| !#[trigger] x.contains(v)) ==> target(g, r, p, r),
        forall|c: Set<usize>| #[trigger] target(g, r, p, c) ==> c =~= r && forall|v: usize| !#[trigger] x.contains(v),
{
    assert forall|c: Set<usize>| #[trigger] target(g, r, p, c) implies c =~= r && forall|v: usize| !#[trigger] x.contains(v) by {
        assert forall|u: usize| #[trigger] c.contains(u) implies r.contains(u) by {
            assert(r.contains(u) || p.contains(u));
        }
        assert(c =~= r);
        assert forall|v: usize| !#[trigger] x.contains(v) by {
            if x.contains(v) {
                assert(v < g.len() && !c.contains(v));
                assert(c.insert(v) == r.insert(v));
                assert(!is_clique(g, c.insert(v)));
            }
        }
    }
    if forall|v: usize| !#[trigger] x.contains(v) {
        assert forall|v: usize| v < g.len() && !r.contains(v) implies !#[trigger] is_clique(g, r.insert(v)) by {
            if is_clique(g, r.insert(v)) {
                assert(p.contains(v) || x.contains(v));
            }
        }
    }
}

/// Appending the lists of a second stage to those of a first reports the
/// sets that either stage wants, where no set is wanted by both.
proof fn lemma_lists_concat(
    a: Seq<Seq<usize>>,
    b: Seq<Seq<usize>>,
    c: Seq<Seq<usize>>,
    f1: spec_fn(Set<usize>) -> bool,
    f2: spec_fn(Set<usize>) -> bool,
    f3: spec_fn(Set<usize>) -> bool,
)
    requires
        lists_exactly(a, b, f1),
        lists_exactly(b, c, f2),
        forall|s: Set<usize>| #[trigger] f3(s) <==> f1(s) || f2(s),
        forall|s: Set<usize>| #[trigger] f1(s) ==> !f2(s),
    ensures
        lists_exactly(a, c, f3),
{
    assert forall|k: int| 0 <= k < a.len() implies #[trigger] c[k] == a[k] by {
        assert(b[k] == a[k]);
    }
    assert forall|k: int| a.len() <= k < c.len() implies (#[trigger] c[k]).no_duplicates() && f3(c[k].to_set()) by {
        if k < b.len() {
            assert(c[k] == b[k]);
            assert(f1(b[k].to_set()));
        } else {
            assert(f2(c[k].to_set()));
        }
    }
    assert forall|s: Set<usize>| #[trigger] f3(s) implies exists|k: int| a.len() <= k < c.len() && (#[trigger] c[k]).to_set() == s by {
        if f1(s) {
            let k = choose|k: int| a.len() <= k < b.len() && (#[trigger] b[k]).to_set() == s;
            assert(c[k] == b[k]);
        } else {
            assert(f2(s));
            let k = choose|k: int| b.len() <= k < c.len() && (#[trigger] c[k]).to_set() == s;
            assert(c[k].to_set() == s);
        }
    }
    assert forall|k1: int, k2: int| a.len() <= k1 < k2 < c.len() implies (#[trigger] c[k1]).to_set() != (#[trigger] c[k2]).to_set() by {
        if k2 < b.len() {
            assert(c[k1] == b[k1] && c[k2] == b[k2]);
        } else if k1 < b.len() {
            assert(c[k1] == b[k1]);
            assert(f1(b[k1].to_set()));
            assert(f2(c[k2].to_set()));
        }
    }
}

/// The set of a list after a push.
proof fn lemma_push_set(s: Seq<usize>, v: usize)
    ensures
        s.push(v).to_set() =~= s.to_set().insert(v),
{
    assert forall|w: usize| #[trigger] s.push(v).to_set().contains(w) <==> s.to_set().insert(v).contains(w) by {
        if s.push(v).contains(w) && w != v {
            let j = choose|j: int| 0 <= j < s.push(v).len() && s.push(v)[j] == w;
            assert(s[j] == w);
        }
        if s.contains(w) {
            let j = choose|j: int| 0 <= j < s.len() && s[j] == w;
            assert(s.push(v)[j] == w);
        }
        if w == v {
            assert(s.push(v)[s.len() as int] == w);
        }
    }
}

/// Dropping the first of the remaining candidates of a list without repeats.
proof fn lemma_skip_set(p: Seq<usize>, i: int)
    requires
        p.no_duplicates(),
        0 <= i < p.len(),
    ensures
        p.skip(i + 1).to_set() =~= p.skip(i).to_set().remove(p[i]),
        p.skip(i).to_set().contains(p[i]),
        forall|w: usize| #[trigger] p.skip(i).to_set().contains(w) <==> exists|j: int| i <= j < p.len() && p[j] == w,
{
    assert forall|w: usize| #[trigger] p.skip(i).to_set().contains(w) <==> exists|j: int| i <= j < p.len() && p[j] == w by {
        if p.skip(i).contains(w) {
            let q = choose|q: int| 0 <= q < p.skip(i).len() && p.skip(i)[q] == w;
            assert(p[i + q] == w);
        }
        if exists|j: int| i <= j < p.len() && p[j] == w {
            let j = choose|j: int| i <= j < p.len() && p[j] == w;
            assert(p.skip(i)[j - i] == w);
        }
    }
    let i1 = i + 1;
    let s1 = p.skip(i1);
    assert forall|w: usize| #[trigger] s1.to_set().contains(w) <==> exists|j: int| i1 <= j < p.len() && p[j] == w by {
        if s1.contains(w) {
            let q = choose|q: int| 0 <= q < s1.len() && s1[q] == w;
            assert(p[i1 + q] == w);
        }
        if exists|j: int| i1 <= j < p.len() && p[j] == w {
            let j = choose|j: int| i1 <= j < p.len() && p[j] == w;
            assert(s1[j - i1] == w);
        }
    }
    assert(p.skip(i).to_set().contains(p[i]));
}

/// The neighbours of each node as a set of `rustc_hash`.
fn adjacency_sets<C>(adjacency: &[Vec<(usize, C)>]) -> (r: Vec<FxSet>)
    ensures
        neighbours_ok(r@, adj(adjacency@)),
{
    let ghost g = adj(adjacency@);
    let mut sets: Vec<FxSet> = Vec::new();
    let mut a: usize = 0;
    while a < adjacency.len()
        invariant
            g == adj(adjacency@),
            a <= adjacency@.len(),
            sets@.len() == a,
            forall|u: usize, b: usize| u < a ==> (#[trigger] sets@[u as int]@.contains(b) <==> edge(g, u, b)),
        decreases adjacency@.len() - a,
    {
        let list = &adjacency[a];
        proof { assert(list@ == g[a as int]); }
        let mut s = fx_set_new();
        let mut k: usize = 0;
        while k < list.len()
            invariant
                g == adj(adjacency@),
                a < adjacency@.len(),
                list@ == g[a as int],
                k <= list@.len(),
                forall|b: usize| #[trigger] s@.contains(b) <==> exists|j: int| 0 <= j < k && list@[j].0 == b,
            decreases list@.len() - k,
        {
            let ghost s0 = s@;
            fx_set_insert(&mut s, list[k].0);
            proof {
                assert forall|b: usize| #[trigger] s@.contains(b) <==> exists|j: int| 0 <= j < k + 1 && list@[j].0 == b by {
                    if s0.contains(b) {
                        let j = choose|j: int| 0 <= j < k && list@[j].0 == b;
                        assert(0 <= j < k + 1 && list@[j].0 == b);
                    }
                    if b == list@[k as int].0 {
                        assert(0 <= k < k + 1 && list@[k as int].0 == b);
                    }
                }
            }
            k = k + 1;
        }
        proof {
            assert forall|b: usize| #[trigger] s@.contains(b) <==> edge(g, a, b) by {
                if s@.contains(b) {
                    let j = choose|j: int| 0 <= j < k && list@[j].0 == b;
                    assert(g[a as int][j].0 == b);
                }
                if edge(g, a, b) {
                    let j = choose|j: int| 0 <= j < g[a as int].len() && #[trigger] g[a as int][j].0 == b;
                    assert(list@[j].0 == b);
                }
            }
        }
        sets.push(s);
        a = a + 1;
    }
    sets
}

/// A copy of a list of nodes.
fn copy_nodes(s: &Vec<usize>) -> (r: Vec<usize>)
    ensures
        r@ == s@,
{
    let mut r: Vec<usize> = Vec::new();
    let mut i: usize = 0;
    while i < s.len()
        invariant
            i <= s@.len(),
            r@ == s@.take(i as int),
        decreases s@.len() - i,
    {
        r.push(s[i]);
        proof { assert(s@.take(i + 1) == s@.take(i as int).push(s@[i as int])); }
        i = i + 1;
    }
    proof { assert(s@.take(s@.len() as int) == s@); }
    r
}

/// One call of the search: report every maximal clique that holds `r` and
/// otherwise only candidates of `p`, trying the candidates in turn and moving
/// each, once tried, to the excluded nodes `x`.
fn bron_kerbosch<C>(
    sets: &Vec<FxSet>,
    r: &Vec<usize>,
    p: &Vec<usize>,
    x: &Vec<usize>,
    out: &mut Vec<Vec<usize>>,
    Ghost(g): Ghost<Seq<Seq<(usize, C)>>>,
)
    requires
        neighbours_ok(sets@, g),
        symmetric(g),
        r@.no_duplicates(),
        p@.no_duplicates(),
        bk_ok(g, r@.to_set(), p@.to_set(), x@.to_set()),
    ensures
        lists_exactly(nested(old(out)@), nested(final(out)@), targets(g, r@.to_set(), p@.to_set())),
    decreases p@.len(),
{
    let ghost before = nested(out@);
    let ghost rs = r@.to_set();
    let ghost p0 = p@.to_set();
    if p.len() == 0 && x.len() == 0 {
        proof {
            lemma_no_candidates(g, rs, p0, x@.to_set());
        }
        let c = copy_nodes(r);
        out.push(c);
        proof {
            let after = nested(out@);
            assert(after == before.push(r@));
            assert(targets(g, rs, p0)(rs));
            assert forall|s: Set<usize>| #[trigger] targets(g, rs, p0)(s) implies exists|k: int| before.len() <= k < after.len()
                && (#[trigger] after[k]).to_set() == s by {
                assert(target(g, rs, p0, s));
                assert(s =~= rs);
                assert(after[before.len() as int].to_set() == s);
            }
        }
        return;
    }
    let ghost mut xs_set = x@.to_set();
    let mut xs = copy_nodes(x);
    let mut i: usize = 0;
    proof {
        assert(p@.skip(0) == p@);
        assert(found(g, rs, p0, p@.skip(0).to_set()) =~= |s: Set<usize>| false);
        assert(lists_exactly(before, nested(out@), found(g, rs, p0, p@.skip(0).to_set())));
    }
    while i < p.len()
        invariant
            neighbours_ok(sets@, g),
            symmetric(g),
            r@.no_duplicates(),
            p@.no_duplicates(),
            rs == r@.to_set(),
            p0 == p@.to_set(),
            i <= p@.len(),
            xs_set == xs@.to_set(),
            xs@.len() > 0 || p@.len() > 0,
            xs@.len() >= i,
            bk_ok(g, rs, p@.skip(i as int).to_set(), xs_set),
            forall|w: usize| #[trigger] p@.skip(i as int).to_set().contains(w) ==> p0.contains(w),
            lists_exactly(before, nested(out@), found(g, rs, p0, p@.skip(i as int).to_set())),
        decreases p@.len() - i,
    {
        let v = p[i];
        let ghost pi = p@.skip(i as int).to_set();
        proof {
            lemma_skip_set(p@, i as int);
        }
        // The candidates after `v` that are joined to it.
        let mut p2: Vec<usize> = Vec::new();
        let mut j: usize = i + 1;
        while j < p.len()
            invariant
                neighbours_ok(sets@, g),
                p@.no_duplicates(),
                i < p@.len(),
                v == p@[i as int],
                v < g.len(),
                i + 1 <= j <= p@.len(),
                p2@.len() <= j - (i + 1),
                p2@.no_duplicates(),
                forall|w: usize| #[trigger] p2@.contains(w) <==> exists|q: int| i < q < j && p@[q] == w && w != v && edge(g, v, w),
            decreases p@.len() - j,
        {
            let w = p[j];
            if w != v && fx_set_contains(&sets[v], w) {
                let ghost q0 = p2@;
                p2.push(w);
                proof {
                    assert(!q0.contains(w)) by {
                        if q0.contains(w) {
                            let q = choose|q: int| i < q < j && p@[q] == w && w != v && edge(g, v, w);
                            assert(p@[q] == p@[j as int]);
                        }
                    }
                    assert forall|a: int, b: int| 0 <= a < p2@.len() && 0 <= b < p2@.len() && a != b implies p2@[a] != p2@[b] by {
                        if a < q0.len() && b < q0.len() {
                            assert(p2@[a] == q0[a] && p2@[b] == q0[b]);
                        } else if a < q0.len() {
                            assert(q0.contains(p2@[a]));
                        } else {
                            assert(q0.contains(p2@[b]));
                        }
                    }
                    assert forall|u: usize| #[trigger] p2@.contains(u) <==> exists|q: int| i < q < j + 1 && p@[q] == u && u != v && edge(g, v, u) by {
                        lemma_push_set(q0, w);
                        assert(p2@.to_set().contains(u) == p2@.contains(u));
                        assert(q0.to_set().contains(u) == q0.contains(u));
                        if u == w {
                            assert(i < j && p@[j as int] == u);
                        }
                        if q0.contains(u) {
                            let q = choose|q: int| i < q < j && p@[q] == u && u != v && edge(g, v, u);
                            assert(i < q < j + 1);
                        }
                    }
                }
            } else {
                proof {
                    assert forall|u: usize| #[trigger] p2@.contains(u) <==> exists|q: int| i < q < j + 1 && p@[q] == u && u != v && edge(g, v, u) by {
                        if exists|q: int| i < q < j + 1 && p@[q] == u && u != v && edge(g, v, u) {
                            let q = choose|q: int| i < q < j + 1 && p@[q] == u && u != v && edge(g, v, u);
                            if q == j {
                                assert(sets@[v as int]@.contains(w));
                            } else {
                                assert(i < q < j);
                            }
                        }
                    }
                }
            }
            j = j + 1;
        }
        // The excluded nodes that are joined to `v`.
        let mut x2: Vec<usize> = Vec::new();
        let mut k: usize = 0;
        while k < xs.len()
            invariant
                neighbours_ok(sets@, g),
                v < g.len(),
                k <= xs@.len(),
                forall|w: usize| #[trigger] x2@.contains(w) <==> exists|q: int| 0 <= q < k && xs@[q] == w && w != v && edge(g, v, w),
            decreases xs@.len() - k,
        {
            let w = xs[k];
            let ghost q0 = x2@;
            if w != v && fx_set_contains(&sets[v], w) {
                x2.push(w);
            }
            proof {
                lemma_push_set(q0, w);
                assert forall|u: usize| #[trigger] x2@.contains(u) <==> exists|q: int| 0 <= q < k + 1 && xs@[q] == u && u != v && edge(g, v, u) by {
                    assert(x2@.to_set().contains(u) == x2@.contains(u));
                    assert(q0.to_set().contains(u) == q0.contains(u));
                    if q0.contains(u) {
                        let q = choose|q: int| 0 <= q < k && xs@[q] == u && u != v && edge(g, v, u);
                        assert(0 <= q < k + 1);
                    }
                    if exists|q: int| 0 <= q < k + 1 && xs@[q] == u && u != v && edge(g, v, u) {
                        let q = choose|q: int| 0 <= q < k + 1 && xs@[q] == u && u != v && edge(g, v, u);
                        if q == k {
                            assert(sets@[v as int]@.contains(w));
                        } else {
                            assert(0 <= q < k);
                        }
                    }
                }
            }
            k = k + 1;
        }
        let mut r2 = copy_nodes(r);
        r2.push(v);
        proof {
            lemma_push_set(r@, v);
            assert(!rs.contains(v));
            assert forall|a: int, b: int| 0 <= a < r2@.len() && 0 <= b < r2@.len() && a != b implies r2@[a] != r2@[b] by {
                if a < r@.len() && b < r@.len() {
                } else if a < r@.len() {
                    assert(rs.contains(r2@[a]));
                } else {
                    assert(rs.contains(r2@[b]));
                }
            }
            let p2s = p2@.to_set();
            let x2s = x2@.to_set();
            assert forall|w: usize| #[trigger] p2s.contains(w) <==> pi.contains(w) && w != v && edge(g, v, w) by {
                if p2@.contains(w) {
                    let q = choose|q: int| i < q < j && p@[q] == w && w != v && edge(g, v, w);
                    assert(i <= q < p@.len());
                }
                if pi.contains(w) && w != v && edge(g, v, w) {
                    let q = choose|q: int| i <= q < p@.len() && p@[q] == w;
                    assert(q != i);
                    assert(i < q < j && p@[q] == w);
                }
            }
            assert forall|w: usize| #[trigger] x2s.contains(w) <==> xs_set.contains(w) && w != v && edge(g, v, w) by {
                if x2@.contains(w) {
                    let q = choose|q: int| 0 <= q < k && xs@[q] == w && w != v && edge(g, v, w);
                    assert(xs@.contains(w));
                }
                if xs@.contains(w) && w != v && edge(g, v, w) {
                    let q = choose|q: int| 0 <= q < xs@.len() && xs@[q] == w;
                    assert(0 <= q < k && xs@[q] == w);
                }
            }
            lemma_step(g, rs, pi, xs_set, v, p2s, x2s);
            assert(r2@.to_set() == rs.insert(v));
        }
        let ghost mid = nested(out@);
        bron_kerbosch::<C>(sets, &r2, &p2, &x2, out, Ghost(g));
        proof {
            let pn = p@.skip(i + 1).to_set();
            lemma_advance(g, rs, pi, xs_set, v);
            assert(pn == pi.remove(v));
            let f1 = found(g, rs, p0, pi);
            let f2 = targets(g, rs.insert(v), p2@.to_set());
            let f3 = found(g, rs, p0, pn);
            assert forall|s: Set<usize>| #[trigger] f3(s) <==> f1(s) || f2(s) by {
                assert(f2(s) == (target(g, rs, pi, s) && s.contains(v)));
                if target(g, rs, pi, s) {
                    assert forall|u: usize| #[trigger] s.contains(u) implies rs.contains(u) || p0.contains(u) by {
                        assert(rs.contains(u) || pi.contains(u));
                    }
                }
            }
            assert forall|s: Set<usize>| #[trigger] f1(s) implies !f2(s) by {
                assert(f2(s) == (target(g, rs, pi, s) && s.contains(v)));
            }
            lemma_lists_concat(before, mid, nested(out@), f1, f2, f3);
        }
        let ghost xs0 = xs@;
        xs.push(v);
        proof {
            lemma_push_set(xs0, v);
            xs_set = xs_set.insert(v);
            assert forall|w: usize| #[trigger] p@.skip(i + 1).to_set().contains(w) implies p0.contains(w) by {
                assert(pi.contains(w));
            }
        }
        i = i + 1;
    }
    proof {
        let pe = p@.skip(i as int).to_set();
        assert forall|v: usize| !#[trigger] pe.contains(v) by {
            if pe.contains(v) {
                let q = choose|q: int| 0 <= q < p@.skip(i as int).len() && p@.skip(i as int)[q] == v;
            }
        }
        lemma_no_candidates(g, rs, pe, xs_set);
        assert(xs_set.contains(xs@[0]));
        assert(found(g, rs, p0, pe) =~= targets(g, rs, p0));
    }
}

/// Enumerate the maximal cliques of an undirected graph, given by adjacency
/// lists that hold each edge at both ends, and collect them.
///
/// Every maximal clique comes exactly once, as a list of distinct nodes. A
/// graph without nodes has one maximal clique, the empty one.
pub fn maximal_cliques_collect<C>(adjacency: &[Vec<(usize, C)>]) -> (r: Vec<Vec<usize>>)
    requires
        wf(adj(adjacency@)),
        symmetric(adj(adjacency@)),
    ensures
        clique_list(adj(adjacency@), nested(r@)),
{
    let ghost g = adj(adjacency@);
    let sets = adjacency_sets(adjacency);
    let n = adjacency.len();
    let mut p: Vec<usize> = Vec::new();
    let mut i: usize = 0;
    while i < n
        invariant
            i <= n,
            p@.len() == i,
            forall|k: int| 0 <= k < i ==> #[trigger] p@[k] == k,
        decreases n - i,
    {
        p.push(i);
        i = i + 1;
    }
    let r: Vec<usize> = Vec::new();
    let x: Vec<usize> = Vec::new();
    let mut out: Vec<Vec<usize>> = Vec::new();
    let ghost empty = r@.to_set();
    let ghost all = p@.to_set();
    proof {
        assert forall|v: usize| #[trigger] all.contains(v) <==> v < n by {
            if v < n {
                assert(p@[v as int] == v);
            }
        }
        assert forall|v: usize| !#[trigger] empty.contains(v) by {}
        assert forall|v: usize| #[trigger] all.contains(v) implies is_clique(g, empty.insert(v)) by {
            assert forall|a: usize| #[trigger] empty.insert(v).contains(a) implies a == v by {}
        }
        assert(bk_ok(g, empty, all, x@.to_set()));
        assert(nested(out@) == Seq::<Seq<usize>>::empty());
    }
    bron_kerbosch::<C>(&sets, &r, &p, &x, &mut out, Ghost(g));
    proof {
        let l = nested(out@);
        assert forall|c: Set<usize>| #[trigger] is_maximal_clique(g, c) <==> targets(g, empty, all)(c) by {
            if is_maximal_clique(g, c) {
                assert forall|v: usize| #[trigger] c.contains(v) implies empty.contains(v) || all.contains(v) by {}
            }
        }
        assert forall|k: int| 0 <= k < l.len() implies (#[trigger] l[k]).no_duplicates() && is_maximal_clique(g, l[k].to_set()) by {
            assert(targets(g, empty, all)(l[k].to_set()));
        }
        assert forall|c: Set<usize>| #[trigger] is_maximal_clique(g, c) implies exists|k: int| 0 <= k < l.len() && (#[trigger] l[k]).to_set() == c by {
            assert(targets(g, empty, all)(c));
        }
    }
    out
}

} // verus!
