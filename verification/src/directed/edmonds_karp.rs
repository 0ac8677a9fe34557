//! Maximum flows and minimum cuts by the Edmonds–Karp algorithm.
//!
//! The capacity from `u` to `v` is the total weight of the edges from `u` to
//! `v`; a flow is a table of values, one per ordered pair of nodes.

use vstd::prelude::*;
use crate::weight::Weight;
use crate::spec::{adj, edge, wf};
use crate::directed::bfs::{predecessor_lists, reverses};

verus! {

/// The sum of `f(0)`, …, `f(k - 1)`.
pub open spec fn sum(k: int, f: spec_fn(int) -> int) -> int
    decreases k,
{
    if k <= 0 {
        0
    } else {
        sum(k - 1, f) + f(k - 1)
    }
}

/// Sums of terms that agree are equal.
pub proof fn lemma_sum_congr(k: int, f: spec_fn(int) -> int, g: spec_fn(int) -> int)
    requires
        forall|i: int| 0 <= i < k ==> #[trigger] f(i) == g(i),
    ensures
        sum(k, f) == sum(k, g),
    decreases k,
{
    if k > 0 {
        lemma_sum_congr(k - 1, f, g);
    }
}

/// The sum of a sum of terms is the sum of the two sums.
pub proof fn lemma_sum_add(k: int, f: spec_fn(int) -> int, g: spec_fn(int) -> int)
    ensures
        sum(k, |i: int| f(i) + g(i)) == sum(k, f) + sum(k, g),
    decreases k,
{
    if k > 0 {
        lemma_sum_add(k - 1, f, g);
    }
}

/// The sum of terms that are not negative is not negative, and it grows with its terms.
pub proof fn lemma_sum_le(k: int, f: spec_fn(int) -> int, g: spec_fn(int) -> int)
    requires
        forall|i: int| 0 <= i < k ==> #[trigger] f(i) <= g(i),
    ensures
        sum(k, f) <= sum(k, g),
    decreases k,
{
    if k > 0 {
        lemma_sum_le(k - 1, f, g);
    }
}

/// Changing one term changes the sum by as much.
pub proof fn lemma_sum_one(k: int, f: spec_fn(int) -> int, g: spec_fn(int) -> int, b: int)
    requires
        forall|i: int| 0 <= i < k && i != b ==> #[trigger] f(i) == g(i),
    ensures
        sum(k, g) == sum(k, f) + if 0 <= b < k { g(b) - f(b) } else { 0 },
    decreases k,
{
    if k > 0 {
        lemma_sum_one(k - 1, f, g, b);
    }
}

/// Row `u` of a table given as a function.
pub open spec fn hrow(h: spec_fn(int, int) -> int, u: int) -> spec_fn(int) -> int {
    |v: int| h(u, v)
}

/// Column `v` of a table given as a function.
pub open spec fn hcol(h: spec_fn(int, int) -> int, v: int) -> spec_fn(int) -> int {
    |u: int| h(u, v)
}

/// The sums of the first `m` items of the rows of a table.
pub open spec fn row_sums(h: spec_fn(int, int) -> int, m: int) -> spec_fn(int) -> int {
    |u: int| sum(m, hrow(h, u))
}

/// The sums of the first `n` items of the columns of a table.
pub open spec fn col_sums(h: spec_fn(int, int) -> int, n: int) -> spec_fn(int) -> int {
    |v: int| sum(n, hcol(h, v))
}

/// A sum of zeros is zero.
proof fn lemma_sum_zero(k: int, f: spec_fn(int) -> int)
    requires
        forall|i: int| 0 <= i < k ==> #[trigger] f(i) == 0,
    ensures
        sum(k, f) == 0,
    decreases k,
{
    if k > 0 {
        lemma_sum_zero(k - 1, f);
    }
}

/// A double sum can be taken in either order.
pub proof fn lemma_sum_swap(n: int, m: int, h: spec_fn(int, int) -> int)
    requires
        n >= 0,
    ensures
        sum(n, row_sums(h, m)) == sum(m, col_sums(h, n)),
    decreases n,
{
    if n == 0 {
        assert forall|v: int| 0 <= v < m implies #[trigger] col_sums(h, n)(v) == 0 by {}
        lemma_sum_zero(m, col_sums(h, n));
    } else {
        lemma_sum_swap(n - 1, m, h);
        let prev = col_sums(h, n - 1);
        let last = hrow(h, n - 1);
        let both = |v: int| prev(v) + last(v);
        assert forall|v: int| 0 <= v < m implies #[trigger] col_sums(h, n)(v) == both(v) by {
            assert(sum(n, hcol(h, v)) == sum(n - 1, hcol(h, v)) + hcol(h, v)(n - 1));
        }
        lemma_sum_congr(m, col_sums(h, n), both);
        lemma_sum_add(m, prev, last);
        assert(sum(m, both) == sum(m, |v: int| prev(v) + last(v)));
        assert(sum(n, row_sums(h, m)) == sum(n - 1, row_sums(h, m)) + row_sums(h, m)(n - 1));
    }
}

/// The total weight of the edges of `l`, among its first `k`, that lead to `v`.
pub open spec fn psum<C: Weight>(l: Seq<(usize, C)>, v: usize, k: int) -> int
    decreases k,
{
    if k <= 0 {
        0
    } else {
        psum(l, v, k - 1) + if l[k - 1].0 == v { l[k - 1].1.val() } else { 0 }
    }
}

/// The capacity from `u` to `v`: the total weight of the edges from `u` to `v`.
pub open spec fn cap<C: Weight>(g: Seq<Seq<(usize, C)>>, u: int, v: int) -> int {
    psum(g[u], v as usize, g[u].len() as int)
}

/// The part of a capacity that a flow may use: none of a negative one.
pub open spec fn usable(c: int) -> int {
    if c > 0 {
        c
    } else {
        0
    }
}

/// No running total of the weights from one node to another leaves the range
/// of the weight type.
pub open spec fn caps_fit<C: Weight>(g: Seq<Seq<(usize, C)>>) -> bool {
    forall|u: int, v: usize, k: int| 0 <= u < g.len() && 0 <= k <= g[u].len() ==> C::lo() <= #[trigger] psum(g[u], v, k) <= C::hi()
}

/// Row `u` of the table `f`.
pub open spec fn row_of(f: Seq<Seq<int>>, u: int) -> spec_fn(int) -> int {
    |w: int| f[u][w]
}

/// Column `u` of the table `f`.
pub open spec fn col_of(f: Seq<Seq<int>>, u: int) -> spec_fn(int) -> int {
    |w: int| f[w][u]
}

/// What leaves `v` under the table `f` of `n` rows, less what enters it.
pub open spec fn net_out(f: Seq<Seq<int>>, n: int, v: int) -> int {
    sum(n, row_of(f, v)) - sum(n, col_of(f, v))
}

/// `f` is a feasible flow from `s` to `t` in `g`: a square table within the
/// usable capacities, conserved at every node but `s` and `t`.
pub open spec fn feasible<C: Weight>(g: Seq<Seq<(usize, C)>>, s: usize, t: usize, f: Seq<Seq<int>>) -> bool {
    &&& f.len() == g.len()
    &&& forall|u: int| 0 <= u < g.len() ==> (#[trigger] f[u]).len() == g.len()
    &&& forall|u: int, v: int| 0 <= u < g.len() && 0 <= v < g.len() ==> 0 <= #[trigger] f[u][v] <= usable(cap(g, u, v))
    &&& forall|v: int| 0 <= v < g.len() && v != s && v != t ==> #[trigger] net_out(f, g.len() as int, v) == 0
}

/// The value of every feasible flow from `s` to `t` fits in the weight type.
pub open spec fn flows_fit<C: Weight>(g: Seq<Seq<(usize, C)>>, s: usize, t: usize) -> bool {
    forall|f: Seq<Seq<int>>| #[trigger] feasible(g, s, t, f) ==> net_out(f, g.len() as int, s as int) <= C::hi()
}

/// The usable capacities from `u` to the nodes outside `side`, for `u` inside it.
pub open spec fn cut_row<C: Weight>(g: Seq<Seq<(usize, C)>>, side: Seq<bool>, u: int) -> spec_fn(int) -> int {
    |v: int| if side[u] && !side[v] { usable(cap(g, u, v)) } else { 0 }
}

/// The total usable capacity of the pairs that leave the side `side`.
pub open spec fn cut_capacity<C: Weight>(g: Seq<Seq<(usize, C)>>, side: Seq<bool>) -> int {
    sum(g.len() as int, |u: int| sum(g.len() as int, cut_row(g, side, u)))
}

/// What `u`, inside `side`, sends across its border, less what it takes back.
pub open spec fn cross_row(f: Seq<Seq<int>>, side: Seq<bool>, u: int) -> spec_fn(int) -> int {
    |v: int| if side[u] && !side[v] { f[u][v] - f[v][u] } else { 0 }
}

/// What a table sends across the border of `side`, outward less inward.
pub open spec fn across(f: Seq<Seq<int>>, n: int, side: Seq<bool>) -> int {
    sum(n, |u: int| sum(n, cross_row(f, side, u)))
}

/// The parts of a node's row and column within and across the border of `side`.
pub open spec fn part(f: Seq<Seq<int>>, side: Seq<bool>, u: int, inner: bool, forward: bool) -> spec_fn(int) -> int {
    |v: int| if side[u] && side[v] == inner { if forward { f[u][v] } else { f[v][u] } } else { 0 }
}

/// The net flow of a node inside the side, or nothing for a node outside.
pub open spec fn side_net(f: Seq<Seq<int>>, n: int, side: Seq<bool>) -> spec_fn(int) -> int {
    |u: int| if side[u] { net_out(f, n, u) } else { 0 }
}

/// Each node's net flow splits into what stays inside the side and what crosses its border.
proof fn lemma_split_node(f: Seq<Seq<int>>, n: int, side: Seq<bool>, u: int)
    requires
        n >= 0,
    ensures
        side_net(f, n, side)(u) == sum(n, part(f, side, u, true, true)) + sum(n, part(f, side, u, false, true))
            - sum(n, part(f, side, u, true, false)) - sum(n, part(f, side, u, false, false)),
        sum(n, cross_row(f, side, u)) == sum(n, part(f, side, u, false, true)) - sum(n, part(f, side, u, false, false)),
{
    let p = part(f, side, u, true, true);
    let q = part(f, side, u, false, true);
    let r = part(f, side, u, true, false);
    let s = part(f, side, u, false, false);
    let pq = |v: int| p(v) + q(v);
    let rs = |v: int| r(v) + s(v);
    lemma_sum_add(n, p, q);
    lemma_sum_add(n, r, s);
    assert(sum(n, pq) == sum(n, |v: int| p(v) + q(v)));
    assert(sum(n, rs) == sum(n, |v: int| r(v) + s(v)));
    if side[u] {
        assert forall|v: int| 0 <= v < n implies #[trigger] row_of(f, u)(v) == pq(v) by {}
        assert forall|v: int| 0 <= v < n implies #[trigger] col_of(f, u)(v) == rs(v) by {}
        lemma_sum_congr(n, row_of(f, u), pq);
        lemma_sum_congr(n, col_of(f, u), rs);
    } else {
        assert forall|v: int| 0 <= v < n implies #[trigger] p(v) == 0 by {}
        assert forall|v: int| 0 <= v < n implies #[trigger] q(v) == 0 by {}
        assert forall|v: int| 0 <= v < n implies #[trigger] r(v) == 0 by {}
        assert forall|v: int| 0 <= v < n implies #[trigger] s(v) == 0 by {}
        lemma_sum_zero(n, p);
        lemma_sum_zero(n, q);
        lemma_sum_zero(n, r);
        lemma_sum_zero(n, s);
    }
    let ns = |v: int| -s(v);
    let qs = |v: int| q(v) + ns(v);
    lemma_sum_add(n, q, ns);
    lemma_sum_neg(n, s);
    assert(sum(n, qs) == sum(n, |v: int| q(v) + ns(v)));
    assert(sum(n, ns) == sum(n, |v: int| -s(v)));
    assert forall|v: int| 0 <= v < n implies #[trigger] cross_row(f, side, u)(v) == qs(v) by {}
    lemma_sum_congr(n, cross_row(f, side, u), qs);
}

/// The net flow out of the nodes of a side is what crosses its border.
proof fn lemma_side_net(f: Seq<Seq<int>>, n: int, side: Seq<bool>)
    requires
        n >= 0,
    ensures
        sum(n, side_net(f, n, side)) == across(f, n, side),
{
    let a = |u: int| sum(n, part(f, side, u, true, true));
    let b = |u: int| sum(n, part(f, side, u, false, true));
    let c = |u: int| sum(n, part(f, side, u, true, false));
    let d = |u: int| sum(n, part(f, side, u, false, false));
    let cross = |u: int| sum(n, cross_row(f, side, u));
    let nc = |u: int| -c(u);
    let ac = |u: int| a(u) + nc(u);
    let all = |u: int| ac(u) + cross(u);
    assert forall|u: int| 0 <= u < n implies #[trigger] side_net(f, n, side)(u) == all(u) by {
        lemma_split_node(f, n, side, u);
    }
    lemma_sum_congr(n, side_net(f, n, side), all);
    lemma_sum_add(n, ac, cross);
    lemma_sum_add(n, a, nc);
    lemma_sum_neg(n, c);
    assert(sum(n, all) == sum(n, |u: int| ac(u) + cross(u)));
    assert(sum(n, ac) == sum(n, |u: int| a(u) + nc(u)));
    assert(sum(n, nc) == sum(n, |u: int| -c(u)));
    // The flow inside the side cancels out.
    let inside = |u: int, v: int| if side[u] && side[v] { f[u][v] } else { 0 };
    lemma_sum_swap(n, n, inside);
    assert forall|u: int| 0 <= u < n implies #[trigger] row_sums(inside, n)(u) == a(u) by {
        assert forall|v: int| 0 <= v < n implies #[trigger] hrow(inside, u)(v) == part(f, side, u, true, true)(v) by {}
        lemma_sum_congr(n, hrow(inside, u), part(f, side, u, true, true));
    }
    assert forall|v: int| 0 <= v < n implies #[trigger] col_sums(inside, n)(v) == c(v) by {
        assert forall|u: int| 0 <= u < n implies #[trigger] hcol(inside, v)(u) == part(f, side, v, true, false)(u) by {}
        lemma_sum_congr(n, hcol(inside, v), part(f, side, v, true, false));
    }
    lemma_sum_congr(n, row_sums(inside, n), a);
    lemma_sum_congr(n, col_sums(inside, n), c);
    assert(across(f, n, side) == sum(n, cross));
}

/// A sum of a difference of terms.
proof fn lemma_sum_neg(k: int, f: spec_fn(int) -> int)
    ensures
        sum(k, |i: int| -f(i)) == -sum(k, f),
    decreases k,
{
    if k > 0 {
        lemma_sum_neg(k - 1, f);
    }
}

/// The flow through a node with neither end of the flow is what crosses the
/// border of any side that holds the source and not the sink.
pub proof fn lemma_value_across(f: Seq<Seq<int>>, n: int, s: usize, t: usize, side: Seq<bool>)
    requires
        n >= 0,
        s < n,
        side[s as int],
        !side[t as int],
        forall|v: int| 0 <= v < n && v != s && v != t ==> #[trigger] net_out(f, n, v) == 0,
    ensures
        net_out(f, n, s as int) == across(f, n, side),
{
    lemma_side_net(f, n, side);
    let z = |u: int| 0int;
    assert forall|u: int| 0 <= u < n && u != s implies #[trigger] z(u) == side_net(f, n, side)(u) by {}
    lemma_sum_one(n, z, side_net(f, n, side), s as int);
    lemma_sum_zero(n, z);
}

/// No feasible flow sends more across a border than its capacity.
pub proof fn lemma_across_le_cut<C: Weight>(g: Seq<Seq<(usize, C)>>, s: usize, t: usize, f: Seq<Seq<int>>, side: Seq<bool>)
    requires
        feasible(g, s, t, f),
    ensures
        across(f, g.len() as int, side) <= cut_capacity(g, side),
{
    let n = g.len() as int;
    let a = |u: int| sum(n, cross_row(f, side, u));
    let b = |u: int| sum(n, cut_row(g, side, u));
    assert forall|u: int| 0 <= u < n implies #[trigger] a(u) <= b(u) by {
        assert forall|v: int| 0 <= v < n implies #[trigger] cross_row(f, side, u)(v) <= cut_row(g, side, u)(v) by {
            assert(0 <= f[u][v] <= usable(cap(g, u, v)));
            assert(0 <= f[v][u]);
        }
        lemma_sum_le(n, cross_row(f, side, u), cut_row(g, side, u));
    }
    lemma_sum_le(n, a, b);
}


/// The value of a feasible flow is at most the capacity of any cut that
/// separates the source from the sink.
pub proof fn lemma_flow_le_cut<C: Weight>(g: Seq<Seq<(usize, C)>>, s: usize, t: usize, f: Seq<Seq<int>>, side: Seq<bool>)
    requires
        feasible(g, s, t, f),
        s < g.len(),
        side[s as int],
        !side[t as int],
    ensures
        net_out(f, g.len() as int, s as int) <= cut_capacity(g, side),
{
    lemma_value_across(f, g.len() as int, s, t, side);
    lemma_across_le_cut(g, s, t, f, side);
}

/// Where some cut that separates the source from the sink has a capacity
/// that the weight type holds, it holds the value of every feasible flow.
pub proof fn lemma_flows_fit<C: Weight>(g: Seq<Seq<(usize, C)>>, s: usize, t: usize, side: Seq<bool>)
    requires
        s < g.len(),
        side[s as int],
        !side[t as int],
        cut_capacity(g, side) <= C::hi(),
    ensures
        flows_fit(g, s, t),
{
    assert forall|f: Seq<Seq<int>>| #[trigger] feasible(g, s, t, f) implies net_out(f, g.len() as int, s as int) <= C::hi() by {
        lemma_flow_le_cut(g, s, t, f, side);
    }
}

/// Where the flow fills every pair that leaves the side and leaves empty every
/// pair that enters it, what crosses the border is the capacity of the cut.
pub proof fn lemma_across_eq_cut<C: Weight>(g: Seq<Seq<(usize, C)>>, f: Seq<Seq<int>>, side: Seq<bool>)
    requires
        forall|u: int, v: int| 0 <= u < g.len() && 0 <= v < g.len() && side[u] && !side[v]
            ==> #[trigger] f[u][v] == usable(cap(g, u, v)) && f[v][u] == 0,
    ensures
        across(f, g.len() as int, side) == cut_capacity(g, side),
{
    let n = g.len() as int;
    let a = |u: int| sum(n, cross_row(f, side, u));
    let b = |u: int| sum(n, cut_row(g, side, u));
    assert forall|u: int| 0 <= u < n implies #[trigger] a(u) == b(u) by {
        assert forall|v: int| 0 <= v < n implies #[trigger] cross_row(f, side, u)(v) == cut_row(g, side, u)(v) by {
            if side[u] && !side[v] {
                assert(f[u][v] == usable(cap(g, u, v)));
            }
        }
        lemma_sum_congr(n, cross_row(f, side, u), cut_row(g, side, u));
    }
    lemma_sum_congr(n, a, b);
}

/// Changing one entry of a square table changes the net flows of its two nodes.
pub proof fn lemma_net_update(m: Seq<Seq<int>>, n: int, i: int, j: int, c: int, v: int)
    requires
        m.len() == n,
        forall|u: int| 0 <= u < n ==> (#[trigger] m[u]).len() == n,
        0 <= i < n,
        0 <= j < n,
        0 <= v < n,
    ensures
        net_out(m.update(i, m[i].update(j, c)), n, v) == net_out(m, n, v)
            + (if v == i { c - m[i][j] } else { 0 }) - (if v == j { c - m[i][j] } else { 0 }),
{
    let m2 = m.update(i, m[i].update(j, c));
    if v == i {
        assert forall|w: int| 0 <= w < n && w != j implies #[trigger] row_of(m, v)(w) == row_of(m2, v)(w) by {}
        lemma_sum_one(n, row_of(m, v), row_of(m2, v), j);
    } else {
        assert forall|w: int| 0 <= w < n implies #[trigger] row_of(m, v)(w) == row_of(m2, v)(w) by {}
        lemma_sum_congr(n, row_of(m, v), row_of(m2, v));
    }
    if v == j {
        assert forall|w: int| 0 <= w < n && w != i implies #[trigger] col_of(m, v)(w) == col_of(m2, v)(w) by {}
        lemma_sum_one(n, col_of(m, v), col_of(m2, v), i);
    } else {
        assert forall|w: int| 0 <= w < n implies #[trigger] col_of(m, v)(w) == col_of(m2, v)(w) by {}
        lemma_sum_congr(n, col_of(m, v), col_of(m2, v));
    }
}

/// The integers that a table of weights holds.
pub open spec fn values<C: Weight>(m: Seq<Vec<C>>) -> Seq<Seq<int>> {
    Seq::new(m.len(), |u: int| Seq::new(m[u]@.len(), |v: int| m[u]@[v].val()))
}

/// A square table of `n` rows of `n` weights.
pub open spec fn square<C>(m: Seq<Vec<C>>, n: int) -> bool {
    m.len() == n && forall|u: int| 0 <= u < n ==> (#[trigger] m[u])@.len() == n
}

/// A square table of zeros.
fn zero_table<C: Weight>(n: usize) -> (r: Vec<Vec<C>>)
    ensures
        square(r@, n as int),
        forall|u: int, v: int| 0 <= u < n && 0 <= v < n ==> (#[trigger] r@[u]@[v]).val() == 0,
{
    let mut r: Vec<Vec<C>> = Vec::new();
    let mut i: usize = 0;
    while i < n
        invariant
            i <= n,
            r@.len() == i,
            forall|u: int| 0 <= u < i ==> (#[trigger] r@[u])@.len() == n,
            forall|u: int, v: int| 0 <= u < i && 0 <= v < n ==> (#[trigger] r@[u]@[v]).val() == 0,
        decreases n - i,
    {
        let mut row: Vec<C> = Vec::new();
        let mut j: usize = 0;
        while j < n
            invariant
                j <= n,
                row@.len() == j,
                forall|v: int| 0 <= v < j ==> (#[trigger] row@[v]).val() == 0,
            decreases n - j,
        {
            row.push(C::zero());
            j = j + 1;
        }
        r.push(row);
        i = i + 1;
    }
    r
}

/// The table of capacities: entry `(u, v)` is the total weight of the edges
/// from `u` to `v`.
fn capacities<C: Weight>(successors: &[Vec<(usize, C)>]) -> (r: Vec<Vec<C>>)
    requires
        wf(adj(successors@)),
        caps_fit(adj(successors@)),
    ensures
        square(r@, successors@.len() as int),
        forall|u: int, v: int| 0 <= u < successors@.len() && 0 <= v < successors@.len()
            ==> (#[trigger] r@[u]@[v]).val() == cap(adj(successors@), u, v),
{
    let ghost g = adj(successors@);
    let n = successors.len();
    let mut m = zero_table::<C>(n);
    let mut from: usize = 0;
    while from < n
        invariant
            g == adj(successors@),
            wf(g),
            caps_fit(g),
            n == g.len(),
            from <= n,
            square(m@, n as int),
            forall|u: int, v: int| 0 <= u < n && 0 <= v < n ==> (#[trigger] m@[u]@[v]).val()
                == if u < from { cap(g, u, v) } else { 0 },
        decreases n - from,
    {
        let edges = &successors[from];
        proof { assert(edges@ == g[from as int]); }
        let mut t: usize = 0;
        while t < edges.len()
            invariant
                g == adj(successors@),
                wf(g),
                caps_fit(g),
                n == g.len(),
                from < n,
                edges@ == g[from as int],
                t <= edges@.len(),
                square(m@, n as int),
                forall|u: int, v: int| 0 <= u < n && 0 <= v < n ==> (#[trigger] m@[u]@[v]).val()
                    == if u < from { cap(g, u, v) } else if u == from { psum(g[from as int], v as usize, t as int) } else { 0 },
            decreases edges@.len() - t,
        {
            let (to, w) = edges[t];
            proof {
                assert(g[from as int][t as int] == (to, w));
                assert(to < n);
                let _ = psum(g[from as int], to, t + 1);
                assert(C::lo() <= psum(g[from as int], to, t + 1) <= C::hi());
            }
            let old = m[from][to];
            let ghost m0 = m@;
            m[from].set(to, old.plus(w));
            proof {
                assert forall|u: int, v: int| 0 <= u < n && 0 <= v < n implies (#[trigger] m@[u]@[v]).val()
                    == if u < from { cap(g, u, v) } else if u == from { psum(g[from as int], v as usize, t + 1) } else { 0 } by {
                    if u != from {
                        assert(m@[u] == m0[u]);
                    } else if v != to {
                        assert(m@[u]@[v] == m0[u]@[v]);
                    }
                }
                assert forall|u: int| 0 <= u < n implies (#[trigger] m@[u])@.len() == n by {
                    if u != from {
                        assert(m@[u] == m0[u]);
                    }
                }
            }
            t = t + 1;
        }
        from = from + 1;
    }
    m
}

/// The residual graph of the flow `f` has an edge from `u` to `x`: an edge from
/// `u` to `x` with capacity to spare, or an edge from `x` to `u` that carries flow.
pub open spec fn residual<C: Weight>(g: Seq<Seq<(usize, C)>>, f: Seq<Seq<int>>, u: usize, x: usize) -> bool {
    ||| edge(g, u, x) && cap(g, u as int, x as int) - f[u as int][x as int] > 0
    ||| edge(g, x, u) && f[x as int][u as int] > 0
}

/// Node `x` of the search tree was reached from its parent, found earlier,
/// along a residual edge, with a bottleneck `pc[x]` that this edge and the
/// parent's own bottleneck allow.
pub open spec fn tree_step<C: Weight>(
    g: Seq<Seq<(usize, C)>>,
    f: Seq<Seq<int>>,
    parent: Seq<usize>,
    dir: Seq<bool>,
    pc: Seq<C>,
    time: Seq<int>,
    x: int,
) -> bool {
    let p = parent[x] as int;
    &&& 0 <= p < g.len()
    &&& parent[p] != usize::MAX
    &&& time[p] < time[x]
    &&& 0 < pc[x].val() <= pc[p].val()
    &&& if dir[x] {
        edge(g, p as usize, x as usize) && pc[x].val() <= cap(g, p, x) - f[p][x]
    } else {
        edge(g, x as usize, p as usize) && pc[x].val() <= f[x][p]
    }
}

/// The search tree of an augmenting path search from `s`: `order` lists the
/// found nodes, each at its time, and every found node but `s` hangs from a
/// parent found earlier.
pub open spec fn path_tree<C: Weight>(
    g: Seq<Seq<(usize, C)>>,
    f: Seq<Seq<int>>,
    s: usize,
    parent: Seq<usize>,
    dir: Seq<bool>,
    pc: Seq<C>,
    time: Seq<int>,
    order: Seq<usize>,
) -> bool {
    let n = g.len();
    &&& parent.len() == n && dir.len() == n && pc.len() == n && time.len() == n
    &&& s < n
    &&& order.len() >= 1
    &&& order[0] == s
    &&& parent[s as int] == s
    &&& pc[s as int].val() > 0
    &&& time[s as int] == 0
    &&& forall|k: int| 0 <= k < order.len() ==> (#[trigger] order[k]) < n && parent[order[k] as int] != usize::MAX && time[order[k] as int] == k
    &&& forall|x: int| 0 <= x < n && #[trigger] parent[x] != usize::MAX ==> 0 <= time[x] < order.len() && order[time[x]] == x
    &&& forall|x: int| 0 <= x < n && #[trigger] parent[x] != usize::MAX && x != s ==> tree_step(g, f, parent, dir, pc, time, x)
}

/// Every residual edge from a found node leads to a found node.
pub open spec fn closed_tree<C: Weight>(g: Seq<Seq<(usize, C)>>, f: Seq<Seq<int>>, parent: Seq<usize>) -> bool {
    forall|u: usize, x: usize| u < g.len() && x < g.len() && parent[u as int] != usize::MAX && #[trigger] residual(g, f, u, x)
        ==> parent[x as int] != usize::MAX
}

/// The state of the flow between augmentations.
pub open spec fn flow_state<C: Weight>(g: Seq<Seq<(usize, C)>>, s: usize, t: usize, capm: Seq<Vec<C>>, flow: Seq<Vec<C>>) -> bool {
    &&& square(capm, g.len() as int)
    &&& square(flow, g.len() as int)
    &&& forall|u: int, v: int| 0 <= u < g.len() && 0 <= v < g.len() ==> (#[trigger] capm[u]@[v]).val() == cap(g, u, v)
    &&& feasible(g, s, t, values(flow))
}

/// A sequence of distinct nodes below `n` has at most `n` items.
proof fn lemma_order_len<C: Weight>(g: Seq<Seq<(usize, C)>>, f: Seq<Seq<int>>, s: usize, parent: Seq<usize>, dir: Seq<bool>,
    pc: Seq<C>, time: Seq<int>, order: Seq<usize>)
    requires
        path_tree(g, f, s, parent, dir, pc, time, order),
    ensures
        order.len() <= g.len(),
{
    assert forall|a: int, b: int| 0 <= a < b < order.len() implies #[trigger] order[a] != #[trigger] order[b] by {
        assert(time[order[a] as int] == a);
        assert(time[order[b] as int] == b);
    }
    crate::directed::bfs::lemma_seq_distinct_len(order, g.len());
}

/// Search the residual graph of the flow, breadth first, for a path from `s`
/// to `t`; the result is the search tree, with `t` in it when there is a path.
fn find_path<C: Weight>(
    successors: &[Vec<(usize, C)>],
    predecessors: &[Vec<(usize, ())>],
    capm: &Vec<Vec<C>>,
    flow: &Vec<Vec<C>>,
    s: usize,
    t: usize,
) -> (r: (Vec<usize>, Vec<bool>, Vec<C>, Ghost<Seq<int>>, Ghost<Seq<usize>>))
    requires
        wf(adj(successors@)),
        wf(adj(predecessors@)),
        reverses(adj(successors@), adj(predecessors@)),
        flow_state(adj(successors@), s, t, capm@, flow@),
        s < successors@.len(),
        t < successors@.len(),
        s != t,
    ensures
        path_tree(adj(successors@), values(flow@), s, r.0@, r.1@, r.2@, r.3@, r.4@),
        r.0@[t as int] == usize::MAX ==> closed_tree(adj(successors@), values(flow@), r.0@),
{
    let ghost g = adj(successors@);
    let ghost h = adj(predecessors@);
    let ghost f = values(flow@);
    let n = successors.len();
    let mut parent: Vec<usize> = Vec::new();
    let mut dir: Vec<bool> = Vec::new();
    let mut pc: Vec<C> = Vec::new();
    let mut i: usize = 0;
    while i < n
        invariant
            i <= n,
            parent@.len() == i && dir@.len() == i && pc@.len() == i,
            forall|x: int| 0 <= x < i ==> #[trigger] parent@[x] == usize::MAX,
        decreases n - i,
    {
        parent.push(usize::MAX);
        dir.push(true);
        pc.push(C::zero());
        i = i + 1;
    }
    parent.set(s, s);
    pc.set(s, C::max_value());
    proof { C::lemma_range(pc@[s as int]); }
    let mut queue: Vec<usize> = Vec::new();
    queue.push(s);
    let ghost mut time: Seq<int> = Seq::new(n as nat, |x: int| 0);
    let mut head: usize = 0;
    let mut found = false;
    proof {
        assert forall|x: int| 0 <= x < n && #[trigger] parent@[x] != usize::MAX implies 0 <= time[x] < queue@.len() && queue@[time[x]] == x by {
            assert(x == s);
        }
    }
    while head < queue.len() && !found
        invariant
            g == adj(successors@),
            h == adj(predecessors@),
            f == values(flow@),
            wf(g),
            wf(h),
            reverses(g, h),
            flow_state(g, s, t, capm@, flow@),
            n == g.len(),
            s < n,
            t < n,
            s != t,
            path_tree(g, f, s, parent@, dir@, pc@, time, queue@),
            head <= queue@.len(),
            queue@.len() <= n,
            found <==> parent@[t as int] != usize::MAX,
            !found ==> forall|k: int, x: usize| 0 <= k < head && x < n && #[trigger] residual(g, f, queue@[k], x) ==> parent@[x as int] != usize::MAX,
        decreases n - queue@.len(), queue@.len() - head,
    {
        proof { lemma_order_len(g, f, s, parent@, dir@, pc@, time, queue@); }
        let node = queue[head];
        head = head + 1;
        let so_far = pc[node];
        let edges = &successors[node];
        proof { assert(edges@ == g[node as int]); }
        let mut k: usize = 0;
        let ghost q0 = queue@;
        while k < edges.len() && !found
            invariant
                g == adj(successors@),
                f == values(flow@),
                wf(g),
                flow_state(g, s, t, capm@, flow@),
                n == g.len(),
                s < n,
                t < n,
                s != t,
                node < n,
                head >= 1,
                queue@[head - 1] == node,
                so_far == pc@[node as int],
                edges@ == g[node as int],
                k <= edges@.len(),
                path_tree(g, f, s, parent@, dir@, pc@, time, queue@),
                head <= queue@.len(),
                queue@.len() >= q0.len(),
                found <==> parent@[t as int] != usize::MAX,
                !found ==> forall|kk: int, x: usize| 0 <= kk < head - 1 && x < n && #[trigger] residual(g, f, queue@[kk], x) ==> parent@[x as int] != usize::MAX,
                !found ==> forall|j: int| 0 <= j < k && cap(g, node as int, g[node as int][j].0 as int) - f[node as int][g[node as int][j].0 as int] > 0
                    ==> parent@[#[trigger] g[node as int][j].0 as int] != usize::MAX,
            decreases edges@.len() - k,
        {
            let next = edges[k].0;
            proof {
                assert(g[node as int][k as int].0 == next);
                assert(next < n);
                lemma_order_len(g, f, s, parent@, dir@, pc@, time, queue@);
            }
            if parent[next] == usize::MAX && next != s {
                let c = capm[node][next];
                let fl = flow[node][next];
                proof {
                    assert(c.val() == cap(g, node as int, next as int));
                    assert(fl.val() == f[node as int][next as int]);
                    assert(0 <= f[node as int][next as int] <= usable(cap(g, node as int, next as int)));
                    C::lemma_range(c);
                }
                let res = c.minus(fl);
                if C::zero().lt(&res) {
                    let b = if so_far.lt(&res) { so_far } else { res };
                    proof {
                        assert(edge(g, node, next));
                        assert(parent@[node as int] != usize::MAX);
                        lemma_tree_grow(g, f, s, parent@, dir@, pc@, time, queue@, next, node, true, b);
                        time = time.update(next as int, queue@.len() as int);
                    }
                    parent.set(next, node);
                    dir.set(next, true);
                    pc.set(next, b);
                    queue.push(next);
                    if next == t {
                        found = true;
                    }
                }
            }
            k = k + 1;
        }
        if !found {
            let preds = &predecessors[node];
            proof { assert(preds@ == h[node as int]); }
            let mut k2: usize = 0;
            while k2 < preds.len() && !found
                invariant
                    g == adj(successors@),
                    h == adj(predecessors@),
                    f == values(flow@),
                    wf(g),
                    wf(h),
                    reverses(g, h),
                    flow_state(g, s, t, capm@, flow@),
                    n == g.len(),
                    s < n,
                    t < n,
                    s != t,
                    node < n,
                    head >= 1,
                    queue@[head - 1] == node,
                    so_far == pc@[node as int],
                    edges@ == g[node as int],
                    preds@ == h[node as int],
                    k2 <= preds@.len(),
                    path_tree(g, f, s, parent@, dir@, pc@, time, queue@),
                    head <= queue@.len(),
                    queue@.len() >= q0.len(),
                    found <==> parent@[t as int] != usize::MAX,
                    !found ==> forall|kk: int, x: usize| 0 <= kk < head - 1 && x < n && #[trigger] residual(g, f, queue@[kk], x) ==> parent@[x as int] != usize::MAX,
                    !found ==> forall|j: int| 0 <= j < edges@.len() && cap(g, node as int, g[node as int][j].0 as int) - f[node as int][g[node as int][j].0 as int] > 0
                        ==> parent@[#[trigger] g[node as int][j].0 as int] != usize::MAX,
                    !found ==> forall|j: int| 0 <= j < k2 && f[h[node as int][j].0 as int][node as int] > 0
                        ==> parent@[#[trigger] h[node as int][j].0 as int] != usize::MAX,
                decreases preds@.len() - k2,
            {
                let prev = preds[k2].0;
                proof {
                    assert(h[node as int][k2 as int].0 == prev);
                    assert(prev < n);
                    lemma_order_len(g, f, s, parent@, dir@, pc@, time, queue@);
                }
                if parent[prev] == usize::MAX && prev != s {
                    let res = flow[prev][node];
                    proof { assert(res.val() == f[prev as int][node as int]); }
                    if C::zero().lt(&res) {
                        let b = if so_far.lt(&res) { so_far } else { res };
                        proof {
                            assert(edge(h, node, prev));
                            assert(edge(g, prev, node));
                            assert(parent@[node as int] != usize::MAX);
                            lemma_tree_grow(g, f, s, parent@, dir@, pc@, time, queue@, prev, node, false, b);
                            time = time.update(prev as int, queue@.len() as int);
                        }
                        parent.set(prev, node);
                        dir.set(prev, false);
                        pc.set(prev, b);
                        queue.push(prev);
                        if prev == t {
                            found = true;
                        }
                    }
                }
                k2 = k2 + 1;
            }
            proof {
                if !found {
                    assert forall|x: usize| x < n && #[trigger] residual(g, f, node, x) implies parent@[x as int] != usize::MAX by {
                        if edge(g, node, x) && cap(g, node as int, x as int) - f[node as int][x as int] > 0 {
                            let j = choose|j: int| 0 <= j < g[node as int].len() && #[trigger] g[node as int][j].0 == x;
                        } else {
                            assert(edge(h, node, x));
                            let j = choose|j: int| 0 <= j < h[node as int].len() && #[trigger] h[node as int][j].0 == x;
                        }
                    }
                }
            }
        }
        proof {
            lemma_order_len(g, f, s, parent@, dir@, pc@, time, queue@);
        }
    }
    proof {
        if !found {
            assert forall|u: usize, x: usize| u < n && x < n && parent@[u as int] != usize::MAX && #[trigger] residual(g, f, u, x)
                implies parent@[x as int] != usize::MAX by {
                let k = time[u as int];
                assert(queue@[k] == u);
            }
        }
    }
    (parent, dir, pc, Ghost(time), Ghost(queue@))
}

/// Hanging a new node from a found node keeps the search tree.
proof fn lemma_tree_grow<C: Weight>(
    g: Seq<Seq<(usize, C)>>,
    f: Seq<Seq<int>>,
    s: usize,
    parent: Seq<usize>,
    dir: Seq<bool>,
    pc: Seq<C>,
    time: Seq<int>,
    order: Seq<usize>,
    x: usize,
    node: usize,
    d: bool,
    b: C,
)
    requires
        path_tree(g, f, s, parent, dir, pc, time, order),
        x < g.len(),
        x != s,
        parent[x as int] == usize::MAX,
        node < g.len(),
        node != usize::MAX,
        parent[node as int] != usize::MAX,
        0 < b.val() <= pc[node as int].val(),
        if d {
            edge(g, node, x) && b.val() <= cap(g, node as int, x as int) - f[node as int][x as int]
        } else {
            edge(g, x, node) && b.val() <= f[x as int][node as int]
        },
    ensures
        path_tree(g, f, s, parent.update(x as int, node), dir.update(x as int, d), pc.update(x as int, b),
            time.update(x as int, order.len() as int), order.push(x)),
{
    let n = g.len();
    let p2 = parent.update(x as int, node);
    let d2 = dir.update(x as int, d);
    let pc2 = pc.update(x as int, b);
    let t2 = time.update(x as int, order.len() as int);
    let o2 = order.push(x);
    assert(time[node as int] < order.len());
    assert forall|k: int| 0 <= k < o2.len() implies (#[trigger] o2[k]) < n && p2[o2[k] as int] != usize::MAX && t2[o2[k] as int] == k by {
        if k < order.len() {
            assert(o2[k] == order[k]);
            assert(order[k] != x);
        }
    }
    assert forall|y: int| 0 <= y < n && #[trigger] p2[y] != usize::MAX implies 0 <= t2[y] < o2.len() && o2[t2[y]] == y by {
        if y != x {
            assert(parent[y] != usize::MAX);
        }
    }
    assert forall|y: int| 0 <= y < n && #[trigger] p2[y] != usize::MAX && y != s implies tree_step(g, f, p2, d2, pc2, t2, y) by {
        if y == x {
            assert(p2[node as int] != usize::MAX);
        } else {
            assert(parent[y] != usize::MAX);
            assert(tree_step(g, f, parent, dir, pc, time, y));
            let py = parent[y] as int;
            assert(py != x);
        }
    }
}

/// Setting one entry of a table of weights sets one of its integers.
proof fn lemma_values_set<C: Weight>(m: Seq<Vec<C>>, m2: Seq<Vec<C>>, i: int, j: int, c: C)
    requires
        m2.len() == m.len(),
        0 <= i < m.len(),
        0 <= j < m[i]@.len(),
        forall|u: int| 0 <= u < m.len() && u != i ==> #[trigger] m2[u] == m[u],
        m2[i]@ == m[i]@.update(j, c),
    ensures
        values(m2) == values(m).update(i, values(m)[i].update(j, c.val())),
{
    let a = values(m2);
    let b = values(m).update(i, values(m)[i].update(j, c.val()));
    assert forall|u: int| 0 <= u < a.len() implies a[u] =~= b[u] by {
        if u != i {
            assert(m2[u] == m[u]);
        }
    }
    assert(a =~= b);
}

/// Push `a`, the bottleneck of the path to `t`, along the path of the search
/// tree from `s` to `t`: every node on it but the ends keeps its balance.
fn push_flow<C: Weight>(
    flow: &mut Vec<Vec<C>>,
    parent: &Vec<usize>,
    dir: &Vec<bool>,
    a: C,
    s: usize,
    t: usize,
    Ghost(g): Ghost<Seq<Seq<(usize, C)>>>,
    Ghost(pc): Ghost<Seq<C>>,
    Ghost(time): Ghost<Seq<int>>,
    Ghost(order): Ghost<Seq<usize>>,
)
    requires
        path_tree(g, values(old(flow)@), s, parent@, dir@, pc, time, order),
        square(old(flow)@, g.len() as int),
        caps_fit(g),
        g.len() <= usize::MAX,
        forall|u: int, v: int| 0 <= u < g.len() && 0 <= v < g.len() ==> 0 <= #[trigger] values(old(flow)@)[u][v] <= usable(cap(g, u, v)),
        t < g.len(),
        t != s,
        parent@[t as int] != usize::MAX,
        a.val() == pc[t as int].val(),
    ensures
        square(final(flow)@, g.len() as int),
        forall|u: int, v: int| 0 <= u < g.len() && 0 <= v < g.len() ==> 0 <= #[trigger] values(final(flow)@)[u][v] <= usable(cap(g, u, v)),
        forall|v: int| 0 <= v < g.len() ==> #[trigger] net_out(values(final(flow)@), g.len() as int, v)
            == net_out(values(old(flow)@), g.len() as int, v) + (if v == s { a.val() } else { 0 }) - (if v == t { a.val() } else { 0 }),
        forall|u: int| 0 <= u < g.len() ==> #[trigger] values(final(flow)@)[u][s as int] <= values(old(flow)@)[u][s as int],
        forall|u: int| 0 <= u < g.len() ==> #[trigger] values(final(flow)@)[t as int][u] <= values(old(flow)@)[t as int][u],
{
    let ghost n = g.len() as int;
    let ghost f0 = values(flow@);
    let mut x = t;
    proof {
        assert(tree_step(g, f0, parent@, dir@, pc, time, t as int));
    }
    while x != s
        invariant
            n == g.len(),
            n <= usize::MAX,
            caps_fit(g),
            path_tree(g, f0, s, parent@, dir@, pc, time, order),
            square(flow@, n),
            x < n,
            parent@[x as int] != usize::MAX,
            time[x as int] <= time[t as int],
            0 < a.val() <= pc[x as int].val(),
            forall|u: int, v: int| 0 <= u < n && 0 <= v < n ==> 0 <= #[trigger] values(flow@)[u][v] <= usable(cap(g, u, v)),
            forall|u: int, v: int| 0 <= u < n && 0 <= v < n && #[trigger] values(flow@)[u][v] != f0[u][v]
                ==> parent@[u] != usize::MAX && parent@[v] != usize::MAX && (time[u] > time[x as int] || time[v] > time[x as int]),
            forall|v: int| 0 <= v < n ==> #[trigger] net_out(values(flow@), n, v) == net_out(f0, n, v)
                + (if x != t { (if v == x { a.val() } else { 0 }) - (if v == t { a.val() } else { 0 }) } else { 0 }),
            s < n,
            t < n,
            forall|u: int| 0 <= u < n ==> #[trigger] values(flow@)[u][s as int] <= f0[u][s as int],
            forall|u: int| 0 <= u < n ==> #[trigger] values(flow@)[t as int][u] <= f0[t as int][u],
        decreases time[x as int],
    {
        let p = parent[x];
        let ghost m0 = flow@;
        let ghost v0 = values(flow@);
        proof {
            assert(tree_step(g, f0, parent@, dir@, pc, time, x as int));
            assert(time[p as int] < time[x as int]);
            assert(0 <= time[p as int]);
        }
        if dir[x] {
            let old = flow[p][x];
            proof {
                assert(old.val() == v0[p as int][x as int]);
                assert(v0[p as int][x as int] == f0[p as int][x as int]);
                let _ = psum(g[p as int], x, g[p as int].len() as int);
                assert(cap(g, p as int, x as int) <= C::hi());
                assert(dir@[x as int]);
                assert(pc[x as int].val() <= cap(g, p as int, x as int) - f0[p as int][x as int]);
                C::lemma_range(a);
                assert(0 <= f0[p as int][x as int]);
            }
            let nv = old.plus(a);
            flow[p].set(x, nv);
            proof {
                lemma_values_set(m0, flow@, p as int, x as int, nv);
                assert forall|v: int| 0 <= v < n implies #[trigger] net_out(values(flow@), n, v) == net_out(v0, n, v)
                    + (if v == p { a.val() } else { 0 }) - (if v == x { a.val() } else { 0 }) by {
                    lemma_net_update(v0, n, p as int, x as int, old.val() + a.val(), v);
                }
            }
        } else {
            let old = flow[x][p];
            proof {
                assert(old.val() == v0[x as int][p as int]);
                assert(v0[x as int][p as int] == f0[x as int][p as int]);
                C::lemma_range(old);
            }
            let nv = old.minus(a);
            flow[x].set(p, nv);
            proof {
                lemma_values_set(m0, flow@, x as int, p as int, nv);
                assert forall|v: int| 0 <= v < n implies #[trigger] net_out(values(flow@), n, v) == net_out(v0, n, v)
                    + (if v == p { a.val() } else { 0 }) - (if v == x { a.val() } else { 0 }) by {
                    lemma_net_update(v0, n, x as int, p as int, old.val() - a.val(), v);
                }
            }
        }
        proof {
            let v1 = values(flow@);
            assert forall|u: int| 0 <= u < n implies (#[trigger] flow@[u])@.len() == n by {
                if u != p && u != x {
                    assert(flow@[u] == m0[u]);
                }
            }
            assert forall|u: int, v: int| 0 <= u < n && 0 <= v < n && #[trigger] v1[u][v] != f0[u][v]
                implies parent@[u] != usize::MAX && parent@[v] != usize::MAX && (time[u] > time[p as int] || time[v] > time[p as int]) by {
                if v1[u][v] == v0[u][v] {
                } else {
                    assert(u == p && v == x || u == x && v == p);
                }
            }
            assert(p != t) by {
                assert(time[p as int] < time[x as int]);
            }
            assert(parent@[p as int] != usize::MAX);
            assert forall|u: int| 0 <= u < n implies #[trigger] v1[u][s as int] <= f0[u][s as int] by {
                assert(v0[u][s as int] <= f0[u][s as int]);
            }
            assert forall|u: int| 0 <= u < n implies #[trigger] v1[t as int][u] <= f0[t as int][u] by {
                assert(v0[t as int][u] <= f0[t as int][u]);
            }
        }
        x = p;
    }
}

/// `p` is a path of the residual graph of `f`.
pub open spec fn res_path<C: Weight>(g: Seq<Seq<(usize, C)>>, f: Seq<Seq<int>>, p: Seq<usize>) -> bool {
    &&& p.len() >= 1
    &&& forall|i: int| 0 <= i < p.len() ==> #[trigger] p[i] < g.len()
    &&& forall|i: int| 0 <= i < p.len() - 1 ==> #[trigger] residual(g, f, p[i], p[i + 1])
}

/// The residual graph of `f` has a path from `s` to `x`.
pub open spec fn res_reach<C: Weight>(g: Seq<Seq<(usize, C)>>, f: Seq<Seq<int>>, s: usize, x: usize) -> bool {
    exists|p: Seq<usize>| #[trigger] res_path(g, f, p) && p[0] == s && p[p.len() - 1] == x
}

/// A set closed under residual edges holds every node on a residual path from one of its nodes.
proof fn lemma_res_closed<C: Weight>(g: Seq<Seq<(usize, C)>>, f: Seq<Seq<int>>, side: Seq<bool>, p: Seq<usize>, k: int)
    requires
        res_path(g, f, p),
        side.len() == g.len(),
        side[p[0] as int],
        forall|u: usize, x: usize| u < g.len() && x < g.len() && side[u as int] && #[trigger] residual(g, f, u, x) ==> side[x as int],
        0 <= k < p.len(),
    ensures
        side[p[k] as int],
    decreases k,
{
    if k > 0 {
        lemma_res_closed(g, f, side, p, k - 1);
        let i = k - 1;
        assert(residual(g, f, p[i], p[i + 1]));
    }
}

/// Without an edge from `u` to `v` there is no capacity from `u` to `v`.
proof fn lemma_no_edge_cap<C: Weight>(l: Seq<(usize, C)>, v: usize, k: int)
    requires
        0 <= k <= l.len(),
        forall|j: int| 0 <= j < l.len() ==> #[trigger] l[j].0 != v,
    ensures
        psum(l, v, k) == 0,
    decreases k,
{
    if k > 0 {
        lemma_no_edge_cap(l, v, k - 1);
    }
}

/// Mark the nodes that the residual graph of the flow leads to from `s`, given
/// the closed search tree of a search that did not reach `t`.
fn cut_side<C: Weight>(
    successors: &[Vec<(usize, C)>],
    predecessors: &[Vec<(usize, ())>],
    capm: &Vec<Vec<C>>,
    flow: &Vec<Vec<C>>,
    s: usize,
    t: usize,
    Ghost(tree): Ghost<Seq<usize>>,
) -> (r: Vec<bool>)
    requires
        wf(adj(successors@)),
        wf(adj(predecessors@)),
        reverses(adj(successors@), adj(predecessors@)),
        flow_state(adj(successors@), s, t, capm@, flow@),
        s < successors@.len(),
        t < successors@.len(),
        tree.len() == successors@.len(),
        tree[s as int] != usize::MAX,
        tree[t as int] == usize::MAX,
        closed_tree(adj(successors@), values(flow@), tree),
    ensures
        r@.len() == successors@.len(),
        r@[s as int],
        !r@[t as int],
        forall|u: usize, x: usize| u < successors@.len() && x < successors@.len() && r@[u as int]
            && #[trigger] residual(adj(successors@), values(flow@), u, x) ==> r@[x as int],
        forall|x: usize| x < successors@.len() ==> (r@[x as int] <==> res_reach(adj(successors@), values(flow@), s, x)),
{
    let ghost g = adj(successors@);
    let ghost h = adj(predecessors@);
    let ghost f = values(flow@);
    let n = successors.len();
    let mut side: Vec<bool> = Vec::new();
    let mut i: usize = 0;
    while i < n
        invariant
            i <= n,
            side@.len() == i,
            forall|x: int| 0 <= x < i ==> !#[trigger] side@[x],
        decreases n - i,
    {
        side.push(false);
        i = i + 1;
    }
    side.set(s, true);
    let mut queue: Vec<usize> = Vec::new();
    queue.push(s);
    let mut head: usize = 0;
    proof {
        assert(res_path(g, f, seq![s]));
        assert forall|x: usize| x < n implies (#[trigger] side@[x as int] <==> queue@.contains(x)) by {
            if x == s {
                assert(queue@[0] == s);
            }
        }
    }
    while head < queue.len()
        invariant
            g == adj(successors@),
            h == adj(predecessors@),
            f == values(flow@),
            wf(g),
            wf(h),
            reverses(g, h),
            flow_state(g, s, t, capm@, flow@),
            n == g.len(),
            s < n,
            t < n,
            tree.len() == n,
            tree[t as int] == usize::MAX,
            closed_tree(g, f, tree),
            side@.len() == n,
            side@[s as int],
            head <= queue@.len(),
            forall|a: int, b: int| 0 <= a < b < queue@.len() ==> #[trigger] queue@[a] != #[trigger] queue@[b],
            forall|k: int| 0 <= k < queue@.len() ==> #[trigger] queue@[k] < n,
            forall|x: usize| x < n ==> (#[trigger] side@[x as int] <==> queue@.contains(x)),
            forall|x: usize| x < n && #[trigger] side@[x as int] ==> tree[x as int] != usize::MAX && res_reach(g, f, s, x),
            forall|k: int, x: usize| 0 <= k < head && x < n && #[trigger] residual(g, f, queue@[k], x) ==> side@[x as int],
        decreases n - queue@.len(), queue@.len() - head,
    {
        proof { crate::directed::bfs::lemma_seq_distinct_len(queue@, n as nat); }
        let node = queue[head];
        head = head + 1;
        proof {
            assert(queue@.contains(node));
            assert(side@[node as int]);
        }
        let edges = &successors[node];
        proof { assert(edges@ == g[node as int]); }
        let mut k: usize = 0;
        let ghost q0 = queue@;
        while k < edges.len()
            invariant
                g == adj(successors@),
                f == values(flow@),
                wf(g),
                flow_state(g, s, t, capm@, flow@),
                n == g.len(),
                s < n,
                tree.len() == n,
                closed_tree(g, f, tree),
                node < n,
                side@[node as int],
                side@[s as int],
                head >= 1,
                queue@[head - 1] == node,
                edges@ == g[node as int],
                k <= edges@.len(),
                side@.len() == n,
                head <= queue@.len(),
                queue@.len() >= q0.len(),
                forall|a: int, b: int| 0 <= a < b < queue@.len() ==> #[trigger] queue@[a] != #[trigger] queue@[b],
                forall|j: int| 0 <= j < queue@.len() ==> #[trigger] queue@[j] < n,
                forall|x: usize| x < n ==> (#[trigger] side@[x as int] <==> queue@.contains(x)),
                forall|x: usize| x < n && #[trigger] side@[x as int] ==> tree[x as int] != usize::MAX && res_reach(g, f, s, x),
                forall|kk: int, x: usize| 0 <= kk < head - 1 && x < n && #[trigger] residual(g, f, queue@[kk], x) ==> side@[x as int],
                forall|j: int| 0 <= j < k && cap(g, node as int, g[node as int][j].0 as int) - f[node as int][g[node as int][j].0 as int] > 0
                    ==> side@[#[trigger] g[node as int][j].0 as int],
            decreases edges@.len() - k,
        {
            let next = edges[k].0;
            proof {
                assert(g[node as int][k as int].0 == next);
                assert(next < n);
            }
            if !side[next] {
                let c = capm[node][next];
                let fl = flow[node][next];
                proof {
                    assert(c.val() == cap(g, node as int, next as int));
                    assert(fl.val() == f[node as int][next as int]);
                    assert(0 <= f[node as int][next as int] <= usable(cap(g, node as int, next as int)));
                    C::lemma_range(c);
                }
                let res = c.minus(fl);
                if C::zero().lt(&res) {
                    proof {
                        assert(edge(g, node, next));
                        assert(residual(g, f, node, next));
                        lemma_mark_step(g, f, s, tree, side@, queue@, node, next);
                    }
                    side.set(next, true);
                    queue.push(next);
                }
            }
            k = k + 1;
        }
        let preds = &predecessors[node];
        proof { assert(preds@ == h[node as int]); }
        let mut k2: usize = 0;
        while k2 < preds.len()
            invariant
                g == adj(successors@),
                h == adj(predecessors@),
                f == values(flow@),
                wf(g),
                wf(h),
                reverses(g, h),
                flow_state(g, s, t, capm@, flow@),
                n == g.len(),
                s < n,
                tree.len() == n,
                closed_tree(g, f, tree),
                node < n,
                side@[node as int],
                side@[s as int],
                head >= 1,
                queue@[head - 1] == node,
                edges@ == g[node as int],
                preds@ == h[node as int],
                k2 <= preds@.len(),
                side@.len() == n,
                head <= queue@.len(),
                queue@.len() >= q0.len(),
                forall|a: int, b: int| 0 <= a < b < queue@.len() ==> #[trigger] queue@[a] != #[trigger] queue@[b],
                forall|j: int| 0 <= j < queue@.len() ==> #[trigger] queue@[j] < n,
                forall|x: usize| x < n ==> (#[trigger] side@[x as int] <==> queue@.contains(x)),
                forall|x: usize| x < n && #[trigger] side@[x as int] ==> tree[x as int] != usize::MAX && res_reach(g, f, s, x),
                forall|kk: int, x: usize| 0 <= kk < head - 1 && x < n && #[trigger] residual(g, f, queue@[kk], x) ==> side@[x as int],
                forall|j: int| 0 <= j < edges@.len() && cap(g, node as int, g[node as int][j].0 as int) - f[node as int][g[node as int][j].0 as int] > 0
                    ==> side@[#[trigger] g[node as int][j].0 as int],
                forall|j: int| 0 <= j < k2 && f[h[node as int][j].0 as int][node as int] > 0 ==> side@[#[trigger] h[node as int][j].0 as int],
            decreases preds@.len() - k2,
        {
            let prev = preds[k2].0;
            proof {
                assert(h[node as int][k2 as int].0 == prev);
                assert(prev < n);
            }
            if !side[prev] {
                let res = flow[prev][node];
                proof { assert(res.val() == f[prev as int][node as int]); }
                if C::zero().lt(&res) {
                    proof {
                        assert(edge(h, node, prev));
                        assert(edge(g, prev, node));
                        assert(residual(g, f, node, prev));
                        lemma_mark_step(g, f, s, tree, side@, queue@, node, prev);
                    }
                    side.set(prev, true);
                    queue.push(prev);
                }
            }
            k2 = k2 + 1;
        }
        proof {
            assert forall|x: usize| x < n && #[trigger] residual(g, f, node, x) implies side@[x as int] by {
                if edge(g, node, x) && cap(g, node as int, x as int) - f[node as int][x as int] > 0 {
                    let j = choose|j: int| 0 <= j < g[node as int].len() && #[trigger] g[node as int][j].0 == x;
                } else {
                    assert(edge(h, node, x));
                    let j = choose|j: int| 0 <= j < h[node as int].len() && #[trigger] h[node as int][j].0 == x;
                }
            }
            crate::directed::bfs::lemma_seq_distinct_len(queue@, n as nat);
        }
    }
    proof {
        assert forall|u: usize, x: usize| u < n && x < n && side@[u as int] && #[trigger] residual(g, f, u, x) implies side@[x as int] by {
            assert(queue@.contains(u));
            let k = choose|k: int| 0 <= k < queue@.len() && queue@[k] == u;
        }
        assert forall|x: usize| x < n implies (side@[x as int] <==> res_reach(g, f, s, x)) by {
            if res_reach(g, f, s, x) {
                let p = choose|p: Seq<usize>| #[trigger] res_path(g, f, p) && p[0] == s && p[p.len() - 1] == x;
                lemma_res_closed(g, f, side@, p, p.len() - 1);
            }
        }
    }
    side
}

/// Marking a residual successor of a marked node keeps the marks within the
/// search tree and reachable.
proof fn lemma_mark_step<C: Weight>(
    g: Seq<Seq<(usize, C)>>,
    f: Seq<Seq<int>>,
    s: usize,
    tree: Seq<usize>,
    side: Seq<bool>,
    queue: Seq<usize>,
    node: usize,
    x: usize,
)
    requires
        node < g.len(),
        x < g.len(),
        side.len() == g.len(),
        tree.len() == g.len(),
        side[node as int],
        !side[x as int],
        residual(g, f, node, x),
        closed_tree(g, f, tree),
        forall|y: usize| y < g.len() ==> (#[trigger] side[y as int] <==> queue.contains(y)),
        forall|y: usize| y < g.len() && #[trigger] side[y as int] ==> tree[y as int] != usize::MAX && res_reach(g, f, s, y),
        forall|a: int, b: int| 0 <= a < b < queue.len() ==> #[trigger] queue[a] != #[trigger] queue[b],
    ensures
        tree[x as int] != usize::MAX,
        res_reach(g, f, s, x),
        forall|y: usize| y < g.len() ==> (#[trigger] side.update(x as int, true)[y as int] <==> queue.push(x).contains(y)),
        forall|a: int, b: int| 0 <= a < b < queue.push(x).len() ==> #[trigger] queue.push(x)[a] != #[trigger] queue.push(x)[b],
{
    let p = choose|p: Seq<usize>| #[trigger] res_path(g, f, p) && p[0] == s && p[p.len() - 1] == node;
    let p2 = p.push(x);
    assert forall|i: int| 0 <= i < p2.len() - 1 implies #[trigger] residual(g, f, p2[i], p2[i + 1]) by {
        if i < p.len() - 1 {
            assert(residual(g, f, p[i], p[i + 1]));
        }
    }
    assert forall|i: int| 0 <= i < p2.len() implies #[trigger] p2[i] < g.len() by {
        if i < p.len() {
            assert(p2[i] == p[i]);
        }
    }
    assert(res_path(g, f, p2));
    let q2 = queue.push(x);
    assert forall|y: usize| y < g.len() implies (#[trigger] side.update(x as int, true)[y as int] <==> q2.contains(y)) by {
        if y == x {
            assert(q2[queue.len() as int] == x);
        } else if q2.contains(y) {
            let k = choose|k: int| 0 <= k < q2.len() && q2[k] == y;
            assert(queue[k] == y);
            assert(queue.contains(y));
        } else if queue.contains(y) {
            let k = choose|k: int| 0 <= k < queue.len() && queue[k] == y;
            assert(q2[k] == y);
        }
    }
    assert forall|a: int, b: int| 0 <= a < b < q2.len() implies #[trigger] q2[a] != #[trigger] q2[b] by {
        if b == queue.len() {
            assert(queue.contains(queue[a]));
        } else {
            assert(q2[a] == queue[a] && q2[b] == queue[b]);
        }
    }
}

/// The pairs that carry flow along the first `j` edges of `u`, in the order of
/// those edges, each with its flow (a pair joined by several edges comes once
/// for each).
pub open spec fn row_flows<C: Weight>(g: Seq<Seq<(usize, C)>>, f: Seq<Seq<int>>, u: int, j: int) -> Seq<((usize, usize), int)>
    decreases j,
{
    if j <= 0 {
        Seq::empty()
    } else {
        let rest = row_flows(g, f, u, j - 1);
        let v = g[u][j - 1].0;
        if f[u][v as int] > 0 {
            rest.push(((u as usize, v), f[u][v as int]))
        } else {
            rest
        }
    }
}

/// The pairs that carry flow along the edges of the first `k` nodes.
pub open spec fn flow_entries<C: Weight>(g: Seq<Seq<(usize, C)>>, f: Seq<Seq<int>>, k: int) -> Seq<((usize, usize), int)>
    decreases k,
{
    if k <= 0 {
        Seq::empty()
    } else {
        flow_entries(g, f, k - 1) + row_flows(g, f, k - 1, g[k - 1].len() as int)
    }
}

/// The edges among the first `j` edges of `u` that leave the side with some
/// capacity, in the order of those edges, each with the capacity of its pair.
pub open spec fn row_cuts<C: Weight>(g: Seq<Seq<(usize, C)>>, side: Seq<bool>, u: int, j: int) -> Seq<((usize, usize), int)>
    decreases j,
{
    if j <= 0 {
        Seq::empty()
    } else {
        let rest = row_cuts(g, side, u, j - 1);
        let v = g[u][j - 1].0;
        if side[u] && !side[v as int] && cap(g, u, v as int) > 0 {
            rest.push(((u as usize, v), cap(g, u, v as int)))
        } else {
            rest
        }
    }
}

/// The edges of the first `k` nodes that leave the side with some capacity.
pub open spec fn cut_entries<C: Weight>(g: Seq<Seq<(usize, C)>>, side: Seq<bool>, k: int) -> Seq<((usize, usize), int)>
    decreases k,
{
    if k <= 0 {
        Seq::empty()
    } else {
        cut_entries(g, side, k - 1) + row_cuts(g, side, k - 1, g[k - 1].len() as int)
    }
}

/// The integers of a list of weighted pairs.
pub open spec fn entry_values<C: Weight>(l: Seq<((usize, usize), C)>) -> Seq<((usize, usize), int)> {
    Seq::new(l.len(), |i: int| (l[i].0, l[i].1.val()))
}

/// The result of a maximum flow computation: `f` is a feasible flow of value
/// `value`, the side of the source in its residual graph is a cut whose
/// capacity is that value, no feasible flow has a greater value, and the lists
/// give the flow along the edges and the edges of the cut.
pub open spec fn max_flow_cut<C: Weight>(
    g: Seq<Seq<(usize, C)>>,
    s: usize,
    t: usize,
    f: Seq<Seq<int>>,
    side: Seq<bool>,
    flows: Seq<((usize, usize), int)>,
    value: int,
    cuts: Seq<((usize, usize), int)>,
) -> bool {
    let n = g.len() as int;
    &&& feasible(g, s, t, f)
    &&& value == net_out(f, n, s as int)
    &&& side.len() == n
    &&& side[s as int]
    &&& !side[t as int]
    &&& forall|x: usize| x < n ==> (side[x as int] <==> #[trigger] res_reach(g, f, s, x))
    &&& value == cut_capacity(g, side)
    &&& forall|f2: Seq<Seq<int>>| #[trigger] feasible(g, s, t, f2) ==> net_out(f2, n, s as int) <= value
    &&& flows == flow_entries(g, f, n)
    &&& cuts == cut_entries(g, side, n)
}

/// Entry `x` of a flow list names an edge of `g` and carries the flow `f`
/// sends along its pair of nodes, which is positive.
pub open spec fn flow_entry_ok<C: Weight>(g: Seq<Seq<(usize, C)>>, f: Seq<Seq<int>>, x: ((usize, usize), int)) -> bool {
    &&& edge(g, x.0.0, x.0.1)
    &&& x.0.1 < g.len()
    &&& x.1 == f[x.0.0 as int][x.0.1 as int]
    &&& x.1 > 0
}

/// Entry `x` of a cut list names an edge of `g` from inside `side` to outside
/// it, and carries the capacity of its pair of nodes, which is positive.
pub open spec fn cut_entry_ok<C: Weight>(g: Seq<Seq<(usize, C)>>, side: Seq<bool>, x: ((usize, usize), int)) -> bool {
    &&& edge(g, x.0.0, x.0.1)
    &&& x.0.1 < g.len()
    &&& side[x.0.0 as int]
    &&& !side[x.0.1 as int]
    &&& x.1 == cap(g, x.0.0 as int, x.0.1 as int)
    &&& x.1 > 0
}

/// The pair `(u, v)` is named by some entry of the list.
pub open spec fn names(l: Seq<((usize, usize), int)>, u: usize, v: usize) -> bool {
    exists|i: int| 0 <= i < l.len() && (#[trigger] l[i]).0 == (u, v)
}

proof fn lemma_row_flows<C: Weight>(g: Seq<Seq<(usize, C)>>, f: Seq<Seq<int>>, u: int, j: int)
    requires
        wf(g),
        g.len() <= usize::MAX,
        0 <= u < g.len(),
        0 <= j <= g[u].len(),
    ensures
        forall|i: int| 0 <= i < row_flows(g, f, u, j).len() ==> #[trigger] flow_entry_ok(g, f, row_flows(g, f, u, j)[i]),
        forall|jj: int| 0 <= jj < j && f[u][(#[trigger] g[u][jj]).0 as int] > 0 ==> names(row_flows(g, f, u, j), u as usize, g[u][jj].0),
    decreases j,
{
    if j > 0 {
        lemma_row_flows(g, f, u, j - 1);
        let rest = row_flows(g, f, u, j - 1);
        let v = g[u][j - 1].0;
        let r = row_flows(g, f, u, j);
        assert(edge(g, u as usize, v)) by {
            assert(g[u][j - 1].0 == v);
        }
        assert(v < g.len());
        if f[u][v as int] > 0 {
            assert(r == rest.push(((u as usize, v), f[u][v as int])));
            assert forall|i: int| 0 <= i < r.len() implies #[trigger] flow_entry_ok(g, f, r[i]) by {
                if i < rest.len() {
                    assert(r[i] == rest[i]);
                }
            }
            assert forall|jj: int| 0 <= jj < j && f[u][(#[trigger] g[u][jj]).0 as int] > 0 implies names(r, u as usize, g[u][jj].0) by {
                if jj < j - 1 {
                    let i = choose|i: int| 0 <= i < rest.len() && (#[trigger] rest[i]).0 == (u as usize, g[u][jj].0);
                    assert(r[i] == rest[i]);
                } else {
                    assert(r[rest.len() as int].0 == (u as usize, v));
                }
            }
        } else {
            assert(r == rest);
        }
    }
}

proof fn lemma_flow_entries<C: Weight>(g: Seq<Seq<(usize, C)>>, f: Seq<Seq<int>>, k: int)
    requires
        wf(g),
        g.len() <= usize::MAX,
        0 <= k <= g.len(),
    ensures
        forall|i: int| 0 <= i < flow_entries(g, f, k).len() ==> #[trigger] flow_entry_ok(g, f, flow_entries(g, f, k)[i]),
        forall|u: int, jj: int| 0 <= u < k && 0 <= jj < g[u].len() && f[u][(#[trigger] g[u][jj]).0 as int] > 0
            ==> names(flow_entries(g, f, k), u as usize, g[u][jj].0),
    decreases k,
{
    if k > 0 {
        lemma_flow_entries(g, f, k - 1);
        lemma_row_flows(g, f, k - 1, g[k - 1].len() as int);
        let a = flow_entries(g, f, k - 1);
        let b = row_flows(g, f, k - 1, g[k - 1].len() as int);
        let l = flow_entries(g, f, k);
        assert(l == a + b);
        assert forall|i: int| 0 <= i < l.len() implies #[trigger] flow_entry_ok(g, f, l[i]) by {
            if i < a.len() {
                assert(l[i] == a[i]);
            } else {
                assert(l[i] == b[i - a.len()]);
            }
        }
        assert forall|u: int, jj: int| 0 <= u < k && 0 <= jj < g[u].len() && f[u][(#[trigger] g[u][jj]).0 as int] > 0
            implies names(l, u as usize, g[u][jj].0) by {
            if u < k - 1 {
                let i = choose|i: int| 0 <= i < a.len() && (#[trigger] a[i]).0 == (u as usize, g[u][jj].0);
                assert(l[i] == a[i]);
            } else {
                let i = choose|i: int| 0 <= i < b.len() && (#[trigger] b[i]).0 == (u as usize, g[u][jj].0);
                assert(l[a.len() + i] == b[i]);
            }
        }
    }
}

proof fn lemma_row_cuts<C: Weight>(g: Seq<Seq<(usize, C)>>, side: Seq<bool>, u: int, j: int)
    requires
        wf(g),
        g.len() <= usize::MAX,
        0 <= u < g.len(),
        0 <= j <= g[u].len(),
    ensures
        forall|i: int| 0 <= i < row_cuts(g, side, u, j).len() ==> #[trigger] cut_entry_ok(g, side, row_cuts(g, side, u, j)[i]),
        forall|jj: int| 0 <= jj < j && side[u] && !side[(#[trigger] g[u][jj]).0 as int] && cap(g, u, g[u][jj].0 as int) > 0
            ==> names(row_cuts(g, side, u, j), u as usize, g[u][jj].0),
    decreases j,
{
    if j > 0 {
        lemma_row_cuts(g, side, u, j - 1);
        let rest = row_cuts(g, side, u, j - 1);
        let v = g[u][j - 1].0;
        let r = row_cuts(g, side, u, j);
        assert(edge(g, u as usize, v)) by {
            assert(g[u][j - 1].0 == v);
        }
        assert(v < g.len());
        if side[u] && !side[v as int] && cap(g, u, v as int) > 0 {
            assert(r == rest.push(((u as usize, v), cap(g, u, v as int))));
            assert forall|i: int| 0 <= i < r.len() implies #[trigger] cut_entry_ok(g, side, r[i]) by {
                if i < rest.len() {
                    assert(r[i] == rest[i]);
                }
            }
            assert forall|jj: int| 0 <= jj < j && side[u] && !side[(#[trigger] g[u][jj]).0 as int] && cap(g, u, g[u][jj].0 as int) > 0
                implies names(r, u as usize, g[u][jj].0) by {
                if jj < j - 1 {
                    let i = choose|i: int| 0 <= i < rest.len() && (#[trigger] rest[i]).0 == (u as usize, g[u][jj].0);
                    assert(r[i] == rest[i]);
                } else {
                    assert(r[rest.len() as int].0 == (u as usize, v));
                }
            }
        } else {
            assert(r == rest);
        }
    }
}

proof fn lemma_cut_entries<C: Weight>(g: Seq<Seq<(usize, C)>>, side: Seq<bool>, k: int)
    requires
        wf(g),
        g.len() <= usize::MAX,
        0 <= k <= g.len(),
    ensures
        forall|i: int| 0 <= i < cut_entries(g, side, k).len() ==> #[trigger] cut_entry_ok(g, side, cut_entries(g, side, k)[i]),
        forall|u: int, jj: int| 0 <= u < k && 0 <= jj < g[u].len() && side[u] && !side[(#[trigger] g[u][jj]).0 as int]
            && cap(g, u, g[u][jj].0 as int) > 0 ==> names(cut_entries(g, side, k), u as usize, g[u][jj].0),
    decreases k,
{
    if k > 0 {
        lemma_cut_entries(g, side, k - 1);
        lemma_row_cuts(g, side, k - 1, g[k - 1].len() as int);
        let a = cut_entries(g, side, k - 1);
        let b = row_cuts(g, side, k - 1, g[k - 1].len() as int);
        let l = cut_entries(g, side, k);
        assert(l == a + b);
        assert forall|i: int| 0 <= i < l.len() implies #[trigger] cut_entry_ok(g, side, l[i]) by {
            if i < a.len() {
                assert(l[i] == a[i]);
            } else {
                assert(l[i] == b[i - a.len()]);
            }
        }
        assert forall|u: int, jj: int| 0 <= u < k && 0 <= jj < g[u].len() && side[u] && !side[(#[trigger] g[u][jj]).0 as int]
            && cap(g, u, g[u][jj].0 as int) > 0 implies names(l, u as usize, g[u][jj].0) by {
            if u < k - 1 {
                let i = choose|i: int| 0 <= i < a.len() && (#[trigger] a[i]).0 == (u as usize, g[u][jj].0);
                assert(l[i] == a[i]);
            } else {
                let i = choose|i: int| 0 <= i < b.len() && (#[trigger] b[i]).0 == (u as usize, g[u][jj].0);
                assert(l[a.len() + i] == b[i]);
            }
        }
    }
}

/// The edges of `g` as pairs of nodes, node by node and, within a node, in
/// the order of its list.
pub open spec fn edge_pairs<C>(g: Seq<Seq<(usize, C)>>) -> Seq<(usize, usize)> {
    Seq::new(g.len(), |u: int| row_pairs(g, u, g[u].len() as int)).flatten()
}

/// The first `j` edges of `u` as pairs of nodes.
pub open spec fn row_pairs<C>(g: Seq<Seq<(usize, C)>>, u: int, j: int) -> Seq<(usize, usize)> {
    Seq::new(j as nat, |i: int| (u as usize, g[u][i].0))
}

/// The pair carries flow in `f`.
pub open spec fn carries(f: Seq<Seq<int>>) -> spec_fn((usize, usize)) -> bool {
    |x: (usize, usize)| f[x.0 as int][x.1 as int] > 0
}

/// The pair with the flow that `f` sends along it.
pub open spec fn with_flow(f: Seq<Seq<int>>) -> spec_fn((usize, usize)) -> ((usize, usize), int) {
    |x: (usize, usize)| (x, f[x.0 as int][x.1 as int])
}

/// The pair leaves `side` with a positive capacity.
pub open spec fn crosses<C: Weight>(g: Seq<Seq<(usize, C)>>, side: Seq<bool>) -> spec_fn((usize, usize)) -> bool {
    |x: (usize, usize)| side[x.0 as int] && !side[x.1 as int] && cap(g, x.0 as int, x.1 as int) > 0
}

/// The pair with its capacity.
pub open spec fn with_cap<C: Weight>(g: Seq<Seq<(usize, C)>>) -> spec_fn((usize, usize)) -> ((usize, usize), int) {
    |x: (usize, usize)| (x, cap(g, x.0 as int, x.1 as int))
}

proof fn lemma_row_flows_exact<C: Weight>(g: Seq<Seq<(usize, C)>>, f: Seq<Seq<int>>, side: Seq<bool>, u: int, j: int)
    requires
        g.len() <= usize::MAX,
        0 <= u < g.len(),
        0 <= j <= g[u].len(),
    ensures
        row_flows(g, f, u, j) == row_pairs(g, u, j).filter(carries(f)).map_values(with_flow(f)),
        row_cuts(g, side, u, j) == row_pairs(g, u, j).filter(crosses(g, side)).map_values(with_cap(g)),
    decreases j,
{
    broadcast use vstd::seq_lib::group_seq_properties;
    if j == 0 {
        assert(row_pairs(g, u, 0) =~= Seq::<(usize, usize)>::empty());
        reveal(Seq::filter);
        assert(row_pairs(g, u, 0).filter(carries(f)) =~= Seq::<(usize, usize)>::empty());
        assert(row_pairs(g, u, 0).filter(crosses(g, side)) =~= Seq::<(usize, usize)>::empty());
    } else {
        lemma_row_flows_exact(g, f, side, u, j - 1);
        let x = (u as usize, g[u][j - 1].0);
        assert(row_pairs(g, u, j) =~= row_pairs(g, u, j - 1).push(x));
        row_pairs(g, u, j - 1).lemma_filter_push(x, carries(f));
        row_pairs(g, u, j - 1).lemma_filter_push(x, crosses(g, side));
        let a = row_pairs(g, u, j - 1).filter(carries(f));
        let b = row_pairs(g, u, j - 1).filter(crosses(g, side));
        assert(a.push(x).map_values(with_flow(f)) =~= a.map_values(with_flow(f)).push(with_flow(f)(x)));
        assert(b.push(x).map_values(with_cap(g)) =~= b.map_values(with_cap(g)).push(with_cap(g)(x)));
    }
}

proof fn lemma_entries_exact<C: Weight>(g: Seq<Seq<(usize, C)>>, f: Seq<Seq<int>>, side: Seq<bool>, k: int)
    requires
        g.len() <= usize::MAX,
        0 <= k <= g.len(),
    ensures
        flow_entries(g, f, k) == Seq::new(k as nat, |u: int| row_pairs(g, u, g[u].len() as int)).flatten()
            .filter(carries(f)).map_values(with_flow(f)),
        cut_entries(g, side, k) == Seq::new(k as nat, |u: int| row_pairs(g, u, g[u].len() as int)).flatten()
            .filter(crosses(g, side)).map_values(with_cap(g)),
    decreases k,
{
    broadcast use vstd::seq_lib::group_seq_properties;
    let rows = Seq::new(k as nat, |u: int| row_pairs(g, u, g[u].len() as int));
    if k == 0 {
        assert(rows =~= Seq::<Seq<(usize, usize)>>::empty());
        assert(rows.flatten() =~= Seq::<(usize, usize)>::empty());
        reveal(Seq::filter);
        assert(rows.flatten().filter(carries(f)) =~= Seq::<(usize, usize)>::empty());
        assert(rows.flatten().filter(crosses(g, side)) =~= Seq::<(usize, usize)>::empty());
    } else {
        lemma_entries_exact(g, f, side, k - 1);
        lemma_row_flows_exact(g, f, side, k - 1, g[k - 1].len() as int);
        let prev = Seq::new((k - 1) as nat, |u: int| row_pairs(g, u, g[u].len() as int));
        let last = row_pairs(g, k - 1, g[k - 1].len() as int);
        assert(rows =~= prev.push(last));
        prev.lemma_flatten_push(last);
        assert(rows.flatten() =~= prev.flatten() + last);
        Seq::filter_distributes_over_add(prev.flatten(), last, carries(f));
        Seq::filter_distributes_over_add(prev.flatten(), last, crosses(g, side));
        let a1 = prev.flatten().filter(carries(f));
        let a2 = last.filter(carries(f));
        assert((a1 + a2).map_values(with_flow(f)) =~= a1.map_values(with_flow(f)) + a2.map_values(with_flow(f)));
        let b1 = prev.flatten().filter(crosses(g, side));
        let b2 = last.filter(crosses(g, side));
        assert((b1 + b2).map_values(with_cap(g)) =~= b1.map_values(with_cap(g)) + b2.map_values(with_cap(g)));
    }
}

/// The lists describe the flow `f` and the cut `side`: every entry of the flow
/// list names an edge and carries the flow that `f` sends between its ends,
/// which is positive and within the capacity; every edge whose ends carry flow
/// is named; every entry of the cut list names an edge that leaves the side of
/// the source and carries the capacity between its ends, which is positive;
/// and every such edge with a positive capacity is named.
pub open spec fn lists_match<C: Weight>(
    g: Seq<Seq<(usize, C)>>,
    f: Seq<Seq<int>>,
    side: Seq<bool>,
    flows: Seq<((usize, usize), int)>,
    cuts: Seq<((usize, usize), int)>,
) -> bool {
    &&& forall|i: int| 0 <= i < flows.len() ==> {
        let (u, v) = (#[trigger] flows[i]).0;
        &&& edge(g, u, v)
        &&& v < g.len()
        &&& flows[i].1 == f[u as int][v as int]
        &&& 0 < flows[i].1 <= usable(cap(g, u as int, v as int))
    }
    &&& forall|u: usize, v: usize| #[trigger] edge(g, u, v) && f[u as int][v as int] > 0 ==> names(flows, u, v)
    &&& forall|i: int| 0 <= i < cuts.len() ==> {
        let (u, v) = (#[trigger] cuts[i]).0;
        &&& edge(g, u, v)
        &&& v < g.len()
        &&& side[u as int] && !side[v as int]
        &&& cuts[i].1 == cap(g, u as int, v as int)
        &&& cuts[i].1 > 0
    }
    &&& forall|u: usize, v: usize| #[trigger] edge(g, u, v) && side[u as int] && !side[v as int] && cap(g, u as int, v as int) > 0
        ==> names(cuts, u, v)
}

/// The lists of a maximum flow computation describe its flow and its cut
/// (see `lists_match`): the flow list gives, edge by edge, the flow between
/// the ends of the edge, and the cut list the capacities of the edges that
/// cross the cut.
pub proof fn lemma_flow_and_cut_lists<C: Weight>(
    g: Seq<Seq<(usize, C)>>,
    s: usize,
    t: usize,
    f: Seq<Seq<int>>,
    side: Seq<bool>,
    flows: Seq<((usize, usize), int)>,
    value: int,
    cuts: Seq<((usize, usize), int)>,
)
    requires
        wf(g),
        g.len() <= usize::MAX,
        max_flow_cut(g, s, t, f, side, flows, value, cuts),
    ensures
        lists_match(g, f, side, flows, cuts),
{
    let n = g.len() as int;
    lemma_flow_entries(g, f, n);
    lemma_cut_entries(g, side, n);
    assert forall|i: int| 0 <= i < flows.len() implies {
        let (u, v) = (#[trigger] flows[i]).0;
        &&& edge(g, u, v)
        &&& v < g.len()
        &&& flows[i].1 == f[u as int][v as int]
        &&& 0 < flows[i].1 <= usable(cap(g, u as int, v as int))
    } by {
        assert(flow_entry_ok(g, f, flows[i]));
    }
    assert forall|u: usize, v: usize| #[trigger] edge(g, u, v) && f[u as int][v as int] > 0 implies names(flows, u, v) by {
        let jj = choose|jj: int| 0 <= jj < g[u as int].len() && #[trigger] g[u as int][jj].0 == v;
        assert(f[u as int][(g[u as int][jj]).0 as int] > 0);
    }
    assert forall|i: int| 0 <= i < cuts.len() implies {
        let (u, v) = (#[trigger] cuts[i]).0;
        &&& edge(g, u, v)
        &&& v < g.len()
        &&& side[u as int] && !side[v as int]
        &&& cuts[i].1 == cap(g, u as int, v as int)
        &&& cuts[i].1 > 0
    } by {
        assert(cut_entry_ok(g, side, cuts[i]));
    }
    assert forall|u: usize, v: usize| #[trigger] edge(g, u, v) && side[u as int] && !side[v as int] && cap(g, u as int, v as int) > 0
        implies names(cuts, u, v) by {
        let jj = choose|jj: int| 0 <= jj < g[u as int].len() && #[trigger] g[u as int][jj].0 == v;
        assert(side[(g[u as int][jj]).0 as int]  == side[v as int]);
    }
}

/// The lists of a maximum flow computation, exactly: the flow list takes the
/// edges of the graph in order, node by node, keeps those whose ends carry
/// flow in `f`, and gives each with that flow; the cut list keeps those that
/// leave the side of the source with a positive capacity, and gives each with
/// that capacity.
pub proof fn lemma_flow_and_cut_lists_exact<C: Weight>(
    g: Seq<Seq<(usize, C)>>,
    s: usize,
    t: usize,
    f: Seq<Seq<int>>,
    side: Seq<bool>,
    flows: Seq<((usize, usize), int)>,
    value: int,
    cuts: Seq<((usize, usize), int)>,
)
    requires
        g.len() <= usize::MAX,
        max_flow_cut(g, s, t, f, side, flows, value, cuts),
    ensures
        flows == edge_pairs(g).filter(carries(f)).map_values(with_flow(f)),
        cuts == edge_pairs(g).filter(crosses(g, side)).map_values(with_cap(g)),
{
    let n = g.len() as int;
    lemma_entries_exact(g, f, side, n);
    assert(Seq::new(n as nat, |u: int| row_pairs(g, u, g[u].len() as int)) =~= Seq::new(g.len(), |u: int| row_pairs(g, u, g[u].len() as int)));
}

/// No flow enters `s` or leaves `t`, and the value is what leaves `s`.
pub open spec fn one_way(f: Seq<Seq<int>>, n: int, s: usize, t: usize) -> bool {
    &&& (forall|u: int| 0 <= u < n ==> #[trigger] f[u][s as int] == 0) && (forall|u: int| 0 <= u < n ==> #[trigger] f[t as int][u] == 0)
    &&& net_out(f, n, s as int) == sum(n, row_of(f, s as int))
}

/// A flow into `s` or out of `t` stays absent where no entry grows.
proof fn lemma_still_one_way(f0: Seq<Seq<int>>, f1: Seq<Seq<int>>, n: int, s: usize, t: usize)
    requires
        (forall|u: int| 0 <= u < n ==> #[trigger] f0[u][s as int] == 0) && (forall|u: int| 0 <= u < n ==> #[trigger] f0[t as int][u] == 0),
        forall|u: int| 0 <= u < n ==> #[trigger] f1[u][s as int] <= f0[u][s as int],
        forall|u: int| 0 <= u < n ==> #[trigger] f1[t as int][u] <= f0[t as int][u],
        forall|u: int| 0 <= u < n ==> 0 <= #[trigger] f1[u][s as int],
        forall|u: int| 0 <= u < n ==> 0 <= #[trigger] f1[t as int][u],
    ensures
        (forall|u: int| 0 <= u < n ==> #[trigger] f1[u][s as int] == 0) && (forall|u: int| 0 <= u < n ==> #[trigger] f1[t as int][u] == 0),
{
    assert forall|u: int| 0 <= u < n implies #[trigger] f1[u][s as int] == 0 by {
        assert(f0[u][s as int] == 0);
    }
    assert forall|u: int| 0 <= u < n implies #[trigger] f1[t as int][u] == 0 by {
        assert(f0[t as int][u] == 0);
    }
}

/// Where no flow enters `s` or leaves `t`, the flow is one way.
proof fn lemma_one_way(f: Seq<Seq<int>>, n: int, s: usize, t: usize)
    requires
        (forall|u: int| 0 <= u < n ==> #[trigger] f[u][s as int] == 0) && (forall|u: int| 0 <= u < n ==> #[trigger] f[t as int][u] == 0),
    ensures
        one_way(f, n, s, t),
{
    assert forall|w: int| 0 <= w < n implies #[trigger] col_of(f, s as int)(w) == 0 by {
        assert(f[w][s as int] == 0);
    }
    lemma_sum_zero(n, col_of(f, s as int));
}

/// Compute the maximum flow from `source` to `sink` and a minimum cut, by the
/// Edmonds–Karp algorithm: augmenting paths found breadth first in the
/// residual graph.
///
/// The first part lists the edges that carry flow, each with the flow of its
/// pair of nodes; the second is the value of the flow; the third lists the
/// edges of the cut, each with the capacity of its pair of nodes.
#[verifier::spinoff_prover]
pub fn edmonds_karp<C: Weight>(successors: &[Vec<(usize, C)>], source: usize, sink: usize)
    -> (r: (Vec<((usize, usize), C)>, C, Vec<((usize, usize), C)>))
    requires
        source < successors@.len(),
        sink < successors@.len(),
        source != sink ==> wf(adj(successors@)) && caps_fit(adj(successors@)) && flows_fit(adj(successors@), source, sink),
    ensures
        source == sink ==> r.0@.len() == 0 && r.1.val() == 0 && r.2@.len() == 0,
        source != sink ==> exists|f: Seq<Seq<int>>, side: Seq<bool>|
            #[trigger] max_flow_cut(adj(successors@), source, sink, f, side, entry_values(r.0@), r.1.val(), entry_values(r.2@))
            && one_way(f, successors@.len() as int, source, sink)
            && lists_match(adj(successors@), f, side, entry_values(r.0@), entry_values(r.2@)),
{
    let ghost g = adj(successors@);
    let n = successors.len();
    if n == 0 || source == sink {
        let r: (Vec<((usize, usize), C)>, C, Vec<((usize, usize), C)>) = (Vec::new(), C::zero(), Vec::new());
        return r;
    }
    let predecessors = predecessor_lists(successors);
    let capm = capacities(successors);
    let mut flow = zero_table::<C>(n);
    let mut total = C::zero();
    proof {
        let f = values(flow@);
        assert forall|u: int| 0 <= u < n implies (#[trigger] f[u]).len() == n by {}
        assert forall|u: int, v: int| 0 <= u < n && 0 <= v < n implies 0 <= #[trigger] f[u][v] <= usable(cap(g, u, v)) by {
            assert(flow@[u]@[v].val() == 0);
        }
        assert forall|u: int| 0 <= u < n implies #[trigger] f[u][source as int] == 0 && f[sink as int][u] == 0 by {
            assert(flow@[u]@[source as int].val() == 0);
            assert(flow@[sink as int]@[u].val() == 0);
        }
        assert forall|v: int| 0 <= v < n implies #[trigger] net_out(f, n as int, v) == 0 by {
            assert forall|w: int| 0 <= w < n implies #[trigger] row_of(f, v)(w) == 0 by {
                assert(flow@[v]@[w].val() == 0);
            }
            assert forall|w: int| 0 <= w < n implies #[trigger] col_of(f, v)(w) == 0 by {
                assert(flow@[w]@[v].val() == 0);
            }
            lemma_sum_zero(n as int, row_of(f, v));
            lemma_sum_zero(n as int, col_of(f, v));
        }
    }
    let mut stop = false;
    let ghost mut tree: Seq<usize> = Seq::empty();
    while !stop
        invariant
            g == adj(successors@),
            wf(g),
            wf(adj(predecessors@)),
            reverses(g, adj(predecessors@)),
            caps_fit(g),
            flows_fit(g, source, sink),
            n == g.len(),
            n > 0,
            source < n,
            sink < n,
            source != sink,
            flow_state(g, source, sink, capm@, flow@),
            total.val() == net_out(values(flow@), n as int, source as int),
            (forall|u: int| 0 <= u < n ==> #[trigger] values(flow@)[u][source as int] == 0) && (forall|u: int| 0 <= u < n ==> #[trigger] values(flow@)[sink as int][u] == 0),
            stop ==> tree.len() == n && tree[source as int] != usize::MAX && tree[sink as int] == usize::MAX
                && closed_tree(g, values(flow@), tree),
        decreases C::hi() - total.val(), if stop { 0int } else { 1int },
    {
        proof { C::lemma_range(total); }
        let (parent, dir, pc, Ghost(time), Ghost(order)) = find_path(successors, predecessors.as_slice(), &capm, &flow, source, sink);
        if parent[sink] == usize::MAX {
            stop = true;
            proof {
                tree = parent@;
                assert(parent@[source as int] == source);
            }
        } else {
            let a = pc[sink];
            let ghost f0 = values(flow@);
            proof {
                assert(tree_step(g, f0, parent@, dir@, pc@, time, sink as int));
            }
            push_flow(&mut flow, &parent, &dir, a, source, sink, Ghost(g), Ghost(pc@), Ghost(time), Ghost(order));
            proof {
                let f1 = values(flow@);
                assert forall|u: int| 0 <= u < n implies (#[trigger] f1[u]).len() == n by {}
                assert forall|v: int| 0 <= v < n && v != source && v != sink implies #[trigger] net_out(f1, n as int, v) == 0 by {
                    assert(net_out(f0, n as int, v) == 0);
                }
                assert(feasible(g, source, sink, f1));
                assert forall|u: int| 0 <= u < n implies 0 <= #[trigger] f1[u][source as int] by {}
                assert forall|u: int| 0 <= u < n implies 0 <= #[trigger] f1[sink as int][u] by {}
                lemma_still_one_way(f0, f1, n as int, source, sink);
                assert(net_out(f1, n as int, source as int) <= C::hi());
                C::lemma_range(a);
            }
            total = total.plus(a);
        }
    }
    let side = cut_side(successors, predecessors.as_slice(), &capm, &flow, source, sink, Ghost(tree));
    let ghost f = values(flow@);
    proof {
        assert forall|u: int, v: int| 0 <= u < n && 0 <= v < n && side@[u] && !side@[v]
            implies #[trigger] f[u][v] == usable(cap(g, u, v)) && f[v][u] == 0 by {
            assert(!residual(g, f, u as usize, v as usize));
            if !edge(g, u as usize, v as usize) {
                assert forall|j: int| 0 <= j < g[u].len() implies #[trigger] g[u][j].0 != v as usize by {}
                lemma_no_edge_cap(g[u], v as usize, g[u].len() as int);
            }
            if !edge(g, v as usize, u as usize) {
                assert forall|j: int| 0 <= j < g[v].len() implies #[trigger] g[v][j].0 != u as usize by {}
                lemma_no_edge_cap(g[v], u as usize, g[v].len() as int);
            }
            assert(0 <= f[u][v] <= usable(cap(g, u, v)));
            assert(0 <= f[v][u] <= usable(cap(g, v, u)));
        }
        lemma_value_across(f, n as int, source, sink, side@);
        lemma_across_eq_cut(g, f, side@);
        assert forall|f2: Seq<Seq<int>>| #[trigger] feasible(g, source, sink, f2) implies net_out(f2, n as int, source as int) <= total.val() by {
            lemma_value_across(f2, n as int, source, sink, side@);
            lemma_across_le_cut(g, source, sink, f2, side@);
        }
    }
    let flows = flow_list(successors, &flow);
    let cuts = cut_list(successors, &capm, &side);
    proof {
        assert(max_flow_cut(g, source, sink, f, side@, entry_values(flows@), total.val(), entry_values(cuts@)));
    }
    let r = (flows, total, cuts);
    proof {
        assert(max_flow_cut(adj(successors@), source, sink, f, side@, entry_values(r.0@), r.1.val(), entry_values(r.2@)));
        lemma_one_way(f, n as int, source, sink);
        lemma_flow_and_cut_lists(g, source, sink, f, side@, entry_values(r.0@), r.1.val(), entry_values(r.2@));
    }
    r
}

/// The edges that carry flow, each with the flow of its pair.
fn flow_list<C: Weight>(successors: &[Vec<(usize, C)>], flow: &Vec<Vec<C>>) -> (r: Vec<((usize, usize), C)>)
    requires
        wf(adj(successors@)),
        square(flow@, successors@.len() as int),
    ensures
        entry_values(r@) == flow_entries(adj(successors@), values(flow@), successors@.len() as int),
{
    let ghost g = adj(successors@);
    let ghost f = values(flow@);
    let n = successors.len();
    let mut out: Vec<((usize, usize), C)> = Vec::new();
    let mut from: usize = 0;
    while from < n
        invariant
            g == adj(successors@),
            f == values(flow@),
            wf(g),
            square(flow@, n as int),
            n == g.len(),
            from <= n,
            entry_values(out@) == flow_entries(g, f, from as int),
        decreases n - from,
    {
        let edges = &successors[from];
        proof { assert(edges@ == g[from as int]); }
        let mut k: usize = 0;
        while k < edges.len()
            invariant
                g == adj(successors@),
                f == values(flow@),
                wf(g),
                square(flow@, n as int),
                n == g.len(),
                from < n,
                edges@ == g[from as int],
                k <= edges@.len(),
                entry_values(out@) == flow_entries(g, f, from as int) + row_flows(g, f, from as int, k as int),
            decreases edges@.len() - k,
        {
            let to = edges[k].0;
            proof {
                assert(g[from as int][k as int].0 == to);
                assert(to < n);
            }
            let value = flow[from][to];
            proof { assert(value.val() == f[from as int][to as int]); }
            let ghost o0 = out@;
            if C::zero().lt(&value) {
                out.push(((from, to), value));
                proof {
                    assert(entry_values(out@) =~= entry_values(o0).push(((from, to), value.val())));
                }
            }
            k = k + 1;
            proof {
                assert(flow_entries(g, f, from as int) + row_flows(g, f, from as int, k as int)
                    =~= entry_values(out@));
            }
        }
        from = from + 1;
        proof {
            assert(flow_entries(g, f, from as int) =~= flow_entries(g, f, from - 1) + row_flows(g, f, from - 1, g[from - 1].len() as int));
        }
    }
    out
}

/// The edges that leave the side with some capacity, each with the capacity of its pair.
fn cut_list<C: Weight>(successors: &[Vec<(usize, C)>], capm: &Vec<Vec<C>>, side: &Vec<bool>) -> (r: Vec<((usize, usize), C)>)
    requires
        wf(adj(successors@)),
        square(capm@, successors@.len() as int),
        forall|u: int, v: int| 0 <= u < successors@.len() && 0 <= v < successors@.len()
            ==> (#[trigger] capm@[u]@[v]).val() == cap(adj(successors@), u, v),
        side@.len() == successors@.len(),
    ensures
        entry_values(r@) == cut_entries(adj(successors@), side@, successors@.len() as int),
{
    let ghost g = adj(successors@);
    let n = successors.len();
    let mut out: Vec<((usize, usize), C)> = Vec::new();
    let mut from: usize = 0;
    while from < n
        invariant
            g == adj(successors@),
            wf(g),
            square(capm@, n as int),
            forall|u: int, v: int| 0 <= u < n && 0 <= v < n ==> (#[trigger] capm@[u]@[v]).val() == cap(g, u, v),
            side@.len() == n,
            n == g.len(),
            from <= n,
            entry_values(out@) == cut_entries(g, side@, from as int),
        decreases n - from,
    {
        let edges = &successors[from];
        proof { assert(edges@ == g[from as int]); }
        let mut k: usize = 0;
        while k < edges.len()
            invariant
                g == adj(successors@),
                wf(g),
                square(capm@, n as int),
                forall|u: int, v: int| 0 <= u < n && 0 <= v < n ==> (#[trigger] capm@[u]@[v]).val() == cap(g, u, v),
                side@.len() == n,
                n == g.len(),
                from < n,
                edges@ == g[from as int],
                k <= edges@.len(),
                entry_values(out@) == cut_entries(g, side@, from as int) + row_cuts(g, side@, from as int, k as int),
            decreases edges@.len() - k,
        {
            let to = edges[k].0;
            proof {
                assert(g[from as int][k as int].0 == to);
                assert(to < n);
            }
            let c = capm[from][to];
            proof { assert(c.val() == cap(g, from as int, to as int)); }
            let ghost o0 = out@;
            if side[from] && !side[to] && C::zero().lt(&c) {
                out.push(((from, to), c));
                proof {
                    assert(entry_values(out@) =~= entry_values(o0).push(((from, to), c.val())));
                }
            }
            k = k + 1;
            proof {
                assert(cut_entries(g, side@, from as int) + row_cuts(g, side@, from as int, k as int)
                    =~= entry_values(out@));
            }
        }
        from = from + 1;
        proof {
            assert(cut_entries(g, side@, from as int) =~= cut_entries(g, side@, from - 1) + row_cuts(g, side@, from - 1, g[from - 1].len() as int));
        }
    }
    out
}

} // verus!
