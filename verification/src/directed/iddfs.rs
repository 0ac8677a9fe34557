//! Shortest paths by iterative deepening depth-first search.

use vstd::prelude::*;
use crate::spec::{
    FnGoal, Goal, adj, distinct, edge, goal_path, is_path, is_predicate, no_goal_path, pred_of,
    shortest_goal_path, follows, wf,
};
use crate::directed::bfs::lemma_seq_distinct_len;

verus! {

/// `q` is a path without repeats that begins with `path`.
pub open spec fn extends<C>(g: Seq<Seq<(usize, C)>>, path: Seq<usize>, q: Seq<usize>) -> bool {
    &&& is_path(g, q)
    &&& distinct(q)
    &&& path.len() <= q.len()
    &&& q.subrange(0, path.len() as int) == path
}

/// What one round of the deepening search found below a path.
pub enum Path {
    /// A goal was found.
    FoundOptimum,
    /// No goal below the path, and no path below it reaches the depth limit.
    Impossible,
    /// No goal within the depth limit, but some path reaches the limit.
    NoneAtThisDepth,
}

/// No path of at most `bound` nodes that extends `path` ends at a goal.
pub open spec fn no_goal_within<C>(g: Seq<Seq<(usize, C)>>, path: Seq<usize>, pred: spec_fn(usize) -> bool, bound: int) -> bool {
    forall|q: Seq<usize>| #[trigger] extends(g, path, q) && q.len() <= bound ==> !pred(q[q.len() - 1])
}

/// Every path that extends `path` has at most `bound` nodes.
pub open spec fn all_within<C>(g: Seq<Seq<(usize, C)>>, path: Seq<usize>, bound: int) -> bool {
    forall|q: Seq<usize>| #[trigger] extends(g, path, q) ==> q.len() <= bound
}

/// Some path of `len` nodes extends `path`.
pub open spec fn some_of_len<C>(g: Seq<Seq<(usize, C)>>, path: Seq<usize>, len: int) -> bool {
    exists|q: Seq<usize>| #[trigger] extends(g, path, q) && q.len() == len
}

/// The paths that extend a path with one more node are those that extend the
/// path and take that node next.
proof fn lemma_extends_child<C>(g: Seq<Seq<(usize, C)>>, path: Seq<usize>, n: usize, q: Seq<usize>)
    requires
        path.len() >= 1,
    ensures
        extends(g, path.push(n), q) <==> (extends(g, path, q) && q.len() > path.len() && q[path.len() as int] == n),
{
    let l = path.len() as int;
    if extends(g, path.push(n), q) {
        assert forall|i: int| 0 <= i < l implies q.subrange(0, l)[i] == path[i] by {
            assert(q.subrange(0, l + 1)[i] == path.push(n)[i]);
        }
        assert(q.subrange(0, l) =~= path);
        assert(q.subrange(0, l + 1)[l] == n);
    }
    if extends(g, path, q) && q.len() > path.len() && q[path.len() as int] == n {
        assert(q.subrange(0, path.len() as int + 1) =~= path.push(n)) by {
            assert forall|i: int| 0 <= i < path.len() implies q.subrange(0, path.len() as int + 1)[i] == path.push(n)[i] by {
                assert(q.subrange(0, path.len() as int)[i] == path[i]);
            }
        }
    }
}

/// Search below `path` for a goal at most `depth - 1` edges further, never
/// visiting a node twice.
fn step<C, G: Goal>(path: &mut Vec<usize>, successors: &[Vec<(usize, C)>], goal: &G, depth: usize) -> (r: Path)
    requires
        wf(adj(successors@)),
        goal.ready(),
        is_path(adj(successors@), old(path)@),
        distinct(old(path)@),
    ensures
        match r {
            Path::FoundOptimum => {
                &&& extends(adj(successors@), old(path)@, final(path)@)
                &&& (goal.pred())(final(path)@[final(path)@.len() - 1])
                &&& final(path)@.len() <= old(path)@.len() + depth - 1
            },
            Path::Impossible => {
                &&& final(path)@ == old(path)@
                &&& no_goal_within(adj(successors@), old(path)@, goal.pred(), old(path)@.len() + depth - 1)
                &&& all_within(adj(successors@), old(path)@, old(path)@.len() + depth - 1)
            },
            Path::NoneAtThisDepth => {
                &&& final(path)@ == old(path)@
                &&& no_goal_within(adj(successors@), old(path)@, goal.pred(), old(path)@.len() + depth - 1)
                &&& some_of_len(adj(successors@), old(path)@, old(path)@.len() + depth)
            },
        },
    decreases depth,
{
    let ghost g = adj(successors@);
    let ghost p0 = path@;
    let ghost pred = goal.pred();
    let ghost len = p0.len() as int;
    if depth == 0 {
        proof {
            assert(p0.subrange(0, len) =~= p0);
            assert(extends(g, p0, p0));
            assert forall|q: Seq<usize>| #[trigger] extends(g, p0, q) && q.len() <= len - 1 implies !pred(q[q.len() - 1]) by {}
        }
        return Path::NoneAtThisDepth;
    }
    let last = path[path.len() - 1];
    if goal.test(last) {
        proof {
            assert(p0.subrange(0, len) =~= p0);
        }
        return Path::FoundOptimum;
    }
    proof {
        assert(last < g.len());
        assert(successors@[last as int]@ == g[last as int]);
    }
    let edges = &successors[last];
    let mut best = Path::Impossible;
    let mut t: usize = 0;
    while t < edges.len()
        invariant
            g == adj(successors@),
            wf(g),
            goal.ready(),
            pred == goal.pred(),
            path@ == p0,
            old(path)@ == p0,
            len == p0.len(),
            len >= 1,
            is_path(g, p0),
            distinct(p0),
            last == p0[len - 1],
            last < g.len(),
            edges@ == g[last as int],
            depth >= 1,
            !pred(last),
            t <= edges.len(),
            forall|q: Seq<usize>| #[trigger] extends(g, p0, q) && q.len() > len && (exists|u: int| 0 <= u < t && #[trigger] g[last as int][u].0 == q[len])
                ==> (q.len() <= len + depth - 1 ==> !pred(q[q.len() - 1])) && (best is Impossible ==> q.len() <= len + depth - 1),
            best is NoneAtThisDepth ==> some_of_len(g, p0, len + depth),
            !(best is FoundOptimum),
        decreases edges.len() - t,
    {
        let n = edges[t].0;
        proof { assert(g[last as int][t as int].0 == n); }
        let mut inside = false;
        let mut k: usize = 0;
        while k < path.len()
            invariant
                path@ == p0,
                k <= p0.len(),
                inside == (exists|j: int| 0 <= j < k && p0[j] == n),
            decreases p0.len() - k,
        {
            if path[k] == n {
                inside = true;
            }
            k = k + 1;
        }
        if inside {
            proof {
                assert forall|q: Seq<usize>| #[trigger] extends(g, p0, q) && q.len() > len && (exists|u: int| 0 <= u < t + 1 && #[trigger] g[last as int][u].0 == q[len])
                    implies (q.len() <= len + depth - 1 ==> !pred(q[q.len() - 1])) && (best is Impossible ==> q.len() <= len + depth - 1) by {
                    let u = choose|u: int| 0 <= u < t + 1 && #[trigger] g[last as int][u].0 == q[len];
                    if u == t {
                        let j = choose|j: int| 0 <= j < len && p0[j] == n;
                        assert(q.subrange(0, len)[j] == p0[j]);
                        assert(q[j] == q[len]);
                    }
                }
            }
        } else {
            proof {
                assert(edge(g, last, n));
                crate::spec::lemma_path_push(g, p0, n);
                assert forall|a: int, b: int| 0 <= a < b < p0.push(n).len() implies p0.push(n)[a] != p0.push(n)[b] by {
                    if b == len {
                        assert(p0[a] != n);
                    }
                }
            }
            path.push(n);
            let ghost pn = path@;
            proof { assert(pn == p0.push(n)); }
            let sub = step(path, successors, goal, depth - 1);
            match sub {
                Path::FoundOptimum => {
                    proof {
                        let q = path@;
                        assert(extends(g, pn, q));
                        lemma_extends_child(g, p0, n, q);
                        assert(extends(g, p0, q));
                        assert(pred(q[q.len() - 1]));
                        assert(q.len() <= len + depth - 1);
                    }
                    return Path::FoundOptimum;
                },
                _ => {
                    path.pop();
                    proof {
                        assert(path@ =~= p0);
                        if sub is NoneAtThisDepth {
                            let q = choose|q: Seq<usize>| #[trigger] extends(g, p0.push(n), q) && q.len() == len + 1 + depth - 1;
                            lemma_extends_child(g, p0, n, q);
                        }
                        assert forall|q: Seq<usize>| #[trigger] extends(g, p0, q) && q.len() > len && (exists|u: int| 0 <= u < t + 1 && #[trigger] g[last as int][u].0 == q[len])
                            implies (q.len() <= len + depth - 1 ==> !pred(q[q.len() - 1]))
                                && ((if sub is NoneAtThisDepth { false } else { best is Impossible }) ==> q.len() <= len + depth - 1) by {
                            let u = choose|u: int| 0 <= u < t + 1 && #[trigger] g[last as int][u].0 == q[len];
                            if q[len] == n {
                                lemma_extends_child(g, p0, n, q);
                            } else {
                                assert(u < t);
                            }
                        }
                    }
                    if let Path::NoneAtThisDepth = sub {
                        best = Path::NoneAtThisDepth;
                    }
                },
            }
        }
        t = t + 1;
    }
    proof {
        assert forall|q: Seq<usize>| #[trigger] extends(g, p0, q) && q.len() <= len + depth - 1 implies !pred(q[q.len() - 1]) by {
            if q.len() > len {
                assert(follows(g, q, len - 1));
                assert(q.subrange(0, len)[len - 1] == p0[len - 1]);
                assert(edge(g, q[len - 1], q[len]));
                let u = choose|u: int| 0 <= u < g[last as int].len() && #[trigger] g[last as int][u].0 == q[len];
            } else {
                assert(q =~= q.subrange(0, len));
            }
        }
        if best is Impossible {
            assert forall|q: Seq<usize>| #[trigger] extends(g, p0, q) implies q.len() <= len + depth - 1 by {
                if q.len() > len {
                    assert(follows(g, q, len - 1));
                    assert(q.subrange(0, len)[len - 1] == p0[len - 1]);
                    assert(edge(g, q[len - 1], q[len]));
                    let u = choose|u: int| 0 <= u < g[last as int].len() && #[trigger] g[last as int][u].0 == q[len];
                }
            }
        }
    }
    best
}

/// A path can be shortened to one without repeats between the same two ends.
pub proof fn lemma_shortcut<C>(g: Seq<Seq<(usize, C)>>, q: Seq<usize>) -> (r: Seq<usize>)
    requires
        is_path(g, q),
    ensures
        is_path(g, r),
        distinct(r),
        r.len() <= q.len(),
        r[0] == q[0],
        r[r.len() - 1] == q[q.len() - 1],
    decreases q.len(),
{
    if distinct(q) {
        q
    } else {
        let (i, j) = choose|i: int, j: int| 0 <= i < j < q.len() && q[i] == q[j];
        let q2 = q.subrange(0, i) + q.subrange(j, q.len() as int);
        assert forall|k: int| 0 <= k < q2.len() - 1 implies #[trigger] follows(g, q2, k) by {
            if k < i - 1 {
                assert(follows(g, q, k));
            } else if k == i - 1 {
                assert(follows(g, q, k));
                assert(q2[k + 1] == q[j]);
            } else {
                let k2 = k - i + j;
                assert(follows(g, q, k2));
                assert(q2[k] == q[k2] && q2[k + 1] == q[k2 + 1]);
            }
        }
        assert forall|k: int| 0 <= k < q2.len() implies #[trigger] q2[k] < g.len() by {
            if k < i {
                assert(q2[k] == q[k]);
            } else {
                assert(q2[k] == q[k - i + j]);
            }
        }
        assert(q2[0] == q[0]) by {
            if i == 0 {
                assert(q2[0] == q[j]);
            }
        }
        assert(q2[q2.len() - 1] == q[q.len() - 1]);
        lemma_shortcut(g, q2)
    }
}

/// Compute a shortest path from `start` to a node for which `success` returns
/// `true`, with iterative deepening depth-first search over `successors`.
///
/// The path holds both the start and the end node, and no node twice.
pub fn iddfs<C, FS: Fn(usize) -> bool>(start: usize, successors: &[Vec<(usize, C)>], success: FS) -> (r: Option<Vec<usize>>)
    requires
        wf(adj(successors@)),
        start < successors@.len(),
        is_predicate(success),
    ensures
        match r {
            Some(p) => shortest_goal_path(adj(successors@), p@, start, pred_of(success), 1) && distinct(p@),
            None => no_goal_path(adj(successors@), start, pred_of(success), 1),
        },
{
    let ghost g = adj(successors@);
    let goal = FnGoal { f: success };
    let mut path: Vec<usize> = Vec::new();
    path.push(start);
    let ghost p0 = path@;
    proof {
        assert(is_path(g, p0));
        assert(p0 =~= seq![start]);
    }
    let mut current_max_depth: usize = 1;
    loop
        invariant
            g == adj(successors@),
            wf(g),
            goal.ready(),
            goal.f == success,
            path@ == p0,
            p0 == seq![start],
            is_path(g, p0),
            start < g.len(),
            current_max_depth >= 1,
            current_max_depth <= g.len(),
            no_goal_within(g, p0, goal.pred(), current_max_depth as int - 1),
        decreases g.len() - current_max_depth,
    {
        match step(&mut path, successors, &goal, current_max_depth) {
            Path::FoundOptimum => {
                proof {
                    let p = path@;
                    assert(p.subrange(0, 1) == p0);
                    assert(p.subrange(0, 1)[0] == p[0]);
                    assert(p[0] == start);
                    assert forall|q: Seq<usize>| #[trigger] goal_path(g, q, start, goal.pred()) && q.len() >= 1
                        implies q.len() >= p.len() by {
                        let r = lemma_shortcut(g, q);
                        assert(r.subrange(0, 1) =~= p0);
                        assert(extends(g, p0, r));
                        if r.len() <= current_max_depth - 1 {
                            assert(!(goal.pred())(r[r.len() - 1]));
                        }
                    }
                }
                return Some(path);
            },
            Path::NoneAtThisDepth => {
                proof {
                    let q = choose|q: Seq<usize>| #[trigger] extends(g, p0, q) && q.len() == 1 + current_max_depth;
                    lemma_seq_distinct_len(q, g.len());
                    assert(g.len() == successors@.len());
                    assert(successors@.len() == successors.len());
                }
                current_max_depth = current_max_depth + 1;
            },
            Path::Impossible => {
                proof {
                    assert forall|q: Seq<usize>| #[trigger] goal_path(g, q, start, goal.pred()) implies q.len() < 1 by {
                        let r = lemma_shortcut(g, q);
                        assert(r.subrange(0, 1) =~= p0);
                        assert(extends(g, p0, r));
                    }
                }
                return None;
            },
        }
    }
}

} // verus!
