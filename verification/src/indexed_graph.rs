//! Graphs whose nodes are the indices `0..n`, stored as weighted adjacency lists.

use vstd::prelude::*;
use crate::weight::Weight;
use crate::spec::{
    adj, distinct, edge, goal_path, is_node, is_path, is_path_from_to, is_predicate, lemma_reach_self, no_goal_path, pred_of,
    reachable, shortest_goal_path, wf,
};
use crate::directed::bfs::{bfs_order, reverses};
use crate::directed::dfs::dfs_run;
use crate::directed::count_paths::{acyclic_from, count};
use crate::directed::dijkstra::{as_items, reach_list, cheapest_goal_path, entry_cost, in_table, no_goal_wpath, table_ok, wreach};
use crate::directed::topological_sort::{edges_forward, on_cycle, reached_from};
use crate::directed::edmonds_karp::{caps_fit, entry_values, flows_fit, max_flow_cut};
use crate::directed::bmssp::shortest_table;
use crate::directed::idastar::{admissible, est_of, estimates_fit, goal_walk, is_estimate};
use crate::directed::strongly_connected_components::{increasing, nested, scc_list, strongly_connected};
use crate::undirected::connected_components::component_list;
use crate::undirected::cliques::clique_list;
use crate::undirected::kruskal::{connected, ends_below, is_forest, light, sub_list};
use crate::undirected::prim::{greedy_step, in_tree, listed_either};

verus! {

/// A directed graph stored as dense `usize` indices with weighted adjacency lists.
#[derive(Clone, Debug)]
pub struct IndexedGraph<C> {
    adjacency: Vec<Vec<(usize, C)>>,
}

impl<C> View for IndexedGraph<C> {
    type V = Seq<Seq<(usize, C)>>;

    /// The adjacency lists: entry `u` lists the edges that leave `u`.
    closed spec fn view(&self) -> Seq<Seq<(usize, C)>> {
        adj(self.adjacency@)
    }
}

impl<C> IndexedGraph<C> {
    /// Build a directed indexed graph from an adjacency list.
    pub fn from_adjacency(adjacency: Vec<Vec<(usize, C)>>) -> (r: Self)
        ensures
            r@ == adj(adjacency@),
    {
        IndexedGraph { adjacency }
    }

    /// Return the number of nodes in the graph.
    pub fn node_count(&self) -> (r: usize)
        ensures
            r == self@.len(),
    {
        self.adjacency.len()
    }

    /// Return the number of nodes in the graph.
    pub fn len(&self) -> (r: usize)
        ensures
            r == self@.len(),
    {
        self.adjacency.len()
    }

    /// Return true if the graph contains no nodes.
    pub fn is_empty(&self) -> (r: bool)
        ensures
            r == (self@.len() == 0),
    {
        self.adjacency.len() == 0
    }

    /// Return the adjacency list for `node`.
    pub fn successors(&self, node: usize) -> (r: &[(usize, C)])
        requires
            node < self@.len(),
        ensures
            r@ == self@[node as int],
    {
        self.adjacency[node].as_slice()
    }

    /// Return all adjacency lists.
    pub fn adjacency(&self) -> (r: &[Vec<(usize, C)>])
        ensures
            adj(r@) == self@,
    {
        self.adjacency.as_slice()
    }

    /// Run BFS from `start` to a node satisfying `success`.
    pub fn bfs<FS: Fn(usize) -> bool>(&self, start: usize, success: FS) -> (r: Option<Vec<usize>>)
        requires
            wf(self@),
            start < self@.len(),
            is_predicate(success),
        ensures
            match r {
                Some(p) => shortest_goal_path(self@, p@, start, pred_of(success), 1) && distinct(p@),
                None => no_goal_path(self@, start, pred_of(success), 1),
            },
    {
        crate::directed::bfs::bfs(start, self.adjacency.as_slice(), success)
    }

    /// Run BFS and return the shortest loop starting and ending at `start`.
    pub fn bfs_loop(&self, start: usize) -> (r: Option<Vec<usize>>)
        requires
            wf(self@),
            start < self@.len(),
        ensures
            match r {
                Some(p) => shortest_goal_path(self@, p@, start, is_node(start), 2) && distinct(p@.drop_last()),
                None => no_goal_path(self@, start, is_node(start), 2),
            },
    {
        crate::directed::bfs::bfs_loop(start, self.adjacency.as_slice())
    }

    /// Run bidirectional BFS from `start` to `end`.
    pub fn bfs_bidirectional(&self, start: usize, end: usize) -> (r: Option<Vec<usize>>)
        requires
            wf(self@),
            start < self@.len(),
            end < self@.len(),
        ensures
            match r {
                Some(p) => {
                    &&& is_path_from_to(self@, p@, start, end)
                    &&& distinct(p@)
                    &&& forall|q: Seq<usize>| #[trigger] is_path_from_to(self@, q, start, end) ==> q.len() >= p@.len()
                },
                None => !reachable(self@, start, end),
            },
    {
        let predecessors = crate::directed::bfs::predecessor_lists(self.adjacency.as_slice());
        crate::directed::bfs::bfs_bidirectional(start, end, self.adjacency.as_slice(), predecessors.as_slice())
    }

    /// List the nodes reachable from `start` in BFS order.
    pub fn bfs_reach(&self, start: usize) -> (r: Vec<usize>)
        requires
            wf(self@),
            start < self@.len(),
        ensures
            r@ == bfs_order(self@, start),
            distinct(r@),
            forall|v: usize| reachable(self@, start, v) <==> r@.contains(v),
    {
        let ghost g = self@;
        let mut it = crate::directed::bfs::bfs_reach(start, self.adjacency.as_slice());
        let mut out: Vec<usize> = Vec::new();
        let mut over = false;
        while !over
            invariant
                it.inv(),
                it.graph() == g,
                it.origin() == start,
                out@ == it.visited(),
                distinct(out@),
                forall|k: int| 0 <= k < out@.len() ==> reachable(g, start, #[trigger] out@[k]),
                over ==> out@ == bfs_order(g, start),
                over ==> forall|v: usize| reachable(g, start, v) <==> out@.contains(v),
            decreases g.len() - out@.len(), if over { 0int } else { 1int },
        {
            proof { lemma_reached_len(g, start, out@); }
            match it.next() {
                Some(n) => {
                    let ghost o0 = out@;
                    out.push(n);
                    proof {
                        assert forall|a: int, b: int| 0 <= a < b < out@.len() implies out@[a] != out@[b] by {
                            if b == o0.len() {
                                assert(o0.contains(o0[a]));
                            }
                        }
                        assert forall|k: int| 0 <= k < out@.len() implies reachable(g, start, #[trigger] out@[k]) by {
                            if k < o0.len() {
                                assert(out@[k] == o0[k]);
                            }
                        }
                        lemma_reached_len(g, start, out@);
                    }
                },
                None => {
                    over = true;
                },
            }
        }
        out
    }

    /// Run DFS from `start` to a node satisfying `success`.
    pub fn dfs<FS: Fn(usize) -> bool>(&self, start: usize, success: FS) -> (r: Option<Vec<usize>>)
        requires
            wf(self@),
            start < self@.len(),
            is_predicate(success),
        ensures
            match r {
                Some(p) => {
                    &&& goal_path(self@, p@, start, pred_of(success))
                    &&& distinct(p@)
                    &&& crate::directed::dfs::first_found(self@, start, pred_of(success), p@[p@.len() - 1])
                },
                None => no_goal_path(self@, start, pred_of(success), 1),
            },
    {
        crate::directed::dfs::dfs(start, self.adjacency.as_slice(), success)
    }

    /// List the nodes reachable from `start` in DFS order.
    pub fn dfs_reach(&self, start: usize) -> (r: Vec<usize>)
        requires
            wf(self@),
            start < self@.len(),
        ensures
            exists|k: nat| dfs_run(self@, start, k) == (Seq::<usize>::empty(), r@),
            distinct(r@),
            forall|v: usize| reachable(self@, start, v) <==> r@.contains(v),
    {
        let ghost g = self@;
        let mut it = crate::directed::dfs::dfs_reach(start, self.adjacency.as_slice());
        let mut out: Vec<usize> = Vec::new();
        let mut over = false;
        let ghost mut moves: nat = 0;
        while !over
            invariant
                it.inv(),
                it.graph() == g,
                it.origin() == start,
                out@ == it.visited(),
                (it.pending(), it.visited()) == dfs_run(g, start, moves),
                over ==> it.pending() == Seq::<usize>::empty(),
                distinct(out@),
                forall|k: int| 0 <= k < out@.len() ==> reachable(g, start, #[trigger] out@[k]),
                over ==> forall|v: usize| reachable(g, start, v) <==> out@.contains(v),
            decreases g.len() - out@.len(), if over { 0int } else { 1int },
        {
            proof { lemma_reached_len(g, start, out@); }
            let r = it.next();
            proof { moves = moves + 1; }
            match r {
                Some(n) => {
                    let ghost o0 = out@;
                    out.push(n);
                    proof {
                        assert forall|a: int, b: int| 0 <= a < b < out@.len() implies out@[a] != out@[b] by {
                            if b == o0.len() {
                                assert(o0.contains(o0[a]));
                            }
                        }
                        assert forall|k: int| 0 <= k < out@.len() implies reachable(g, start, #[trigger] out@[k]) by {
                            if k < o0.len() {
                                assert(out@[k] == o0[k]);
                            }
                        }
                        lemma_reached_len(g, start, out@);
                    }
                },
                None => {
                    over = true;
                },
            }
        }
        proof {
            assert(dfs_run(g, start, moves) == (Seq::<usize>::empty(), out@));
        }
        out
    }

    /// Run IDDFS from `start` to a node satisfying `success`.
    pub fn iddfs<FS: Fn(usize) -> bool>(&self, start: usize, success: FS) -> (r: Option<Vec<usize>>)
        requires
            wf(self@),
            start < self@.len(),
            is_predicate(success),
        ensures
            match r {
                Some(p) => shortest_goal_path(self@, p@, start, pred_of(success), 1) && distinct(p@),
                None => no_goal_path(self@, start, pred_of(success), 1),
            },
    {
        crate::directed::iddfs::iddfs(start, self.adjacency.as_slice(), success)
    }

    /// Compute a topological ordering of all nodes.
    ///
    /// Returns `Err(node)` with a node on a cycle when there is one.
    pub fn topological_sort(&self) -> (r: Result<Vec<usize>, usize>)
        requires
            wf(self@),
        ensures
            match r {
                Ok(order) => {
                    &&& distinct(order@)
                    &&& edges_forward(self@, order@)
                    &&& forall|v: usize| order@.contains(v) <==> v < self@.len()
                },
                Err(c) => c < self@.len() && on_cycle(self@, c),
            },
    {
        let ghost g = self@;
        let n = self.adjacency.len();
        let mut nodes: Vec<usize> = Vec::new();
        let mut i: usize = 0;
        while i < n
            invariant
                i <= n,
                n == g.len(),
                nodes@.len() == i,
                forall|k: int| 0 <= k < i ==> #[trigger] nodes@[k] == k,
            decreases n - i,
        {
            nodes.push(i);
            i = i + 1;
        }
        let r = crate::directed::topological_sort::topological_sort(nodes.as_slice(), self.adjacency.as_slice());
        proof {
            assert forall|v: usize| reached_from(g, nodes@, v) <==> v < g.len() by {
                if v < g.len() {
                    lemma_reach_self(g, v);
                    assert(nodes@[v as int] == v);
                    assert(nodes@.contains(v));
                }
                if reached_from(g, nodes@, v) {
                    let x = choose|x: usize| nodes@.contains(x) && #[trigger] reachable(g, x, v);
                    let p = choose|p: Seq<usize>| #[trigger] is_path_from_to(g, p, x, v);
                    assert(p[p.len() - 1] < g.len());
                }
            }
            if let Err(c) = r {
                let x = choose|x: usize| nodes@.contains(x) && #[trigger] reachable(g, x, c);
                let p = choose|p: Seq<usize>| #[trigger] is_path_from_to(g, p, x, c);
                assert(p[p.len() - 1] < g.len());
            }
        }
        r
    }

    /// Compute strongly connected components for all nodes.
    pub fn strongly_connected_components(&self) -> (r: Vec<Vec<usize>>)
        requires
            wf(self@),
        ensures
            scc_list(self@, nested(r@), |v: usize| v < self@.len()),
    {
        crate::directed::strongly_connected_components::strongly_connected_components(self.adjacency.as_slice())
    }

    /// Compute strongly connected components reachable from `start`.
    pub fn strongly_connected_components_from(&self, start: usize) -> (r: Vec<Vec<usize>>)
        requires
            wf(self@),
            start < self@.len(),
        ensures
            scc_list(self@, nested(r@), |v: usize| reachable(self@, start, v)),
    {
        crate::directed::strongly_connected_components::strongly_connected_components_from(start, self.adjacency.as_slice())
    }

    /// Compute the strongly connected component containing `node`.
    pub fn strongly_connected_component(&self, node: usize) -> (r: Vec<usize>)
        requires
            wf(self@),
            node < self@.len(),
        ensures
            increasing(r@),
            forall|v: usize| r@.contains(v) <==> strongly_connected(self@, node, v),
    {
        crate::directed::strongly_connected_components::strongly_connected_component(node, self.adjacency.as_slice())
    }

    /// Count the paths from `start` that end at a node satisfying `success` and
    /// meet no such node before their end, each edge taken with its
    /// multiplicity.
    pub fn count_paths<FS: Fn(usize) -> bool>(&self, start: usize, success: FS) -> (r: usize)
        requires
            wf(self@),
            start < self@.len(),
            is_predicate(success),
            acyclic_from(self@, start),
            count(self@, pred_of(success), start) <= usize::MAX,
        ensures
            r == count(self@, pred_of(success), start),
            r == crate::directed::count_paths::first_goal_walks(self@, pred_of(success), start).len(),
    {
        crate::directed::count_paths::count_paths(start, self.adjacency.as_slice(), success)
    }
}

impl<C: Weight> IndexedGraph<C> {
    /// Run Dijkstra from `start` to a node satisfying `success`.
    pub fn dijkstra<FS: Fn(usize) -> bool>(&self, start: usize, success: FS) -> (r: Option<(Vec<usize>, C)>)
        requires
            wf(self@),
            crate::spec::nonneg(self@),
            crate::spec::costs_fit(self@, start),
            start < self@.len(),
            is_predicate(success),
        ensures
            match r {
                Some((p, c)) => cheapest_goal_path(self@, p@, c.val(), start, pred_of(success)) && distinct(p@),
                None => no_goal_wpath(self@, start, pred_of(success)),
            },
            crate::spec::holds(success, start) ==> (r matches Some((p, c)) && p@ == seq![start] && c.val() == 0),
    {
        crate::directed::dijkstra::dijkstra(start, self.adjacency.as_slice(), success)
    }

    /// Run IDA* from `start` to a node satisfying `success`.
    ///
    /// The result is a path from `start` to a goal that visits no node twice,
    /// with its cost plus the estimate at its end; `None` where no such path
    /// exists. Where the estimates never exceed the real cost, no such path
    /// costs less than the value returned.
    pub fn idastar<FH: Fn(usize) -> C, FS: Fn(usize) -> bool>(&self, start: usize, heuristic: FH, success: FS) -> (r: Option<(Vec<usize>, C)>)
        requires
            wf(self@),
            crate::spec::nonneg(self@),
            start < self@.len(),
            is_estimate(heuristic),
            is_predicate(success),
            estimates_fit(self@, est_of(heuristic), start),
        ensures
            match r {
                Some((p, c)) => {
                    &&& exists|e: Seq<int>| #[trigger] goal_walk(self@, p@, e, start, pred_of(success))
                        && c.val() == crate::spec::walk_cost(self@, p@, e) + est_of(heuristic)(p@[p@.len() - 1])
                    &&& admissible(self@, est_of(heuristic), pred_of(success)) ==> forall|w: usize, q: Seq<usize>, e: Seq<int>|
                        #[trigger] crate::spec::is_wpath(self@, q, e, start, w) && pred_of(success)(w)
                            ==> c.val() <= crate::spec::walk_cost(self@, q, e)
                },
                None => {
                    &&& forall|q: Seq<usize>, e: Seq<int>| !#[trigger] goal_walk(self@, q, e, start, pred_of(success))
                    &&& no_goal_wpath(self@, start, pred_of(success))
                },
            },
    {
        crate::directed::idastar::idastar(start, self.adjacency.as_slice(), heuristic, success)
    }

    /// Run the BMSSP-based SSSP algorithm from `start`.
    pub fn bmssp<FS: Fn(usize) -> bool>(&self, start: usize, success: FS) -> (r: Option<(Vec<usize>, C)>)
        requires
            self@.len() == 0 || start < self@.len(),
            wf(self@),
            crate::spec::nonneg(self@),
            crate::spec::costs_fit(self@, start),
            is_predicate(success),
        ensures
            self@.len() == 0 ==> r is None,
            self@.len() > 0 ==> match r {
                Some((p, c)) => cheapest_goal_path(self@, p@, c.val(), start, pred_of(success))
                    && crate::spec::distinct(p@),
                None => no_goal_wpath(self@, start, pred_of(success)),
            },
            self@.len() > 0 && crate::spec::holds(success, start) ==> (r matches Some((p, c)) && p@ == seq![start] && c.val() == 0),
    {
        crate::directed::bmssp::bmssp_indexed(start, self.adjacency.as_slice(), success, self.adjacency.len())
    }

    /// Compute BMSSP parents and costs for all reachable nodes from `start`.
    pub fn bmssp_all(&self, start: usize) -> (r: Vec<Option<(usize, C)>>)
        requires
            self@.len() == 0 || start < self@.len(),
            wf(self@),
            crate::spec::nonneg(self@),
            crate::spec::costs_fit(self@, start),
        ensures
            self@.len() == 0 ==> r@.len() == 0,
            self@.len() > 0 ==> shortest_table(self@, start, r@),
    {
        crate::directed::bmssp::bmssp_all_indexed(start, self.adjacency.as_slice(), self.adjacency.len())
    }

    /// Compute the maximum flow and minimum cut using Edmonds-Karp.
    ///
    /// The first part lists the edges that carry flow, each with the flow of
    /// its pair of nodes; the second is the value of the flow; the third lists
    /// the edges of a minimum cut, each with the capacity of its pair of nodes.
    /// Both ends must be nodes of the graph; no flow enters the source or
    /// leaves the sink.
    pub fn edmonds_karp(&self, source: usize, sink: usize) -> (r: (Vec<((usize, usize), C)>, C, Vec<((usize, usize), C)>))
        requires
            source < self@.len(),
            sink < self@.len(),
            source != sink ==> wf(self@) && caps_fit(self@) && flows_fit(self@, source, sink),
        ensures
            source == sink ==> r.0@.len() == 0 && r.1.val() == 0 && r.2@.len() == 0,
            source != sink ==> exists|f: Seq<Seq<int>>, side: Seq<bool>|
                #[trigger] max_flow_cut(self@, source, sink, f, side, entry_values(r.0@), r.1.val(), entry_values(r.2@))
                && crate::directed::edmonds_karp::one_way(f, self@.len() as int, source, sink)
                && crate::directed::edmonds_karp::lists_match(self@, f, side, entry_values(r.0@), entry_values(r.2@)),
    {
        crate::directed::edmonds_karp::edmonds_karp(self.adjacency.as_slice(), source, sink)
    }

    /// Compute shortest paths to all reachable nodes from `start`.
    pub fn dijkstra_all(&self, start: usize) -> (r: Vec<Option<(usize, C)>>)
        requires
            wf(self@),
            crate::spec::nonneg(self@),
            crate::spec::costs_fit(self@, start),
            start < self@.len(),
        ensures
            table_ok(self@, start, r@),
            forall|v: usize| v < self@.len() && v != start ==> (r@[v as int] is Some <==> #[trigger] wreach(self@, start, v)),
            forall|v: usize| v < self@.len() && #[trigger] in_table(r@, start, v) ==> crate::spec::is_dist(self@, start, v, entry_cost(r@, start, v)),
    {
        crate::directed::dijkstra::dijkstra_all(start, self.adjacency.as_slice())
    }

    /// List the nodes reached by Dijkstra's algorithm from `start`, the closest
    /// first, each with the node it was reached from and its total cost.
    pub fn dijkstra_reach(&self, start: usize) -> (r: Vec<(usize, Option<usize>, C)>)
        requires
            wf(self@),
            crate::spec::nonneg(self@),
            crate::spec::costs_fit(self@, start),
            start < self@.len(),
        ensures
            reach_list(self@, start, as_items(r@)),
    {
        let items = crate::directed::dijkstra::dijkstra_reach(start, self.adjacency.as_slice());
        let mut out: Vec<(usize, Option<usize>, C)> = Vec::new();
        let mut k: usize = 0;
        while k < items.len()
            invariant
                k <= items@.len(),
                out@.len() == k,
                forall|j: int| 0 <= j < k ==> (#[trigger] out@[j]) == (items@[j].node, items@[j].parent, items@[j].total_cost),
            decreases items@.len() - k,
        {
            let item = &items[k];
            out.push((item.node, item.parent, item.total_cost));
            k = k + 1;
        }
        proof {
            assert(as_items(out@) =~= items@) by {
                assert forall|j: int| 0 <= j < out@.len() implies as_items(out@)[j] == items@[j] by {
                    assert(out@[j] == (items@[j].node, items@[j].parent, items@[j].total_cost));
                }
            }
        }
        out
    }

    /// Compute shortest paths until `stop` returns true. The table holds the
    /// nodes examined before the stop, each with an optimal parent and cost.
    pub fn dijkstra_partial<FS: Fn(usize) -> bool>(&self, start: usize, stop: FS) -> (r: (Vec<Option<(usize, C)>>, Option<usize>))
        requires
            wf(self@),
            crate::spec::nonneg(self@),
            crate::spec::costs_fit(self@, start),
            start < self@.len(),
            is_predicate(stop),
        ensures
            table_ok(self@, start, r.0@),
            match r.1 {
                None => {
                    &&& forall|v: usize| v < self@.len() && v != start ==> (r.0@[v as int] is Some <==> #[trigger] wreach(self@, start, v))
                    &&& forall|v: usize| v < self@.len() && #[trigger] in_table(r.0@, start, v) ==> crate::spec::is_dist(self@, start, v, entry_cost(r.0@, start, v))
                    &&& no_goal_wpath(self@, start, pred_of(stop))
                },
                Some(t) => {
                    &&& t < self@.len()
                    &&& crate::spec::holds(stop, t)
                    &&& in_table(r.0@, start, t)
                    &&& crate::spec::is_dist(self@, start, t, entry_cost(r.0@, start, t))
                    &&& forall|w: usize, q: Seq<usize>, e: Seq<int>| #[trigger] crate::spec::is_wpath(self@, q, e, start, w)
                        && crate::spec::walk_cost(self@, q, e) < entry_cost(r.0@, start, t)
                        ==> !crate::spec::holds(stop, w) && in_table(r.0@, start, w) && crate::spec::is_dist(self@, start, w, entry_cost(r.0@, start, w))
                    &&& forall|w: usize| w < self@.len() && #[trigger] in_table(r.0@, start, w)
                        ==> crate::spec::is_dist(self@, start, w, entry_cost(r.0@, start, w))
                    &&& forall|w: usize| w < self@.len() && w != start && w != t && #[trigger] in_table(r.0@, start, w)
                        ==> !crate::spec::holds(stop, w)
                    &&& forall|w: usize| w < self@.len() && #[trigger] in_table(r.0@, start, w)
                        ==> entry_cost(r.0@, start, w) <= entry_cost(r.0@, start, t)
                },
            },
    {
        crate::directed::dijkstra::dijkstra_partial(start, self.adjacency.as_slice(), stop)
    }
}

/// A sequence of distinct nodes that `start` reaches has at most as many items
/// as the graph has nodes.
proof fn lemma_reached_len<C>(g: Seq<Seq<(usize, C)>>, start: usize, s: Seq<usize>)
    requires
        distinct(s),
        forall|k: int| 0 <= k < s.len() ==> reachable(g, start, #[trigger] s[k]),
    ensures
        s.len() <= g.len(),
{
    assert forall|k: int| 0 <= k < s.len() implies #[trigger] s[k] < g.len() by {
        assert(reachable(g, start, s[k]));
        let p = choose|p: Seq<usize>| #[trigger] is_path_from_to(g, p, start, s[k]);
        assert(p[p.len() - 1] < g.len());
    }
    crate::directed::bfs::lemma_seq_distinct_len(s, g.len());
}

/// The targets of a list of weighted edges.
pub open spec fn targets<C>(l: Seq<(usize, C)>) -> Seq<usize> {
    Seq::new(l.len(), |i: int| l[i].0)
}

/// The nodes that the edges `es` join to `u`, in the order of the edges: the
/// other end of each edge at `u` (a loop at `u` counts twice).
pub open spec fn incident<C>(es: Seq<(usize, usize, C)>, u: usize) -> Seq<usize>
    decreases es.len(),
{
    if es.len() == 0 {
        Seq::empty()
    } else {
        let e = es.last();
        let rest = incident(es.drop_last(), u);
        let r1 = if e.0 == u { rest.push(e.1) } else { rest };
        if e.1 == u { r1.push(e.0) } else { r1 }
    }
}

/// The adjacency lists `g` are those of the undirected edges `es`: every end
/// of an edge is a node of `g`, and each node lists the ends of its edges.
/// The edges that give the entries of `incident(es, u)`, by their positions
/// in `es`, in the same order.
pub open spec fn incident_edges<C>(es: Seq<(usize, usize, C)>, u: usize) -> Seq<int>
    decreases es.len(),
{
    if es.len() == 0 {
        Seq::empty()
    } else {
        let e = es.last();
        let i = es.len() - 1;
        let rest = incident_edges(es.drop_last(), u);
        let r1 = if e.0 == u { rest.push(i) } else { rest };
        if e.1 == u { r1.push(i) } else { r1 }
    }
}

proof fn lemma_incident_edges_len<C>(es: Seq<(usize, usize, C)>, u: usize)
    ensures
        incident_edges(es, u).len() == incident(es, u).len(),
    decreases es.len(),
{
    if es.len() > 0 {
        lemma_incident_edges_len(es.drop_last(), u);
    }
}

pub open spec fn undirected_ok<C, D>(g: Seq<Seq<(usize, C)>>, es: Seq<(usize, usize, D)>) -> bool {
    &&& forall|k: int| 0 <= k < es.len() ==> (#[trigger] es[k]).0 < g.len() && es[k].1 < g.len()
    &&& forall|u: int| 0 <= u < g.len() ==> targets(#[trigger] g[u]) == incident(es, u as usize)
}

/// What the incident lists hold: the other ends of the edges.
pub proof fn lemma_incident<C>(es: Seq<(usize, usize, C)>, u: usize, v: usize)
    ensures
        incident(es, u).contains(v) <==> exists|k: int| 0 <= k < es.len()
            && ((#[trigger] es[k]).0 == u && es[k].1 == v || es[k].0 == v && es[k].1 == u),
    decreases es.len(),
{
    if es.len() > 0 {
        let e = es.last();
        let rest = incident(es.drop_last(), u);
        lemma_incident(es.drop_last(), u, v);
        let r1 = if e.0 == u { rest.push(e.1) } else { rest };
        if incident(es, u).contains(v) {
            let i = choose|i: int| 0 <= i < incident(es, u).len() && incident(es, u)[i] == v;
            if i < rest.len() {
                assert(rest[i] == v);
                assert(rest.contains(v));
                let k = choose|k: int| 0 <= k < es.drop_last().len()
                    && ((#[trigger] es.drop_last()[k]).0 == u && es.drop_last()[k].1 == v || es.drop_last()[k].0 == v && es.drop_last()[k].1 == u);
                assert(es[k] == es.drop_last()[k]);
            } else {
                assert(es[es.len() - 1] == e);
            }
        }
        if exists|k: int| 0 <= k < es.len() && ((#[trigger] es[k]).0 == u && es[k].1 == v || es[k].0 == v && es[k].1 == u) {
            let k = choose|k: int| 0 <= k < es.len() && ((#[trigger] es[k]).0 == u && es[k].1 == v || es[k].0 == v && es[k].1 == u);
            if k < es.len() - 1 {
                assert(es.drop_last()[k] == es[k]);
                assert(rest.contains(v));
                let i = choose|i: int| 0 <= i < rest.len() && rest[i] == v;
                assert(r1[i] == v);
                assert(incident(es, u)[i] == v);
            } else if e.0 == u && e.1 == v {
                assert(r1[rest.len() as int] == v);
                assert(incident(es, u)[rest.len() as int] == v);
            } else {
                assert(incident(es, u)[r1.len() as int] == v);
            }
        }
    }
}

/// The adjacency lists of undirected edges are well formed and symmetric.
pub proof fn lemma_undirected<C, D>(g: Seq<Seq<(usize, C)>>, es: Seq<(usize, usize, D)>)
    requires
        undirected_ok(g, es),
    ensures
        wf(g),
        crate::undirected::connected_components::symmetric(g),
        forall|u: usize, v: usize| #[trigger] edge(g, u, v) <==> u < g.len() && incident(es, u).contains(v),
{
    assert forall|u: usize, v: usize| #[trigger] edge(g, u, v) <==> u < g.len() && incident(es, u).contains(v) by {
        if u < g.len() {
            let t = targets(g[u as int]);
            assert(t == incident(es, u));
            if edge(g, u, v) {
                let j = choose|j: int| 0 <= j < g[u as int].len() && #[trigger] g[u as int][j].0 == v;
                assert(t[j] == v);
            }
            if t.contains(v) {
                let j = choose|j: int| 0 <= j < t.len() && t[j] == v;
                assert(g[u as int][j].0 == v);
            }
        }
    }
    assert forall|u: int, j: int| 0 <= u < g.len() && 0 <= j < g[u].len() implies #[trigger] g[u][j].0 < g.len() by {
        let t = targets(g[u]);
        assert(t[j] == g[u][j].0);
        assert(incident(es, u as usize).contains(t[j]));
        lemma_incident(es, u as usize, t[j]);
    }
    assert forall|u: usize, v: usize| #[trigger] edge(g, u, v) implies edge(g, v, u) by {
        lemma_incident(es, u, v);
        lemma_incident(es, v, u);
        let k = choose|k: int| 0 <= k < es.len() && ((#[trigger] es[k]).0 == u && es[k].1 == v || es[k].0 == v && es[k].1 == u);
        assert(v < g.len());
    }
}

/// An undirected graph stored as dense `usize` indices with weighted adjacency lists.
#[derive(Clone, Debug)]
pub struct IndexedUndirectedGraph<C> {
    adjacency: Vec<Vec<(usize, C)>>,
    edges: Vec<(usize, usize, C)>,
}

impl<C> IndexedUndirectedGraph<C> {
    /// The adjacency lists: each edge is listed at both of its ends.
    pub closed spec fn graph(&self) -> Seq<Seq<(usize, C)>> {
        adj(self.adjacency@)
    }

    /// The edges, each once, as they were given.
    pub closed spec fn edge_list(&self) -> Seq<(usize, usize, C)> {
        self.edges@
    }

    /// The adjacency lists are those of the edges.
    pub open spec fn valid(&self) -> bool {
        undirected_ok(self.graph(), self.edge_list())
    }

    /// Build an undirected indexed graph from a list of edges.
    pub fn from_edges(node_count: usize, edges: Vec<(usize, usize, C)>) -> (r: Self)
        where
            C: Clone,
        requires
            forall|k: int| 0 <= k < edges@.len() ==> (#[trigger] edges@[k]).0 < node_count && edges@[k].1 < node_count,
        ensures
            r.valid(),
            r.graph().len() == node_count,
            r.edge_list() == edges@,
            crate::undirected::connected_components::symmetric(r.graph()),
            forall|u: int, i: int| 0 <= u < node_count && 0 <= i < r.graph()[u].len() ==> {
                let e = #[trigger] incident_edges(edges@, u as usize)[i];
                &&& 0 <= e < edges@.len()
                &&& edges@[e].0 == u || edges@[e].1 == u
                &&& vstd::pervasive::cloned(edges@[e].2, r.graph()[u][i].1)
            },
    {
        let ghost es = edges@;
        let mut adjacency: Vec<Vec<(usize, C)>> = Vec::new();
        let mut i: usize = 0;
        while i < node_count
            invariant
                i <= node_count,
                adjacency@.len() == i,
                forall|x: int| 0 <= x < i ==> (#[trigger] adjacency@[x])@.len() == 0,
            decreases node_count - i,
        {
            adjacency.push(Vec::new());
            i = i + 1;
        }
        let mut k: usize = 0;
        while k < edges.len()
            invariant
                es == edges@,
                forall|j: int| 0 <= j < es.len() ==> (#[trigger] es[j]).0 < node_count && es[j].1 < node_count,
                k <= es.len(),
                adjacency@.len() == node_count,
                forall|x: int| 0 <= x < node_count ==> targets(#[trigger] adj(adjacency@)[x]) == incident(es.take(k as int), x as usize),
                forall|x: int, i: int| 0 <= x < node_count && 0 <= i < adj(adjacency@)[x].len() ==> {
                    let e = #[trigger] incident_edges(es.take(k as int), x as usize)[i];
                    &&& 0 <= e < k
                    &&& es[e].0 == x || es[e].1 == x
                    &&& vstd::pervasive::cloned(es[e].2, adj(adjacency@)[x][i].1)
                },
            decreases es.len() - k,
        {
            let u = edges[k].0;
            let v = edges[k].1;
            let w1 = edges[k].2.clone();
            let w2 = edges[k].2.clone();
            let ghost a0 = adj(adjacency@);
            adjacency[u].push((v, w1));
            let ghost a1 = adj(adjacency@);
            adjacency[v].push((u, w2));
            proof {
                let a2 = adj(adjacency@);
                let tk = es.take(k as int);
                let tk1 = es.take(k + 1);
                assert(tk1.drop_last() =~= tk);
                assert(tk1.last() == es[k as int]);
                assert forall|x: int| 0 <= x < node_count implies targets(#[trigger] a2[x]) == incident(tk1, x as usize) by {
                    assert(targets(a0[x]) == incident(tk, x as usize));
                    let r0 = incident(tk, x as usize);
                    let r1 = if u == x { r0.push(v) } else { r0 };
                    assert(targets(a1[x]) =~= r1) by {
                        if x == u {
                            assert(a1[x] == a0[x].push((v, w1)));
                        } else {
                            assert(a1[x] == a0[x]);
                        }
                    }
                    assert(targets(a2[x]) =~= (if v == x { r1.push(u) } else { r1 })) by {
                        if x == v {
                            assert(a2[x] == a1[x].push((u, w2)));
                        } else {
                            assert(a2[x] == a1[x]);
                        }
                    }
                }
                assert forall|x: int, i: int| 0 <= x < node_count && 0 <= i < a2[x].len() implies {
                    let e = #[trigger] incident_edges(tk1, x as usize)[i];
                    &&& 0 <= e < k + 1
                    &&& es[e].0 == x || es[e].1 == x
                    &&& vstd::pervasive::cloned(es[e].2, a2[x][i].1)
                } by {
                    lemma_incident_edges_len(tk, x as usize);
                    assert(targets(a0[x]).len() == a0[x].len());
                    let q0 = incident_edges(tk, x as usize);
                    let q1 = if u == x { q0.push(k as int) } else { q0 };
                    assert(incident_edges(tk1, x as usize) == (if v == x { q1.push(k as int) } else { q1 }));
                    if i < a0[x].len() {
                        assert(a2[x][i] == a0[x][i]) by {
                            if x == u { assert(a1[x] == a0[x].push((v, w1))); } else { assert(a1[x] == a0[x]); }
                            if x == v { assert(a2[x] == a1[x].push((u, w2))); } else { assert(a2[x] == a1[x]); }
                        }
                        assert(incident_edges(tk1, x as usize)[i] == q0[i]);
                        assert(tk[q0[i]] == es[q0[i]]);
                    } else {
                        if x == u { assert(a1[x] == a0[x].push((v, w1))); } else { assert(a1[x] == a0[x]); }
                        if x == v { assert(a2[x] == a1[x].push((u, w2))); } else { assert(a2[x] == a1[x]); }
                    }
                }
            }
            k = k + 1;
        }
        proof {
            assert(es.take(es.len() as int) =~= es);
        }
        let r = IndexedUndirectedGraph { adjacency, edges };
        proof {
            lemma_undirected(r.graph(), r.edge_list());
        }
        r
    }

    /// Return the number of nodes in the graph.
    pub fn node_count(&self) -> (r: usize)
        ensures
            r == self.graph().len(),
    {
        self.adjacency.len()
    }

    /// Return the adjacency list for `node`.
    pub fn successors(&self, node: usize) -> (r: &[(usize, C)])
        requires
            node < self.graph().len(),
        ensures
            r@ == self.graph()[node as int],
    {
        self.adjacency[node].as_slice()
    }

    /// Return the canonical edge list (each edge appears once).
    pub fn edges(&self) -> (r: &[(usize, usize, C)])
        ensures
            r@ == self.edge_list(),
    {
        self.edges.as_slice()
    }

    /// Return all adjacency lists.
    pub fn adjacency(&self) -> (r: &[Vec<(usize, C)>])
        ensures
            adj(r@) == self.graph(),
    {
        self.adjacency.as_slice()
    }

    /// Compute connected components of the graph.
    pub fn connected_components(&self) -> (r: Vec<Vec<usize>>)
        requires
            self.valid(),
        ensures
            component_list(self.graph(), nested(r@)),
    {
        proof { lemma_undirected(self.graph(), self.edge_list()); }
        crate::undirected::connected_components::connected_components(self.adjacency.as_slice())
    }

    /// Return the component index for each node: the position of its component
    /// in the list of [`Self::connected_components`].
    pub fn component_index(&self) -> (r: Vec<usize>)
        requires
            self.valid(),
        ensures
            r@.len() == self.graph().len(),
            forall|u: usize, v: usize| u < r@.len() && v < r@.len() ==> (r@[u as int] == r@[v as int] <==> reachable(self.graph(), u, v)),
            forall|v: int| 0 <= v < r@.len() ==> #[trigger] r@[v] <= v,
            forall|v: int| 0 <= v < r@.len() && #[trigger] r@[v] > 0 ==> exists|u: int| 0 <= u < v && r@[u] + 1 == r@[v],
    {
        proof { lemma_undirected(self.graph(), self.edge_list()); }
        crate::undirected::connected_components::component_index(self.adjacency.as_slice())
    }

    /// Return connected components (alias of [`Self::connected_components`]).
    pub fn components(&self) -> (r: Vec<Vec<usize>>)
        requires
            self.valid(),
        ensures
            component_list(self.graph(), nested(r@)),
    {
        self.connected_components()
    }

    /// Enumerate all maximal cliques and collect them into a vector.
    ///
    /// Every maximal clique comes exactly once, as a list of distinct nodes.
    pub fn maximal_cliques_collect(&self) -> (r: Vec<Vec<usize>>)
        requires
            self.valid(),
        ensures
            clique_list(self.graph(), nested(r@)),
    {
        proof { lemma_undirected(self.graph(), self.edge_list()); }
        crate::undirected::cliques::maximal_cliques_collect(self.adjacency.as_slice())
    }

    /// Enumerate all maximal cliques and send each, once, to `consumer`.
    ///
    /// The lists that `consumer` is called with make a list of every maximal
    /// clique of the graph, each once, as lists of distinct nodes.
    pub fn maximal_cliques<CO>(&self, mut consumer: CO)
        where
            CO: FnMut(&Vec<usize>),
        requires
            self.valid(),
            forall|c: &Vec<usize>| call_requires(consumer, (c,)),
        ensures
            exists|calls: Seq<Vec<usize>>| #[trigger] clique_list(self.graph(), nested(calls))
                && forall|i: int| 0 <= i < calls.len() ==> call_ensures(consumer, (&#[trigger] calls[i],), ()),
    {
        let cliques = self.maximal_cliques_collect();
        let ghost entry = consumer;
        let mut i: usize = 0;
        while i < cliques.len()
            invariant
                i <= cliques@.len(),
                consumer == entry,
                forall|c: &Vec<usize>| call_requires(consumer, (c,)),
                forall|j: int| 0 <= j < i ==> call_ensures(consumer, (&#[trigger] cliques@[j],), ()),
            decreases cliques@.len() - i,
        {
            consumer(&cliques[i]);
            i = i + 1;
        }
        proof {
            assert(clique_list(self.graph(), nested(cliques@)));
            assert(forall|j: int| 0 <= j < cliques@.len() ==> call_ensures(entry, (&#[trigger] cliques@[j],), ()));
        }
    }

    /// Separate connected components using neighbor groups derived from adjacency.
    ///
    /// Both parts give, for each node, the smallest node of its component: the
    /// first for the node itself, the second for the group made of the node and
    /// its neighbours.
    pub fn separate_components(&self) -> (r: (Vec<usize>, Vec<usize>))
        requires
            self.valid(),
        ensures
            r.0@.len() == self.graph().len(),
            r.1@ == r.0@,
            forall|v: usize| v < r.0@.len() ==> #[trigger] reachable(self.graph(), v, r.0@[v as int]),
            forall|v: usize, u: usize| v < r.0@.len() && #[trigger] reachable(self.graph(), v, u) ==> r.0@[v as int] <= u,
    {
        proof { lemma_undirected(self.graph(), self.edge_list()); }
        crate::undirected::connected_components::separate_components(self.adjacency.as_slice())
    }
}

impl<C: Weight> IndexedUndirectedGraph<C> {
    /// Compute a minimum spanning forest using Kruskal's algorithm.
    ///
    /// The result is a forest of the graph's edges, and the ends of every edge
    /// of the graph are joined by result edges that weigh no more than it does.
    pub fn kruskal(&self) -> (r: Vec<(usize, usize, C)>)
        requires
            self.valid(),
        ensures
            ends_below(self.graph().len(), r@),
            sub_list(r@, self.edge_list()),
            is_forest(self.graph().len(), r@),
            crate::undirected::kruskal::by_weight(r@),
            forall|k: int| 0 <= k < self.edge_list().len() ==> #[trigger] connected(self.graph().len(),
                light(r@, self.edge_list()[k].2.val()), self.edge_list()[k].0, self.edge_list()[k].1),
    {
        self.kruskal_indices()
    }

    /// Compute a minimum spanning forest using Kruskal's algorithm, as the
    /// list of its edges in the order in which they were taken, lightest
    /// first.
    pub fn kruskal_indices(&self) -> (r: Vec<(usize, usize, C)>)
        requires
            self.valid(),
        ensures
            ends_below(self.graph().len(), r@),
            sub_list(r@, self.edge_list()),
            is_forest(self.graph().len(), r@),
            crate::undirected::kruskal::by_weight(r@),
            forall|k: int| 0 <= k < self.edge_list().len() ==> #[trigger] connected(self.graph().len(),
                light(r@, self.edge_list()[k].2.val()), self.edge_list()[k].0, self.edge_list()[k].1),
    {
        crate::undirected::kruskal::kruskal_indices(self.adjacency.len(), self.edges.as_slice())
    }

    /// Compute a minimum spanning tree using Prim's algorithm, grown from the
    /// first node of the first edge.
    ///
    /// Each result edge is an edge of the graph, oriented from the tree grown
    /// so far to a new node, and weighs no more than any edge that crosses
    /// between the two; the tree spans the nodes connected to the first node,
    /// with one edge fewer than there are such nodes.
    pub fn prim(&self) -> (r: Vec<(usize, usize, C)>)
        requires
            self.valid(),
        ensures
            self.edge_list().len() == 0 ==> r@.len() == 0,
            self.edge_list().len() > 0 ==> {
                let first = self.edge_list()[0].0;
                &&& forall|i: int| 0 <= i < r@.len() ==> listed_either(self.edge_list(), #[trigger] r@[i])
                &&& forall|i: int| 0 <= i < r@.len() ==> #[trigger] greedy_step(self.edge_list(), first, r@, i)
                &&& forall|v: usize| v < self.graph().len() ==> (in_tree(first, r@, r@.len() as int, v)
                    <==> #[trigger] connected(self.graph().len(), self.edge_list(), first, v))
                &&& r@.len() + 1 == crate::undirected::prim::component(self.graph().len(), self.edge_list(), first).len()
            },
    {
        crate::undirected::prim::prim(self.adjacency.len(), self.edges.as_slice())
    }
}

} // verus!
