use pathfinding_indexed::directed::bfs::bfs_reach;
use pathfinding_indexed::directed::dfs::dfs_reach;
use pathfinding_indexed::IndexedGraph;

fn diamond() -> IndexedGraph<u32> {
    IndexedGraph::from_adjacency(vec![vec![(1, 1), (2, 1)], vec![(3, 1)], vec![(3, 1)], vec![]])
}

fn cycle() -> IndexedGraph<u32> {
    IndexedGraph::from_adjacency(vec![vec![(1, 1)], vec![(2, 1)], vec![(1, 1)]])
}

fn binary_tree() -> IndexedGraph<u32> {
    IndexedGraph::from_adjacency(vec![
        vec![(1, 10), (2, 10)],
        vec![(3, 10), (4, 10)],
        vec![(5, 10), (6, 10)],
        vec![(7, 10), (8, 10)],
        vec![],
        vec![],
        vec![],
        vec![],
        vec![],
    ])
}

fn letters() -> IndexedGraph<u32> {
    // A=0, B=1, C=2, D=3, E=4, and F=5 unreachable.
    IndexedGraph::from_adjacency(vec![
        vec![(1, 4), (2, 2)],
        vec![(2, 1), (3, 5)],
        vec![(3, 8), (4, 10)],
        vec![(4, 2)],
        vec![],
        vec![],
    ])
}

#[test]
fn bmssp_matches_dijkstra_on_multi_degree_graph() {
    let graph = IndexedGraph::from_adjacency(vec![
        vec![(1, 2), (2, 1), (3, 10)],
        vec![(3, 1)],
        vec![(1, 1), (3, 5)],
        vec![(4, 1)],
        vec![],
        vec![],
    ]);
    let bmssp = graph.bmssp_all(0);
    let dijkstra = graph.dijkstra_all(0);
    assert_eq!(bmssp.len(), dijkstra.len());
    for idx in 0..bmssp.len() {
        let bm_cost = bmssp[idx].map(|(_, cost)| cost);
        let dj_cost = dijkstra[idx].map(|(_, cost)| cost);
        assert_eq!(bm_cost, dj_cost, "node {idx}");
    }
}

#[test]
fn graph_sizes() {
    let graph = diamond();
    assert_eq!(graph.node_count(), 4);
    assert_eq!(graph.len(), 4);
    assert!(!graph.is_empty());
    assert_eq!(graph.successors(0), &[(1, 1), (2, 1)]);
    assert_eq!(graph.adjacency().len(), 4);
    let empty: IndexedGraph<u32> = IndexedGraph::from_adjacency(vec![]);
    assert!(empty.is_empty());
    assert_eq!(empty.node_count(), 0);
}

#[test]
fn bfs_finds_shortest_path() {
    assert_eq!(diamond().bfs(0, |n| n == 3), Some(vec![0, 1, 3]));
    assert_eq!(diamond().bfs(0, |n| n == 0), Some(vec![0]));
    assert_eq!(diamond().bfs(3, |n| n == 0), None);
}

#[test]
fn bfs_on_unweighted_letters() {
    // A=0, B=1, C=2, D=3, E=4, F=5.
    let graph: IndexedGraph<u8> = IndexedGraph::from_adjacency(vec![
        vec![(1, 1), (2, 1)],
        vec![(0, 1), (3, 1), (4, 1)],
        vec![(0, 1), (5, 1)],
        vec![(1, 1)],
        vec![(1, 1), (5, 1)],
        vec![(2, 1), (4, 1)],
    ]);
    let path = graph.bfs(0, |n| n == 5).unwrap();
    assert_eq!(path, vec![0, 2, 5]);
    assert_eq!(path.len() - 1, 2);
}

#[test]
fn bfs_loop_finds_cycle() {
    assert_eq!(cycle().bfs_loop(1), Some(vec![1, 2, 1]));
    assert_eq!(cycle().bfs_loop(0), None);
}

#[test]
fn bfs_bidirectional_finds_path() {
    let path = diamond().bfs_bidirectional(0, 3).unwrap();
    assert_eq!(path.len(), 3);
    assert_eq!(path[0], 0);
    assert_eq!(path[2], 3);
    assert_eq!(diamond().bfs_bidirectional(3, 0), None);
}

#[test]
fn bfs_bidirectional_takes_the_shorter_branch() {
    let graph: IndexedGraph<u32> = IndexedGraph::from_adjacency(vec![
        vec![(1, 1), (5, 1)],
        vec![(2, 1)],
        vec![(3, 1)],
        vec![(4, 1)],
        vec![],
        vec![(4, 1)],
    ]);
    assert_eq!(graph.bfs_bidirectional(0, 4), Some(vec![0, 5, 4]));
    assert_eq!(graph.bfs_bidirectional(1, 4), Some(vec![1, 2, 3, 4]));
    assert_eq!(graph.bfs_bidirectional(4, 0), None);
}

#[test]
fn bfs_bidirectional_from_a_node_to_itself() {
    let graph: IndexedGraph<u32> = IndexedGraph::from_adjacency(vec![vec![(1, 1)], vec![(0, 1)], vec![]]);
    assert_eq!(graph.bfs_bidirectional(0, 0), Some(vec![0]));
    assert_eq!(graph.bfs_bidirectional(2, 2), Some(vec![2]));
}

#[test]
fn bfs_reach_lists_nodes_in_order() {
    let graph: IndexedGraph<u32> =
        IndexedGraph::from_adjacency(vec![vec![(1, 1), (2, 1)], vec![(3, 1)], vec![(4, 1)], vec![], vec![]]);
    assert_eq!(graph.bfs_reach(0), vec![0, 1, 2, 3, 4]);
    let adjacency = graph.adjacency();
    let mut it = bfs_reach(0, adjacency);
    let mut seen = Vec::new();
    while let Some(n) = it.next() {
        seen.push(n);
    }
    assert_eq!(seen, vec![0, 1, 2, 3, 4]);
}

#[test]
fn dfs_and_reach() {
    assert_eq!(diamond().dfs(0, |n| n == 3), Some(vec![0, 1, 3]));
    assert_eq!(diamond().dfs(3, |n| n == 1), None);
    assert_eq!(diamond().dfs_reach(0), vec![0, 1, 3, 2]);
    let graph = diamond();
    let mut it = dfs_reach(0, graph.adjacency());
    let mut seen = Vec::new();
    while let Some(n) = it.next() {
        seen.push(n);
    }
    assert_eq!(seen, vec![0, 1, 3, 2]);
}

#[test]
fn iddfs_finds_shallowest() {
    assert_eq!(diamond().iddfs(0, |n| n == 3), Some(vec![0, 1, 3]));
    assert_eq!(diamond().iddfs(2, |n| n == 1), None);
}

#[test]
fn topological_sort_orders_chain() {
    let chain: IndexedGraph<u32> =
        IndexedGraph::from_adjacency(vec![vec![(1, 1)], vec![(2, 1)], vec![(3, 1)], vec![]]);
    assert_eq!(chain.topological_sort(), Ok(vec![0, 1, 2, 3]));
    let sorted = diamond().topological_sort().unwrap();
    let pos = |n: usize| sorted.iter().position(|&m| m == n).unwrap();
    assert!(pos(0) < pos(1) && pos(0) < pos(2) && pos(1) < pos(3) && pos(2) < pos(3));
}

#[test]
fn topological_sort_reports_cycle() {
    let err = cycle().topological_sort().unwrap_err();
    assert!(err == 1 || err == 2);
}

#[test]
fn strongly_connected_components_of_cycle() {
    let mut component = cycle().strongly_connected_component(1);
    component.sort();
    assert_eq!(component, vec![1, 2]);
    assert_eq!(cycle().strongly_connected_component(0), vec![0]);
    let all = cycle().strongly_connected_components();
    assert_eq!(all.len(), 2);
    assert!(all.contains(&vec![0]));
    assert!(all.contains(&vec![1, 2]));
    let from_one = cycle().strongly_connected_components_from(1);
    assert_eq!(from_one, vec![vec![1, 2]]);
}

#[test]
fn count_paths_counts_both_routes() {
    assert_eq!(diamond().count_paths(0, |n| n == 3), 2);
    assert_eq!(diamond().count_paths(0, |n| n == 0), 1);
    assert_eq!(diamond().count_paths(3, |n| n == 0), 0);
}

#[test]
fn readme_dijkstra() {
    let graph: IndexedGraph<u32> = IndexedGraph::from_adjacency(vec![
        vec![(1, 2), (2, 4)],
        vec![(2, 1), (3, 7)],
        vec![(3, 3)],
        vec![],
    ]);
    assert_eq!(graph.dijkstra(0, |i| i == 3), Some((vec![0, 1, 2, 3], 6)));
    assert_eq!(graph.dijkstra(3, |i| i == 0), None);
    assert_eq!(graph.dijkstra(0, |i| i == 0), Some((vec![0], 0)));
}

#[test]
fn dijkstra_all_on_tree() {
    let reach = binary_tree().dijkstra_all(0);
    assert_eq!(reach.len(), 9);
    assert_eq!(reach[1], Some((0, 10)));
    assert_eq!(reach[3], Some((1, 20)));
    assert_eq!(reach[8], Some((3, 30)));
}

#[test]
fn dijkstra_partial_stops_at_target() {
    let (table, reached) = binary_tree().dijkstra_partial(0, |n| n == 3);
    assert_eq!(reached, Some(3));
    assert_eq!(table[1], Some((0, 10)));
    assert_eq!(table[3], Some((1, 20)));
    let (table, reached) = binary_tree().dijkstra_partial(0, |n| n == 100);
    assert_eq!(reached, None);
    assert_eq!(table[8], Some((3, 30)));
}

#[test]
fn bmssp_on_tree() {
    let graph = binary_tree();
    let all = graph.bmssp_all(0);
    assert_eq!(all[1], Some((0, 10)));
    assert_eq!(all[8], Some((3, 30)));
    assert_eq!(graph.bmssp(0, |n| n == 8), Some((vec![0, 1, 3, 8], 30)));
}

#[test]
fn bmssp_on_letters() {
    let graph = letters();
    assert_eq!(graph.bmssp(0, |n| n == 4), Some((vec![0, 1, 3, 4], 11)));
    assert_eq!(graph.bmssp_all(0)[4].unwrap().1, 11);
    assert_eq!(graph.bmssp(0, |n| n == 5), None);
    assert_eq!(graph.dijkstra(0, |n| n == 4), Some((vec![0, 1, 3, 4], 11)));
}

#[test]
fn bmssp_empty_graph() {
    let graph: IndexedGraph<u32> = IndexedGraph::from_adjacency(vec![]);
    assert!(graph.bmssp_all(0).is_empty());
    assert_eq!(graph.bmssp(0, |_| true), None);
}

#[test]
fn edmonds_karp_small_network() {
    let graph: IndexedGraph<i32> = IndexedGraph::from_adjacency(vec![
        vec![(1, 3), (2, 2)],
        vec![(2, 1), (3, 2)],
        vec![(3, 3)],
        vec![],
    ]);
    let (flows, total, cut) = graph.edmonds_karp(0, 3);
    assert_eq!(total, 5);
    assert_eq!(flows, vec![((0, 1), 3), ((0, 2), 2), ((1, 2), 1), ((1, 3), 2), ((2, 3), 3)]);
    assert_eq!(cut, vec![((0, 1), 3), ((0, 2), 2)]);
}

#[test]
fn edmonds_karp_trivial_cases() {
    let graph: IndexedGraph<i32> = IndexedGraph::from_adjacency(vec![vec![(1, 4)], vec![]]);
    let (flows, total, cut) = graph.edmonds_karp(0, 0);
    assert!(flows.is_empty() && cut.is_empty());
    assert_eq!(total, 0);
    let (flows, total, cut) = graph.edmonds_karp(1, 0);
    assert!(flows.is_empty());
    assert_eq!(total, 0);
    assert!(cut.is_empty());
    let (flows, total, cut) = graph.edmonds_karp(0, 1);
    assert_eq!(flows, vec![((0, 1), 4)]);
    assert_eq!(total, 4);
    assert_eq!(cut, vec![((0, 1), 4)]);
}

#[test]
fn idastar_doc_example() {
    let graph: IndexedGraph<usize> = IndexedGraph::from_adjacency(vec![
        vec![(1, 1), (2, 2)],
        vec![(2, 1), (3, 5)],
        vec![(3, 1)],
        vec![],
    ]);
    let goal = 3usize;
    let result = graph.idastar(0, |n| goal.saturating_sub(n), |n| n == goal);
    assert_eq!(result, Some((vec![0, 1, 2, 3], 3)));
    assert_eq!(graph.idastar(3, |_| 0, |n| n == 0), None);
}

#[test]
fn idastar_without_estimate_finds_cheapest() {
    let graph = letters();
    assert_eq!(graph.idastar(0, |_| 0, |n| n == 4), Some((vec![0, 1, 3, 4], 11)));
    assert_eq!(graph.idastar(0, |_| 0, |n| n == 5), None);
    assert_eq!(graph.idastar(2, |_| 0, |n| n == 2), Some((vec![2], 0)));
}

#[test]
fn dijkstra_reach_visits_closest_first() {
    let reach = binary_tree().dijkstra_reach(0);
    assert_eq!(reach.len(), 9);
    assert_eq!(reach[0], (0, None, 0));
    for pair in reach.windows(2) {
        assert!(pair[0].2 <= pair[1].2);
    }
    let mut nodes: Vec<usize> = reach.iter().map(|item| item.0).collect();
    nodes.sort();
    assert_eq!(nodes, (0..9).collect::<Vec<_>>());
    assert!(reach.contains(&(8, Some(3), 30)));
    assert!(reach.contains(&(2, Some(0), 10)));
}

#[test]
fn dijkstra_reach_free_function_skips_unreachable() {
    let graph = letters();
    let items = pathfinding_indexed::directed::dijkstra::dijkstra_reach(0, graph.adjacency());
    let nodes: Vec<usize> = items.iter().map(|item| item.node).collect();
    assert_eq!(nodes, vec![0, 2, 1, 3, 4]);
    assert_eq!(items[3].total_cost, 9);
    assert_eq!(items[3].parent, Some(1));
    assert_eq!(items[4].total_cost, 11);
}

#[test]
fn dfs_reach_goes_deep_before_wide() {
    let graph: IndexedGraph<u32> =
        IndexedGraph::from_adjacency(vec![vec![(1, 1), (2, 1)], vec![(3, 1)], vec![(4, 1)], vec![], vec![]]);
    assert_eq!(graph.dfs_reach(0), vec![0, 1, 3, 2, 4]);
    assert_eq!(graph.bfs_reach(0), vec![0, 1, 2, 3, 4]);
}

#[test]
fn idastar_cheapest_despite_cycles() {
    let graph: IndexedGraph<u32> = IndexedGraph::from_adjacency(vec![
        vec![(1, 1), (2, 10)],
        vec![(0, 1), (2, 5)],
        vec![],
    ]);
    assert_eq!(graph.idastar(0, |_| 0, |n| n == 2), Some((vec![0, 1, 2], 6)));
}

#[test]
fn dfs_stops_at_the_first_goal_it_visits() {
    let graph: IndexedGraph<u32> =
        IndexedGraph::from_adjacency(vec![vec![(1, 1), (2, 1)], vec![(3, 1)], vec![], vec![]]);
    assert_eq!(graph.dfs(0, |n| n == 2 || n == 3), Some(vec![0, 1, 3]));
    assert_eq!(graph.bfs(0, |n| n == 2 || n == 3), Some(vec![0, 2]));
}

#[test]
fn dijkstra_partial_keeps_only_examined_nodes() {
    // Stopping at node 1 examines the start and node 1 only; node 2 has been
    // seen but not examined, and node 3 not even seen.
    let graph: IndexedGraph<u32> = IndexedGraph::from_adjacency(vec![vec![(1, 1), (2, 5)], vec![(3, 10)], vec![], vec![]]);
    let (table, reached) = graph.dijkstra_partial(0, |n| n == 1);
    assert_eq!(reached, Some(1));
    assert_eq!(table, vec![None, Some((0, 1)), None, None]);
}

#[test]
fn dijkstra_accepts_heavy_small_weights() {
    let graph: IndexedGraph<u8> = IndexedGraph::from_adjacency(vec![vec![(1, 200)], vec![]]);
    assert_eq!(graph.dijkstra(0, |n| n == 1), Some((vec![0, 1], 200)));
    assert_eq!(graph.dijkstra_all(0)[1], Some((0, 200)));
    assert_eq!(graph.bmssp(0, |n| n == 1), Some((vec![0, 1], 200)));
}

#[test]
fn path_searches_from_a_goal_start() {
    let graph = binary_tree();
    assert_eq!(graph.dijkstra(0, |n| n == 0), Some((vec![0], 0)));
    assert_eq!(graph.bmssp(0, |n| n == 0), Some((vec![0], 0)));
}

#[test]
fn edmonds_karp_sends_nothing_back_to_the_source() {
    // A cycle through the source: 0 -> 1 -> 0, and 0 -> 2 as the sink.
    let graph: IndexedGraph<i32> = IndexedGraph::from_adjacency(vec![vec![(1, 5), (2, 3)], vec![(0, 5)], vec![]]);
    let (flows, total, _) = graph.edmonds_karp(0, 2);
    assert_eq!(total, 3);
    assert_eq!(flows, vec![((0, 2), 3)]);
    assert!(flows.iter().all(|&((u, v), _)| v != 0 && u != 2));
}

#[test]
fn edmonds_karp_equal_ends_with_large_weights() {
    let graph: IndexedGraph<i8> = IndexedGraph::from_adjacency(vec![vec![(1, 100), (1, 100)], vec![]]);
    let (flows, total, cut) = graph.edmonds_karp(1, 1);
    assert!(flows.is_empty() && cut.is_empty());
    assert_eq!(total, 0);
}

#[test]
fn bmssp_path_repeats_no_node_on_free_cycles() {
    let graph = IndexedGraph::from_adjacency(vec![vec![(1, 0u32)], vec![(0, 0), (2, 0), (3, 1)], vec![(1, 0)], vec![]]);
    let (path, cost) = graph.bmssp(0, |n| n == 3).unwrap();
    assert_eq!(cost, 1);
    assert_eq!(path.first(), Some(&0));
    assert_eq!(path.last(), Some(&3));
    for i in 0..path.len() {
        for j in i + 1..path.len() {
            assert_ne!(path[i], path[j]);
        }
    }
}
