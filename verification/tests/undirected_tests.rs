use pathfinding_indexed::IndexedUndirectedGraph;

fn square() -> IndexedUndirectedGraph<u32> {
    IndexedUndirectedGraph::from_edges(4, vec![(0, 1, 7), (0, 2, 3), (1, 2, 1), (1, 3, 2), (2, 3, 6)])
}

fn weight(edges: &[(usize, usize, u32)]) -> u32 {
    edges.iter().map(|e| e.2).sum()
}

#[test]
fn from_edges_lists_both_ends() {
    let graph = square();
    assert_eq!(graph.node_count(), 4);
    assert_eq!(graph.edges().len(), 5);
    assert_eq!(graph.successors(0), &[(1, 7), (2, 3)]);
    assert_eq!(graph.successors(3), &[(1, 2), (2, 6)]);
    assert_eq!(graph.adjacency().len(), 4);
}

#[test]
fn readme_kruskal() {
    let mst = square().kruskal();
    assert_eq!(mst.len(), 3);
    assert_eq!(weight(&mst), 6);
    assert_eq!(square().kruskal_indices(), mst);
}

#[test]
fn guide_kruskal() {
    let graph = IndexedUndirectedGraph::from_edges(4, vec![(0, 1, 4), (0, 2, 2), (1, 2, 1), (1, 3, 5), (2, 3, 8)]);
    let mst = graph.kruskal();
    assert_eq!(mst.len(), 3);
    assert_eq!(weight(&mst), 8);
}

#[test]
fn kruskal_forest_of_two_parts() {
    let graph = IndexedUndirectedGraph::from_edges(5, vec![(0, 1, 5u32), (3, 4, 1), (1, 0, 2)]);
    let mst = graph.kruskal();
    assert_eq!(mst, vec![(3, 4, 1), (1, 0, 2)]);
}

#[test]
fn prim_spans_the_component() {
    let mst = square().prim();
    assert_eq!(mst.len(), 3);
    assert_eq!(weight(&mst), 6);
    assert_eq!(mst[0], (0, 2, 3));
    let empty: IndexedUndirectedGraph<u32> = IndexedUndirectedGraph::from_edges(3, vec![]);
    assert!(empty.prim().is_empty());
}

#[test]
fn prim_stays_in_first_component() {
    let graph = IndexedUndirectedGraph::from_edges(5, vec![(0, 1, 5u32), (3, 4, 1), (1, 2, 2)]);
    let mst = graph.prim();
    assert_eq!(mst, vec![(0, 1, 5), (1, 2, 2)]);
}

#[test]
fn connected_components_and_indices() {
    let graph = IndexedUndirectedGraph::from_edges(6, vec![(0, 1, 1u32), (1, 2, 1), (3, 4, 1)]);
    let components = graph.connected_components();
    assert_eq!(components, vec![vec![0, 1, 2], vec![3, 4], vec![5]]);
    assert_eq!(graph.components(), components);
    assert_eq!(graph.component_index(), vec![0, 0, 0, 1, 1, 2]);
    let (nodes, groups) = graph.separate_components();
    assert_eq!(nodes, vec![0, 0, 0, 3, 3, 5]);
    assert_eq!(groups, nodes);
}

#[test]
fn maximal_cliques_of_two_triangles() {
    let graph = IndexedUndirectedGraph::from_edges(
        5,
        vec![(0, 1, 1u32), (1, 2, 1), (0, 2, 1), (2, 3, 1), (3, 4, 1), (2, 4, 1)],
    );
    let mut cliques = graph.maximal_cliques_collect();
    for clique in &mut cliques {
        clique.sort();
    }
    cliques.sort();
    assert_eq!(cliques, vec![vec![0, 1, 2], vec![2, 3, 4]]);
    let mut seen = Vec::new();
    graph.maximal_cliques(|c| {
        let mut c = c.clone();
        c.sort();
        seen.push(c);
    });
    seen.sort();
    assert_eq!(seen, cliques);
}

#[test]
fn maximal_cliques_edge_cases() {
    let isolated: IndexedUndirectedGraph<u32> = IndexedUndirectedGraph::from_edges(2, vec![]);
    let mut cliques = isolated.maximal_cliques_collect();
    cliques.sort();
    assert_eq!(cliques, vec![vec![0], vec![1]]);
    let nothing: IndexedUndirectedGraph<u32> = IndexedUndirectedGraph::from_edges(0, vec![]);
    assert_eq!(nothing.maximal_cliques_collect(), vec![Vec::<usize>::new()]);
}

#[test]
fn kruskal_takes_edges_lightest_first() {
    let graph = IndexedUndirectedGraph::from_edges(5, vec![(0, 1, 9u32), (1, 2, 4), (2, 3, 7), (3, 4, 1), (0, 4, 3), (1, 3, 8)]);
    let mst = graph.kruskal();
    assert_eq!(mst, vec![(3, 4, 1), (0, 4, 3), (1, 2, 4), (2, 3, 7)]);
    for pair in mst.windows(2) {
        assert!(pair[0].2 <= pair[1].2);
    }
}

#[test]
fn prim_has_one_edge_fewer_than_its_component() {
    let graph = IndexedUndirectedGraph::from_edges(7, vec![(0, 1, 2u32), (1, 2, 2), (2, 0, 1), (4, 5, 3), (2, 3, 9)]);
    let mst = graph.prim();
    assert_eq!(mst.len(), 3);
    assert_eq!(weight(&mst), 12);
    assert_eq!(graph.kruskal().len(), 4);
}

#[test]
fn prim_and_kruskal_agree_on_weight_when_connected() {
    let mst_k = square().kruskal();
    let mst_p = square().prim();
    assert_eq!(mst_k.len(), mst_p.len());
    assert_eq!(weight(&mst_k), weight(&mst_p));
}

#[test]
fn from_edges_is_symmetric() {
    let graph = IndexedUndirectedGraph::from_edges(4, vec![(0, 3, 5u32), (2, 1, 4), (3, 3, 1)]);
    for u in 0..graph.node_count() {
        for &(v, w) in graph.successors(u) {
            assert!(graph.successors(v).iter().any(|&(x, c)| x == u && c == w));
        }
    }
    assert_eq!(graph.successors(3), &[(0, 5), (3, 1), (3, 1)]);
}

#[test]
fn wide_weight_types() {
    let big: IndexedUndirectedGraph<u128> = IndexedUndirectedGraph::from_edges(3, vec![(0, 1, 1u128 << 100), (1, 2, 1), (0, 2, 5)]);
    assert_eq!(big.kruskal(), vec![(1, 2, 1), (0, 2, 5)]);
    let signed: IndexedUndirectedGraph<i128> = IndexedUndirectedGraph::from_edges(3, vec![(0, 1, -4i128), (1, 2, 2), (0, 2, -1)]);
    assert_eq!(signed.kruskal(), vec![(0, 1, -4), (0, 2, -1)]);
    let sized: IndexedUndirectedGraph<isize> = IndexedUndirectedGraph::from_edges(2, vec![(0, 1, -3isize)]);
    assert_eq!(sized.prim(), vec![(0, 1, -3)]);
}
