# pathfinding-indexed

Pathfinding, flow and graph algorithms on graphs whose nodes are the dense
indices `0..n`, each algorithm verified with Verus against a mathematical model
of the graph.

- `src/spec.rs` models a graph as its adjacency lists and defines paths,
  weighted walks, reachability and distances.
- `src/weight.rs` is the `Weight` trait: the integer types accepted as edge
  weights, each read as the mathematical integer it denotes.
- `src/directed/` holds the searches on directed graphs: breadth-first,
  bidirectional, depth-first and iterative deepening search, IDA*, Dijkstra's
  algorithm, the bounded multi-source recursion (BMSSP), topological sorting,
  strongly connected components, path counting and Edmonds–Karp maximum flow.
- `src/undirected/` holds connected components, maximal cliques, and Kruskal's
  and Prim's minimum spanning trees.
- `src/indexed_graph.rs` is the public API: `IndexedGraph` and
  `IndexedUndirectedGraph`, whose methods call the algorithms above.
- `src/outside.rs` declares what the algorithms use of `indexmap` and
  `rustc_hash`, with the contracts that the proofs rely on.
- `app/` maps outside node values to dense indices (`IndexedGraphMap`).

What is proved of the bounded multi-source recursion differs from the rest.
Its queue (`PartitionQueue`) is proved exact: a pull gives the keys with the
smallest labels and a bound that separates them from the keys left. Of the
recursion itself and of the pivot search, the proofs give that every label is
the cost of a real walk, that labels only fall, that returned nodes are
settled, and the sizes and bounds of their results; they do not give that the
labels it settles are distances. The shortest-path table that `bmssp_all`
returns is therefore checked by `certify`, a verified checker whose result is
true exactly when the table holds every reachable node with its distance and
a parent on a cheapest path; where the check fails, Dijkstra's algorithm builds
the table instead. The public results are proved in every case.
