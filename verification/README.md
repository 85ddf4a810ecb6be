# idtree

The ID-Tree dynamic connectivity structure for undirected graphs, verified
with Verus. An ID-Tree keeps, next to the adjacency lists of the graph, a
spanning forest whose trees are exactly the connected components; a
connectivity query compares the roots of two nodes.

## Layout

- `src/forest.rs` – parent-pointer forests: ancestors, depths, roots, and how
  cutting, linking and rotating change them.
- `src/graph.rs` – adjacency lists, paths, connectivity, and why a spanning
  forest answers connectivity.
- `src/distance.rs`, `src/paths.rs`, `src/counting.rs`, `src/centrality.rs` –
  shortest distances and breadth-first walks, forest paths and fundamental
  cycles, counting, and what betweenness counts measure.
- `src/search.rs`, `src/setup.rs` – the invariants of the replacement-edge
  search and of the construction of the forest.
- `src/sizes.rs` – subtree sizes: a size counts the nodes of its subtree,
  and rotating, cutting, linking and building a forest keep sizes exact;
  roots at centroids.
- `src/node.rs` – a node: parent, subtree size and neighbor list.
- `src/idtree.rs` – the ID-Tree: construction, balanced insertion and
  deletion of edges, queries.
- `src/idtree/traversal.rs`, `src/idtree/cycles.rs`,
  `src/idtree/components.rs`, `src/idtree/betweenness.rs` – shortest paths,
  the fundamental cycle basis, connected components and active nodes, and
  subset betweenness.
- `src/idtree/laws.rs` – properties that span operations, as proof functions.
- `src/smallvec_spec.rs`, `src/bitset_spec.rs`, `src/hash_spec.rs` – the
  trusted interface to `smallvec`, `fixedbitset`, `nohash-hasher` and
  `rapidhash`.
- `app/lib.rs` – Python bindings (PyO3), which check node bounds before
  calling the library.
- `tests/` – scenario tests.
