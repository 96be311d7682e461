# chessviz2

The family layer of a navigable chess-state manifold, verified with Verus.

- `src/family.rs` — the band table, family keys and their linear index, the
  starting-limit composition counts, and the family table with exact
  (half-point) derived features.
- `src/graph.rs` — the coarse potential-adjacency graph between families: the
  edge taxonomy, v0 weights (in hundredths), the band-reachability rules and
  the construction of the `petgraph` graph.
- `src/placement.rs` — the combinadic placement-address codec over the
  free-square set, with both roundtrip directions proved.
- `src/legality.rs` — the legality predicate (king adjacency, check
  consistency, castling and en-passant consistency), using `shakmaty`'s
  attack tables.
- `src/position.rs`, `src/viewer.rs`, `src/checksum.rs` — the position value
  the codec and predicate read, viewer color-mode logic, and the FNV-1a
  artifact checksum.
- `app/` — the layout settling program: floating-point features, the crude
  force-directed layout, camera math and colors.
