# polygon_unionfind

A disjoint-set (union-find) data structure whose sets are polygons, written in
Verus.

Upon insertion, each polygon is merged with every intersecting polygon already
present. Candidates are found spatially: the bounding box of every
representative polygon is kept in an `rstar` R-tree, and Boolean operations on
polygons are computed by the `i_overlay` engine.

Layout:

- `src/unionfind.rs`: union by rank with path compression, with its forest
  invariant, the laws of `union`, the proof that ranks never overflow, and
  the size law (a root of rank `k` heads at least `2^k` elements), kept by
  every operation.
- `src/polygon.rs`: polygons, polygon identifiers and centroids.
- `src/bool_ops.rs`: union, intersection and difference of integer polygons.
- `src/wide_coordinates.rs`: the same overlays for coordinate types wider than
  `i32`, which reach the engine only when every coordinate fits.
- `src/polygon_unionfind.rs`: the polygon union-find and its R-tree invariant.
  `insert` states the whole merge: the chain of unions it accumulated, the
  sets it absorbed, the neighbours whose union failed, and what every member
  stores afterwards. Inserted polygons need a non-empty boundary; the R-tree
  keeps its boxes with `i128` corners so that its own arithmetic cannot
  overflow.
- `src/combinators.rs`, `src/layers_with_transitions.rs`: wrappers around
  polygon collections; `Paralleled` states what it does to each collection
  in terms of the collections' own contracts.
- `src/hull.rs`: the monotone-chain convex hull used by the viewer, with the
  proof that every input point lies inside it.
- `app/main.rs`: an interactive viewer built on `macroquad`.
