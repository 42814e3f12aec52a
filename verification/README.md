# voxel_dag

The integer core of a small voxel game engine, verified with Verus.

- `src/graph.rs`: Z-order (Morton) codes of quadtree cells: conversion to and
  from cell coordinates, moves on the grid, digits and paths.
- `src/engine/grid/`: the hash-consed, reference-counted quadtree graph
  (`graph.rs`, nodes kept in a `lilypads::Pond`, looked up through an
  `ahash::AHashMap`), its Z-order steps (`basic_node2d.rs`), cells as step
  paths (`cell.rs`), and the trusted declarations of the outside collections
  (`storage.rs`).
- `src/engine/grid/order.rs`: the Z-order of cells given as step paths, and
  when one cell lies inside another.
- `src/engine/utility/partition.rs`: Z-order paths with a depth.
- `src/engine/physics/voxel/`: the exposed faces of the solid cells of a
  voxel body, and the simultaneous descent of two bodies' trees.
- `src/sddag.rs`: a layered, reference-counted sparse DAG addressed by layer
  and index, with path edits that rebuild and share nodes.
- `src/garbagetracker.rs`, `src/editing.rs`, `src/game/`, `src/enginev2/`:
  smaller pieces (a reference tracker, the editing state, collision
  configurations, voxel pointers).
- `app/`: the program around the library: it builds the starting world,
  applies editing events given on the command line, and holds the file
  access and the floating-point world code (placing a block at a point,
  the descent loop over two bodies).
- `tests/`: tests run against the compiled library.

Each public function states its result in its `ensures`; the laws of the
library (round trips, read after write, sharing of equal nodes, what an edit
leaves unchanged) are public proof functions or clauses of those contracts.

## What is not here

- Floating-point code: the physics (rapier bodies, contact manifolds, ray
  marching and intersection solvers), bounding boxes, cameras and drawing,
  entity motion, and the decisions taken on float comparisons of velocities.
  Verus does not reason about floats; where such code decides something from
  integer data (the descent of two voxel trees, corner points of cells), the
  decision is in the library and the float part in `app/`.
- Input and windowing (macroquad), file access and JSON saving: input and
  output, kept out of the library.
- The earlier generations of the quadtree graph, built on `vec_mem_heap`
  (`MemHeap` in one generation, `NodeField` in another), which target two
  different versions of that crate's interface and were not brought over.
  They differ from the current graph in `src/engine/grid/graph.rs`, which is
  verified here: their `set_node` answers a path that cannot be read with an
  error, and rewrites in place a parent held by the edited tree alone, where
  the current graph always builds the new path beside the old one and frees
  what is no longer referenced.
