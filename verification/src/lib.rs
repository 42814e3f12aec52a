//! Integer core of a voxel game engine: Z-order (Morton) arithmetic on quadtree
//! cells, a hash-consed, reference-counted sparse directed graph that stores
//! quadtree geometry, and the exposed-face bookkeeping built on top of it.
pub mod editing;
pub mod engine;
pub mod enginev2;
pub mod game;
pub mod garbagetracker;
pub mod graph;
pub mod sddag;
