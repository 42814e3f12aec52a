pub mod grid;
pub mod physics;
