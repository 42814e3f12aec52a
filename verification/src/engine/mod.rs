pub mod blocks;
pub mod components;
pub mod grid;
pub mod physics;
pub mod systems;
pub mod utility;
