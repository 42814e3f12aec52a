pub mod motion_handling;
pub mod collisions;
