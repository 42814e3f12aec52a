pub mod collision_utils;
