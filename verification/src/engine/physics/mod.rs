pub mod voxel;
