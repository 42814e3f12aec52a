pub mod voxels;
