[package]
name = "voxel_dag"
version = "0.1.0"
edition = "2021"
publish = false

[dependencies]
ahash = "*"
lilypads = "*"
glam = "*"
