//! Mesh extraction.

pub mod voxel_renderer;
