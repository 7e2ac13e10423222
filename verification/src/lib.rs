//! Simulation core of a block world.
//!
//! * `voxels` holds the world: a fixed grid of 16x16x16 chunks, addressed
//!   by world coordinates, with edits, conversion to and from a flat byte
//!   buffer, and ray casting for block picking.
//! * `lighting` holds the light: four 4-bit channels per voxel (red, green,
//!   blue and sky), spread and withdrawn by breadth-first propagation
//!   whenever the world is loaded or edited.
//! * `graphics` extracts the lit surface mesh of a chunk.
//!
//! All arithmetic is integral; where a consumer wants fractions, the unit is
//! documented with the value. Every function carries a machine-checked
//! contract, stated over mathematical models of the data (`WorldView`,
//! `ChunkView`, `SolverState`), and the laws that relate several functions
//! are public proof functions.

pub mod voxels;
pub mod lighting;
pub mod graphics;
