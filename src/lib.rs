//! Sparse chunked voxel storage with run-length compression, greedy surface
//! meshing and the integer side of voxel ray picking.

pub mod buffer;
pub mod cell;
pub mod chunk;
pub mod codec;
pub mod coords;
pub mod mesh;
pub mod raycast;
