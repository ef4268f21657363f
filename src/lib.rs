//! A sparse, chunked voxel world: block storage keyed by chunk and local
//! coordinates, floored global-to-local address mapping, exact grid ray
//! traversal for picking, and per-block-type render instance batches.

pub mod coords;
pub mod model;
pub mod traversal;
pub mod world;
