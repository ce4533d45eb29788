//! A chunk-streaming voxel world core: procedural chunk generation from
//! integer terrain samples, cross-chunk-aware surface extraction, a
//! multi-stage load/mesh scheduler around a moving observer, and a voxel
//! ray-cast for block picking.

pub mod block;
pub mod chunk;
pub mod chunk_manager;
pub mod raycast;
pub mod vec3i;
