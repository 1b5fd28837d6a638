//! Chunk generation and delivery pipeline for a voxel game server.
//!
//! The crate covers the core of a server-side world generator: the pure
//! terrain function that turns sampled noise into blocks, the region
//! persistence codec, the bounded LRU chunk cache shared by the worker
//! pool, the per-tick demand tracker and priority dispatcher, and the
//! live reconfiguration protocol.  Everything that can be stated over
//! plain values is verified; disk access, channels and the floating-point
//! noise sampler live outside the library and feed it plain data.

pub mod block;
pub mod cache;
pub mod chunk;
pub mod codec;
pub mod config;
pub mod params;
pub mod pos;
pub mod pregen;
pub mod save;
pub mod store;
pub mod terrain;
pub mod worker;
pub mod worldgen;

use vstd::prelude::*;

verus! {

/// Number of 16-block vertical sections in a chunk.
pub const SECTION_COUNT: usize = 24;

/// Chunk height in blocks.
pub const CHUNK_HEIGHT: usize = 384;

/// Chunks per region along each axis.
pub const REGION_SIZE: i64 = 16;

} // verus!
