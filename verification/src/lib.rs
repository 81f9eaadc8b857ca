//! An entity-component store with chunked component storage, a free-list
//! allocator for entity slot ids, and a frame-based job scheduler that infers
//! read/write dependencies between jobs sharing resources.

use vstd::prelude::*;

pub mod entities;
pub mod entity;
pub mod frame;
pub mod free_list;
pub mod notify;
pub mod query;
pub mod resource;
pub mod world;
pub mod storage;

verus! {

/// Index of an entity slot in the store.
pub type EntityId = u32;

/// Counter distinguishing reuses of one entity slot id.
pub type Generation = u32;

/// Identifier of a registered component-type group.
pub type GroupId = usize;

/// Identifier of a registered component type.
pub type ComponentId = usize;

/// Index of a chunk within a component storage.
pub type ChunkId = usize;

/// Index of a slot within one chunk.
pub type SlotId = usize;

/// Number of entity slots in one chunk.
pub const CHUNK_SIZE: usize = 128;

/// Sentinel generation marking an invalid entity handle.
pub const GENERATION_INVALID: Generation = 0xffff_ffff;

} // verus!
