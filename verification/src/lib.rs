//! An in-memory voxel world streamed around a moving viewpoint.
//!
//! The world is a map from horizontal chunk coordinates to columns of
//! sixteen cubic chunks.  The crate provides the storage layer (block
//! reads and writes with floor-semantics coordinate transforms), bounded
//! ring discovery of nearby work, terrain synthesis from a sampled noise
//! field, face-visibility and ambient-occlusion meshing, a prioritized
//! upload queue gated by a per-frame budget, and a deduplicated change
//! list that drives incremental re-meshing.

pub mod bits;
pub mod block;
pub mod coords;
pub mod chunk;
pub mod column;
pub mod chunk_manager;
pub mod meshing;
pub mod discovery;
pub mod loading;
pub mod terrain;
pub mod upload;
pub mod shader;
