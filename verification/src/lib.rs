//! Incremental block-light maintenance for a chunk-partitioned voxel world.
//!
//! Light values (0-15) are stored per block inside fixed-size chunks. When a
//! block is placed or removed, one of four update algorithms repairs the
//! affected region by bounded flood fill instead of recomputing the world.

pub mod adjacency;
pub mod algorithms;
pub mod block;
pub mod chunk;
pub mod chunk_map;
pub mod context;
pub mod dispatch;
pub mod flood_fill;
pub mod position;
mod visited;

pub use block::Block;
pub use chunk::Chunk;
pub use chunk_map::ChunkMap;
pub use position::BlockPosition;
pub use position::ChunkPosition;
