//! Streaming column statistics: type inference over a join lattice, typed
//! range tracking and exact sample buffers, all mergeable across chunks.

pub mod buffer;
pub mod engine;
pub mod field_type;
pub mod range;
pub mod stats;
pub mod text;

pub use text::from_bytes;
