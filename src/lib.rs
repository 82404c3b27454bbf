//! A growable bump-pointer arena for plain data.
//!
//! The arena carves every request out of byte blocks that it owns and frees
//! them only in bulk. Blocks live in one virtual address space: each block
//! starts where the previous one ends, so an allocation is identified by a
//! `Span` (block, offset, address, size) that stays valid until the next
//! `clear`.
pub mod align;
pub mod arena;
pub mod block;
pub mod bytes;
pub mod error;
pub mod growth;
pub mod laws;
pub mod totals;
pub mod typed;

pub use arena::{Arena, ArenaView, Region, Span};
pub use align::{alignment_offset, min_alignment, repeat_layout, Layout};
pub use error::ArenaError;
pub use growth::GrowthStrategy;
