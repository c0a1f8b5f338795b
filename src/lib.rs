//! Compaction, indexing and overlap queries over hierarchical hexagonal cells.
//!
//! Cells are 64-bit identifiers: a resolution (0 to 15), a base cell and one
//! direction digit per resolution step. The library reduces raw cell sets to
//! their minimal cover, stores compacted cell to value mappings, finds
//! overlaps between named regions, and frames cell sets as bytes.
pub mod cell;
pub mod order;
pub mod compact;
pub mod codec;
pub mod overlap;
pub mod tree;
pub mod query;
pub mod mapcodec;
pub mod country;
