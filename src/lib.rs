//! Native primitives for a visual-novel engine's packed assets: an LZSS codec whose
//! output matches the engine's own encoder byte for byte, and the engine's seeded shuffle
//! with a search for the seed behind an observed layout.

pub mod lzss;
pub mod match_tree;
pub mod seed_scan;
pub mod shuffle;
