//! Walks over the contents of a chunk.
pub mod leaf;
