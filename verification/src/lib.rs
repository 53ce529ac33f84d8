//! A tree-structured, persistent text buffer ("rope") over Unicode text.
//!
//! Text is stored in a balanced multi-way tree of string chunks.  Each node
//! caches the byte, character and line-break counts of its subtree, which
//! gives logarithmic-time conversions among byte, character and line
//! positions, logarithmic-time edits, and cheap structural sharing between
//! clones.  Chunk boundaries are never placed inside a multi-byte code point
//! nor between a carriage return and a following line feed, so every chunk is
//! itself valid text.

pub mod text;

pub mod str_utils;

pub mod segmentation;

pub mod tree;

pub mod rope;

pub mod slice;

pub use rope::Rope;

pub use slice::RopeSlice;
