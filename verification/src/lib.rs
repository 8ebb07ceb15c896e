//! A radix-16 Merkle-Patricia trie over byte-string keys and values.
//!
//! The trie keeps entries in a flat key/value store and computes, on
//! demand, the 32-byte merkle value of any conceptual trie node: nibble
//! paths, partial keys, node headers, children bitmaps, SCALE
//! length-prefixed payloads, and the recursive reduction to a digest.

pub mod codec;
pub mod laws;
pub mod merkle;
pub mod nibbles;
pub mod trie;
