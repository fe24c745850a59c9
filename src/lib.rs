//! A prefix tree of words with prefix completion.

pub mod laws;
pub mod trie;

pub use trie::{completions, texts, Node};
