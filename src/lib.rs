//! A prefix tree (trie) over text keys, built grapheme by grapheme.
//!
//! `Trie` stores words only; `DataTrie<D>` attaches an ordered list of
//! values to every stored word.
pub mod tokens;
pub mod trie;
pub mod trie_node;

pub use trie::{DataTrie, Trie};
pub use trie_node::{TrieDataNode, TrieDatalessNode};
