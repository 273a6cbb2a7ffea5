//! A persistent, copy-on-write trie from character strings to typed values.
//!
//! Every update returns a new version and leaves older versions untouched;
//! unchanged subtrees are shared between versions through `Arc`.

pub mod node;
pub mod trie;
pub mod value;
