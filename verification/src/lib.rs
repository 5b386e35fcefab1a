//! A height optimized trie (HOT): an ordered index whose nodes discriminate
//! their entries by a small set of key bits, with adaptive node heights.
pub mod trie;
