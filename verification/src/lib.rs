//! A dictionary of words over a fixed alphabet: exact membership and prefix
//! listing by a tree of characters, with a Bloom filter in front of the tree
//! that answers "definitely absent" without a walk.
//!
//! Words are matched with their ASCII letters folded to lower case. The tree
//! alone decides membership; the filter only spares walks.

pub mod alphabet;
pub mod bits;
pub mod bloom_filter;
pub mod error;
pub mod hashing;
pub mod laws;
pub mod text;
pub mod trie;
