//! A persistent (immutable, structurally shared) Patricia tree: a binary trie
//! mapping bit-sequence keys to values, with cheap cloning and automatic
//! sharing of unmodified subtrees between versions.

pub mod bits;
pub mod node;
pub mod tree;
pub mod laws;
