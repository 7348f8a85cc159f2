//! A Merkle search tree: an ordered index from keys to value hashes in which
//! every node carries the XOR of the hashes of the leaves below it, so that
//! the root hash depends only on the current key/value-hash mapping.

pub mod hash;
pub mod key;
pub mod contents;
pub mod digest;
pub mod node;
pub mod tree;
