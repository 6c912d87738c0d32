//! The Merkle-tree layer of a chunked tree hash: chunk accumulation, parent
//! combination, subtree alignment and recursive subtree hashing, with every
//! step specified and proved against a mathematical model of the tree.

pub mod compress;
pub mod output;
pub mod chunk;
pub mod subtree;
pub mod message;
