//! Merkle inclusion proofs addressed by tree coordinates, with a cache of
//! interior hashes that is shared between the proofs of one tree snapshot.
//!
//! A proof is an authentication path: the sibling hashes from the leaf up to
//! the root, each with the side it stands on. From a path the crate derives
//! the `(level, index)` coordinates of every node that the path touches, and it
//! recomputes the root while reading and filling a cache of interior hashes.

pub mod cache;
pub mod coordinates;
pub mod equivalence;
pub mod hash;
pub mod path;
pub mod root;

pub use cache::CachedNodes;
pub use coordinates::NodeCoordinates;
pub use hash::MerkleHash;
pub use path::{Direction, MerklePath, MerklePathItem, MerklePathWrapper};
