//! Authentication paths: the sibling hashes that lead from a leaf to the root.

use crate::hash::MerkleHash;
use vstd::prelude::*;

verus! {

/// The side of its parent on which a path item's sibling stands.
///
/// `Left` puts the sibling on the even index below the parent and the node
/// being derived on the odd one; `Right` the other way round. When the two
/// are combined, the node being derived is hashed first for `Left` and second
/// for `Right`.
#[derive(Clone, Copy, Debug, PartialEq, Eq)]
pub enum Direction {
    Left,
    Right,
}

/// One step of an authentication path: a sibling's hash and its side.
#[derive(Clone, Copy, Debug, PartialEq, Eq)]
pub struct MerklePathItem {
    pub hash: MerkleHash,
    pub direction: Direction,
}

/// An authentication path, from the leaf's sibling (index 0) to the sibling
/// of the root's child (last index). Its length is the depth of the leaf.
pub type MerklePath = Vec<MerklePathItem>;

/// An authentication path together with the operations that this crate
/// offers on it.
#[derive(Debug, PartialEq, Eq)]
pub struct MerklePathWrapper {
    inner: MerklePath,
}

impl View for MerklePathWrapper {
    type V = Seq<MerklePathItem>;

    /// The items of the path, leaf end first.
    closed spec fn view(&self) -> Seq<MerklePathItem> {
        self.inner@
    }
}

impl MerklePathWrapper {
    /// Wraps a path. Any path is accepted, the empty one included.
    pub fn new(inner: MerklePath) -> (wrapper: Self)
        ensures
            wrapper@ == inner@,
    {
        Self { inner }
    }

    /// The items of the path, leaf end first.
    pub fn items(&self) -> (items: &MerklePath)
        ensures
            items@ == self@,
    {
        &self.inner
    }
}

/// Whether indices on every level of a path of `depth` items fit the machine
/// word: level `depth` has `2^depth` slots.
pub open spec fn depth_fits(depth: nat) -> bool {
    depth <= usize::BITS
}

} // verus!
