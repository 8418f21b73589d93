//! The 256-bit node hash and the one operation on it: combining two children
//! into their parent.

use vstd::prelude::*;

verus! {

/// A 256-bit hash of a tree node.
#[derive(Clone, Copy, Debug, PartialEq, Eq)]
pub struct MerkleHash {
    pub bytes: [u8; 32],
}

impl MerkleHash {
    /// Whether every byte is zero: the hash that stands for "no tree".
    pub open spec fn is_zero(&self) -> bool {
        forall|i: int| 0 <= i < 32 ==> self.bytes[i] == 0u8
    }
}

impl Default for MerkleHash {
    /// The all-zero hash.
    fn default() -> (h: Self)
        ensures
            h.is_zero(),
    {
        MerkleHash { bytes: [0u8; 32] }
    }
}

/// The hash of the parent whose children hash to `left` and `right`, in that
/// order: SHA-256 over the Borsh encoding of the pair, as `near-primitives`
/// computes it.
pub uninterp spec fn combined(left: MerkleHash, right: MerkleHash) -> MerkleHash;

/// Calls `near_primitives::hash::CryptoHash::hash_borsh` on the pair
/// `(left, right)`. The digest depends on the two hashes alone, which is all
/// the contract claims: the result is `combined(left, right)`.
#[verifier::external_body]
pub(crate) fn combine(left: MerkleHash, right: MerkleHash) -> (parent: MerkleHash)
    ensures
        parent == combined(left, right),
{
    let pair = (
        near_primitives::hash::CryptoHash(left.bytes),
        near_primitives::hash::CryptoHash(right.bytes),
    );
    MerkleHash { bytes: near_primitives::hash::CryptoHash::hash_borsh(&pair).0 }
}

} // verus!
