//! The cache changes the work, not the root.
//!
//! A cache holds, under a coordinate, the hash of the node that stands there.
//! Both writers keep to that: `update_cache` stores the siblings that a proof
//! supplies, the walk stores the ancestors that it derives. So a cache that
//! was filled from proofs of one tree snapshot gives every proof of that
//! snapshot the root that plain recombination gives, and that root is the
//! tree's.
//!
//! A stored hash that the walk finds is taken over unseen. The laws therefore
//! speak of caches that agree with the path and the leaf hash: a hash stored
//! under an ancestor's coordinate is the hash that recombination derives for
//! that ancestor.

use crate::cache::{extended_hashes, lemma_extended_hashes};
use crate::coordinates::{ancestor_index, item_at_level, sibling_index};
use crate::hash::MerkleHash;
use crate::path::{depth_fits, MerklePathItem};
use crate::root::{
    cacheable_given, combine_step, consulted_key, consults, folded_hash, hashes_after_root,
    lemma_consulted_key, lemma_update_stores_siblings, root_hash, running_hash,
};
use vstd::prelude::*;

verus! {

/// Whether every hash that the cache holds for an ancestor of the leaf is the
/// hash that plain recombination derives for that ancestor.
pub open spec fn agrees(
    path: Seq<MerklePathItem>,
    leaf: MerkleHash,
    hashes: Map<(usize, usize), MerkleHash>,
) -> bool {
    forall|step: int|
        consults(path, step) && hashes.contains_key(#[trigger] consulted_key(path, step))
            ==> hashes[consulted_key(path, step)] == folded_hash(path, leaf, step)
}

/// The cache that `update_cache` makes of an empty one.
pub open spec fn prewarmed(other: Seq<MerklePathItem>) -> Map<(usize, usize), MerkleHash> {
    extended_hashes(Map::empty(), cacheable_given(other))
}

/// Whether every hash in the cache is the hash that the tree snapshot has at
/// that coordinate. `tree` gives the hash of the node at a level and index.
pub open spec fn sound(
    tree: spec_fn(nat, nat) -> MerkleHash,
    hashes: Map<(usize, usize), MerkleHash>,
) -> bool {
    forall|key: (usize, usize)| #[trigger]
        hashes.contains_key(key) ==> hashes[key] == tree(key.0 as nat, key.1 as nat)
}

/// Whether the sibling hashes of a path are those of the tree snapshot.
pub open spec fn holds_siblings(
    tree: spec_fn(nat, nat) -> MerkleHash,
    path: Seq<MerklePathItem>,
) -> bool {
    forall|level: nat|
        1 <= level <= path.len() ==> tree(level, #[trigger] sibling_index(path, level))
            == item_at_level(path, level).hash
}

/// Whether the path is a proof of `leaf` in the tree snapshot: the leaf and
/// the siblings are the tree's, and along the way from the leaf to the root
/// every node of the tree is the combination of its two children.
pub open spec fn proves(
    tree: spec_fn(nat, nat) -> MerkleHash,
    path: Seq<MerklePathItem>,
    leaf: MerkleHash,
) -> bool {
    &&& holds_siblings(tree, path)
    &&& tree(path.len(), ancestor_index(path, path.len())) == leaf
    &&& forall|level: nat|
        1 <= level <= path.len() ==> tree(
            (level - 1) as nat,
            ancestor_index(path, (level - 1) as nat),
        ) == combine_step(
            item_at_level(path, level),
            tree(level, #[trigger] ancestor_index(path, level)),
        )
}

/// On a cache that agrees, the running hash is the folded one at every step.
proof fn lemma_running_is_folded(
    path: Seq<MerklePathItem>,
    leaf: MerkleHash,
    hashes: Map<(usize, usize), MerkleHash>,
    step: int,
)
    requires
        agrees(path, leaf, hashes),
    ensures
        running_hash(path, leaf, hashes, step) == folded_hash(path, leaf, step),
    decreases step,
{
    if step > 0 {
        if consults(path, step) && hashes.contains_key(consulted_key(path, step)) {
        } else {
            lemma_running_is_folded(path, leaf, hashes, step - 1);
        }
    }
}

/// On an empty cache the walk returns the root of plain recombination.
pub proof fn lemma_fresh_cache_root(path: Seq<MerklePathItem>, leaf: MerkleHash)
    ensures
        root_hash(path, leaf, Map::empty()) == folded_hash(path, leaf, path.len() - 1),
{
    lemma_running_is_folded(path, leaf, Map::empty(), path.len() - 1);
}

/// A cache that agrees with the path and the leaf hash gives the root that
/// an empty cache gives.
pub proof fn lemma_cache_equivalence(
    path: Seq<MerklePathItem>,
    leaf: MerkleHash,
    warm: Map<(usize, usize), MerkleHash>,
)
    requires
        agrees(path, leaf, warm),
    ensures
        root_hash(path, leaf, warm) == root_hash(path, leaf, Map::empty()),
{
    lemma_fresh_cache_root(path, leaf);
    lemma_running_is_folded(path, leaf, warm, path.len() - 1);
}

/// The walk stores only what recombination derives: a cache that agrees
/// still agrees after the walk.
pub proof fn lemma_walk_keeps_agreement(
    path: Seq<MerklePathItem>,
    leaf: MerkleHash,
    hashes: Map<(usize, usize), MerkleHash>,
)
    requires
        depth_fits(path.len()),
        agrees(path, leaf, hashes),
    ensures
        agrees(path, leaf, hashes_after_root(path, leaf, hashes)),
{
    let after = hashes_after_root(path, leaf, hashes);
    assert forall|step: int|
        consults(path, step) && after.contains_key(
            #[trigger] consulted_key(path, step),
        ) implies after[consulted_key(path, step)] == folded_hash(path, leaf, step) by {
        lemma_consulted_key(path, step);
        lemma_running_is_folded(path, leaf, hashes, step);
    }
}

/// Walking a path a second time, over the cache that its first walk filled
/// from empty, gives the same root.
pub proof fn lemma_second_walk_same_root(path: Seq<MerklePathItem>, leaf: MerkleHash)
    requires
        depth_fits(path.len()),
    ensures
        root_hash(path, leaf, hashes_after_root(path, leaf, Map::empty())) == root_hash(
            path,
            leaf,
            Map::empty(),
        ),
{
    lemma_walk_keeps_agreement(path, leaf, Map::empty());
    lemma_cache_equivalence(path, leaf, hashes_after_root(path, leaf, Map::empty()));
}

/// Plain recombination of a proof derives the tree's own hashes: after item
/// `step` it has reached the hash of the ancestor on level
/// `depth - 1 - step`.
pub proof fn lemma_proof_folds_along_tree(
    tree: spec_fn(nat, nat) -> MerkleHash,
    path: Seq<MerklePathItem>,
    leaf: MerkleHash,
    step: int,
)
    requires
        proves(tree, path, leaf),
        0 <= step < path.len(),
    ensures
        folded_hash(path, leaf, step) == tree(
            (path.len() - 1 - step) as nat,
            ancestor_index(path, (path.len() - 1 - step) as nat),
        ),
    decreases step,
{
    let level = (path.len() - step) as nat;
    assert(item_at_level(path, level) == path[step]);
    assert(tree((level - 1) as nat, ancestor_index(path, (level - 1) as nat)) == combine_step(
        item_at_level(path, level),
        tree(level, ancestor_index(path, level)),
    ));
    if step > 0 {
        lemma_proof_folds_along_tree(tree, path, leaf, step - 1);
    }
}

/// A cache that is sound for a tree snapshot agrees with every proof of
/// that snapshot.
pub proof fn lemma_sound_cache_agrees(
    tree: spec_fn(nat, nat) -> MerkleHash,
    path: Seq<MerklePathItem>,
    leaf: MerkleHash,
    hashes: Map<(usize, usize), MerkleHash>,
)
    requires
        depth_fits(path.len()),
        proves(tree, path, leaf),
        sound(tree, hashes),
    ensures
        agrees(path, leaf, hashes),
{
    assert forall|step: int|
        consults(path, step) && hashes.contains_key(
            #[trigger] consulted_key(path, step),
        ) implies hashes[consulted_key(path, step)] == folded_hash(path, leaf, step) by {
        lemma_consulted_key(path, step);
        lemma_proof_folds_along_tree(tree, path, leaf, step);
    }
}

/// `update_cache` keeps a cache sound: it stores a proof's siblings under
/// their own coordinates, and they are the tree's.
pub proof fn lemma_update_keeps_sound(
    tree: spec_fn(nat, nat) -> MerkleHash,
    other: Seq<MerklePathItem>,
    hashes: Map<(usize, usize), MerkleHash>,
)
    requires
        depth_fits(other.len()),
        holds_siblings(tree, other),
        sound(tree, hashes),
    ensures
        sound(tree, extended_hashes(hashes, cacheable_given(other))),
{
    let after = extended_hashes(hashes, cacheable_given(other));
    if other.len() >= 1 {
        lemma_update_stores_siblings(other, hashes);
        lemma_extended_hashes(hashes, cacheable_given(other));
        assert forall|key: (usize, usize)| #[trigger] after.contains_key(key) implies after[key]
            == tree(key.0 as nat, key.1 as nat) by {
            if hashes.contains_key(key) {
                assert(after[key] == hashes[key]);
            } else {
                let level = key.0 as nat;
                assert(key == (level as usize, sibling_index(other, level) as usize));
            }
        }
    }
}

/// The walk keeps a cache sound: for a proof of the snapshot it stores the
/// tree's own hashes of the ancestors.
pub proof fn lemma_walk_keeps_sound(
    tree: spec_fn(nat, nat) -> MerkleHash,
    path: Seq<MerklePathItem>,
    leaf: MerkleHash,
    hashes: Map<(usize, usize), MerkleHash>,
)
    requires
        depth_fits(path.len()),
        proves(tree, path, leaf),
        sound(tree, hashes),
    ensures
        sound(tree, hashes_after_root(path, leaf, hashes)),
{
    let after = hashes_after_root(path, leaf, hashes);
    lemma_sound_cache_agrees(tree, path, leaf, hashes);
    assert forall|key: (usize, usize)| #[trigger] after.contains_key(key) implies after[key]
        == tree(key.0 as nat, key.1 as nat) by {
        if !hashes.contains_key(key) {
            let step = path.len() - 1 - key.0;
            lemma_running_is_folded(path, leaf, hashes, step);
            lemma_proof_folds_along_tree(tree, path, leaf, step);
        }
    }
}

/// On a cache that is sound for the snapshot, the walk of a proof returns
/// the snapshot's root, which is also what an empty cache gives.
pub proof fn lemma_sound_cache_gives_tree_root(
    tree: spec_fn(nat, nat) -> MerkleHash,
    path: Seq<MerklePathItem>,
    leaf: MerkleHash,
    hashes: Map<(usize, usize), MerkleHash>,
)
    requires
        path.len() >= 1,
        depth_fits(path.len()),
        proves(tree, path, leaf),
        sound(tree, hashes),
    ensures
        root_hash(path, leaf, hashes) == tree(0, 0),
        root_hash(path, leaf, hashes) == root_hash(path, leaf, Map::empty()),
{
    lemma_sound_cache_agrees(tree, path, leaf, hashes);
    lemma_cache_equivalence(path, leaf, hashes);
    lemma_fresh_cache_root(path, leaf);
    lemma_proof_folds_along_tree(tree, path, leaf, path.len() - 1);
}

/// A cache warmed by `update_cache` from another proof of the same tree
/// snapshot gives a proof the root that an empty cache gives.
pub proof fn lemma_prewarmed_cache_equivalence(
    tree: spec_fn(nat, nat) -> MerkleHash,
    path: Seq<MerklePathItem>,
    leaf: MerkleHash,
    other: Seq<MerklePathItem>,
)
    requires
        depth_fits(path.len()),
        depth_fits(other.len()),
        proves(tree, path, leaf),
        holds_siblings(tree, other),
    ensures
        agrees(path, leaf, prewarmed(other)),
        root_hash(path, leaf, prewarmed(other)) == root_hash(path, leaf, Map::empty()),
{
    lemma_update_keeps_sound(tree, other, Map::empty());
    lemma_sound_cache_agrees(tree, path, leaf, prewarmed(other));
    lemma_cache_equivalence(path, leaf, prewarmed(other));
}

} // verus!
