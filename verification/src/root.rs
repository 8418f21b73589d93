//! Recomputing the root from a path and a leaf hash, through the cache.
//!
//! The walk starts at the leaf and climbs one path item at a time. Item
//! `step` combines the running hash, which is the hash of the ancestor on the
//! item's level, with the item's sibling, and so produces the ancestor one
//! level up. The first item is always combined, because the leaf hash is the
//! caller's; so is the last one, which produces the root. For every item in
//! between the walk consults the cache under the coordinate of the ancestor
//! that the item produces: a stored hash is taken over as it is, without
//! hashing; otherwise the two hashes are combined and the result is stored
//! under that coordinate. A coordinate thus holds the hash of its own node,
//! as it does when `update_cache` stores a sibling.

use crate::cache::{
    extended_hashes, lemma_extended_hashes, names_first, newly_filled, record_appended,
    CachedNodes,
};
use crate::coordinates::{
    ancestor_index, given_coordinates, item_at_level, lemma_ancestor_index_bound,
    lemma_indices_are_exact, sibling_index, to_calculate_coordinates, NodeCoordinates,
};
use crate::hash::{combine, combined, MerkleHash};
use crate::path::{depth_fits, Direction, MerklePathItem, MerklePathWrapper};
use vstd::arithmetic::power2::lemma_pow2_strictly_increases;
use vstd::layout::unsigned_int_max_values;
use vstd::prelude::*;
use vstd::slice::slice_subrange;

verus! {

/// The running hash after it was combined with the sibling of `item`: the
/// running hash goes first for a `Left` sibling, second for a `Right` one.
pub open spec fn combine_step(item: MerklePathItem, running: MerkleHash) -> MerkleHash {
    match item.direction {
        Direction::Left => combined(running, item.hash),
        Direction::Right => combined(item.hash, running),
    }
}

/// The hash that plain recombination reaches after the items `0 ..= step`,
/// without any cache: the hash of the ancestor on level `depth - 1 - step`.
pub open spec fn folded_hash(path: Seq<MerklePathItem>, leaf: MerkleHash, step: int) -> MerkleHash
    decreases step,
{
    if step <= 0 {
        combine_step(path[0], leaf)
    } else {
        combine_step(path[step], folded_hash(path, leaf, step - 1))
    }
}

/// Whether `key` is the coordinate of an ancestor of the leaf on one of the
/// levels `1 ..= depth - 2`: the coordinates that the walk consults.
pub open spec fn is_ancestor_key(path: Seq<MerklePathItem>, key: (usize, usize)) -> bool {
    1 <= key.0 && key.0 + 1 < path.len() && key.1 == ancestor_index(path, key.0 as nat)
}

/// Whether the walk consults the cache at item `step`: at every item but the
/// first and the last.
pub open spec fn consults(path: Seq<MerklePathItem>, step: int) -> bool {
    1 <= step && step + 1 < path.len()
}

/// The coordinate that the walk consults at item `step`: that of the node
/// which the item produces, the ancestor on level `depth - 1 - step`.
pub open spec fn consulted_key(path: Seq<MerklePathItem>, step: int) -> (usize, usize) {
    let level = (path.len() - 1 - step) as nat;
    (level as usize, ancestor_index(path, level) as usize)
}

/// The running hash after the items `0 ..= step`, on a cache that held
/// `hashes` when the walk began.
pub open spec fn running_hash(
    path: Seq<MerklePathItem>,
    leaf: MerkleHash,
    hashes: Map<(usize, usize), MerkleHash>,
    step: int,
) -> MerkleHash
    decreases step,
{
    if step <= 0 {
        combine_step(path[0], leaf)
    } else if consults(path, step) && hashes.contains_key(consulted_key(path, step)) {
        hashes[consulted_key(path, step)]
    } else {
        combine_step(path[step], running_hash(path, leaf, hashes, step - 1))
    }
}

/// The root that the walk returns for a non-empty path.
pub open spec fn root_hash(
    path: Seq<MerklePathItem>,
    leaf: MerkleHash,
    hashes: Map<(usize, usize), MerkleHash>,
) -> MerkleHash {
    running_hash(path, leaf, hashes, path.len() - 1)
}

/// The hashes in the cache after the walk has passed the items
/// `0 .. steps`: what was there stays, and every consulted coordinate that
/// was free holds the running hash of the item that produces its node.
pub open spec fn hashes_after_steps(
    path: Seq<MerklePathItem>,
    leaf: MerkleHash,
    hashes: Map<(usize, usize), MerkleHash>,
    steps: int,
) -> Map<(usize, usize), MerkleHash> {
    Map::new(
        |key: (usize, usize)|
            hashes.contains_key(key) || (is_ancestor_key(path, key) && path.len() - 1 - key.0
                < steps),
        |key: (usize, usize)|
            if hashes.contains_key(key) {
                hashes[key]
            } else {
                running_hash(path, leaf, hashes, path.len() - 1 - key.0)
            },
    )
}

/// The hashes in the cache after the whole walk.
pub open spec fn hashes_after_root(
    path: Seq<MerklePathItem>,
    leaf: MerkleHash,
    hashes: Map<(usize, usize), MerkleHash>,
) -> Map<(usize, usize), MerkleHash> {
    hashes_after_steps(path, leaf, hashes, path.len() as int)
}

/// The given nodes that go into the cache: all but the two leaf-level ones.
pub open spec fn cacheable_given(path: Seq<MerklePathItem>) -> Seq<NodeCoordinates> {
    if path.len() == 0 {
        Seq::empty()
    } else {
        given_coordinates(path).take(path.len() - 1)
    }
}

/// The leaf under which a non-empty path's cache entries are recorded: the
/// index of the last given node.
pub open spec fn recorded_leaf(path: Seq<MerklePathItem>) -> usize {
    given_coordinates(path).last().index
}

/// On a path that fits the machine word, the coordinate consulted at a step
/// is the ancestor's, unchanged by the conversion to machine words.
pub proof fn lemma_consulted_key(path: Seq<MerklePathItem>, step: int)
    requires
        depth_fits(path.len()),
        consults(path, step),
    ensures
        consulted_key(path, step).0 == path.len() - 1 - step,
        consulted_key(path, step).1 == ancestor_index(path, (path.len() - 1 - step) as nat),
        is_ancestor_key(path, consulted_key(path, step)),
{
    let level = (path.len() - 1 - step) as nat;
    lemma_ancestor_index_bound(path, level);
    unsigned_int_max_values();
    lemma_pow2_strictly_increases(level, usize::BITS as nat);
}

/// Combines the running hash with the sibling of a path item.
fn combine_with(item: MerklePathItem, running: MerkleHash) -> (parent: MerkleHash)
    ensures
        parent == combine_step(item, running),
{
    match item.direction {
        Direction::Left => combine(running, item.hash),
        Direction::Right => combine(item.hash, running),
    }
}

/// What `update_cache` stores, level by level: on every level above the
/// leaf level the sibling's coordinate is filled afterwards, with the hash it
/// had or else with the hash that the path supplies for it, and nothing else
/// is added.
pub proof fn lemma_update_stores_siblings(
    path: Seq<MerklePathItem>,
    hashes: Map<(usize, usize), MerkleHash>,
)
    requires
        path.len() >= 1,
        depth_fits(path.len()),
    ensures
        forall|level: nat|
            1 <= level < path.len() ==> {
                let key = (level as usize, #[trigger] sibling_index(path, level) as usize);
                let after = extended_hashes(hashes, cacheable_given(path));
                &&& after.contains_key(key)
                &&& after[key] == if hashes.contains_key(key) {
                    hashes[key]
                } else {
                    item_at_level(path, level).hash
                }
            },
        forall|key: (usize, usize)| #[trigger]
            extended_hashes(hashes, cacheable_given(path)).contains_key(key)
                ==> hashes.contains_key(key) || (1 <= key.0 < path.len() && key.1 == sibling_index(
                path,
                key.0 as nat,
            )),
{
    let stored = cacheable_given(path);
    let after = extended_hashes(hashes, stored);
    lemma_extended_hashes(hashes, stored);
    lemma_indices_are_exact(path);
    assert forall|i: int| 0 <= i < stored.len() implies (#[trigger] stored[i]).level == i + 1
        && stored[i].index == sibling_index(path, (i + 1) as nat) && stored[i].hash == Some(
        item_at_level(path, (i + 1) as nat).hash,
    ) by {
        assert(stored[i] == given_coordinates(path)[i]);
    }
    assert forall|level: nat| 1 <= level < path.len() implies {
        let key = (level as usize, #[trigger] sibling_index(path, level) as usize);
        &&& after.contains_key(key)
        &&& after[key] == if hashes.contains_key(key) {
            hashes[key]
        } else {
            item_at_level(path, level).hash
        }
    } by {
        let i = level - 1;
        assert(stored[i].key() == (level as usize, sibling_index(path, level) as usize));
        assert(names_first(stored, i)) by {
            assert forall|j: int| 0 <= j < i implies (#[trigger] stored[j]).key()
                != stored[i].key() by {
                assert(stored[j].level == j + 1);
            }
        }
    }
    assert forall|key: (usize, usize)| #[trigger]
        after.contains_key(key) implies hashes.contains_key(key) || (1 <= key.0 < path.len()
        && key.1 == sibling_index(path, key.0 as nat)) by {
        if !hashes.contains_key(key) {
            let i = choose|i: int| 0 <= i < stored.len() && (#[trigger] stored[i]).key() == key;
            assert(stored[i].level == i + 1);
        }
    }
}

impl MerklePathWrapper {
    /// Recomputes the root for the leaf hash `item`, reading and filling
    /// `cached_nodes`. The empty path gives the all-zero hash and leaves the
    /// cache alone.
    pub fn calculate_root_hash(&self, item: MerkleHash, cached_nodes: &mut CachedNodes) -> (root:
        MerkleHash)
        requires
            depth_fits(self@.len()),
        ensures
            self@.len() == 0 ==> root.is_zero() && final(cached_nodes)@ == old(cached_nodes)@,
            self@.len() > 0 ==> root == root_hash(self@, item, old(cached_nodes)@.hashes),
            self@.len() > 0 ==> final(cached_nodes)@.hashes == hashes_after_root(
                self@,
                item,
                old(cached_nodes)@.hashes,
            ),
            old(cached_nodes)@.hashes.submap_of(final(cached_nodes)@.hashes),
            final(cached_nodes)@.hashes.dom().finite(),
            final(cached_nodes)@.by_leaf == old(cached_nodes)@.by_leaf,
    {
        let items = self.items();
        let tree_depth = items.len();
        proof {
            cached_nodes.lemma_view_is_finite();
        }
        if tree_depth == 0 {
            return MerkleHash::default();
        }
        let ghost path = self@;
        let ghost before = cached_nodes@.hashes;
        let (_, node_coordinates_to_calculate) = self.get_node_coordinates();
        let nodes_to_calculate = node_coordinates_to_calculate.len();
        let mut hash = combine_with(items[0], item);
        proof {
            assert(cached_nodes@.hashes =~= hashes_after_steps(path, item, before, 1));
        }
        let mut item_idx: usize = 1;
        while item_idx < tree_depth
            invariant
                items@ == path,
                tree_depth == path.len(),
                depth_fits(path.len()),
                1 <= item_idx <= tree_depth,
                nodes_to_calculate == tree_depth - 1,
                node_coordinates_to_calculate@ == to_calculate_coordinates(path),
                hash == running_hash(path, item, before, item_idx - 1),
                cached_nodes@.hashes == hashes_after_steps(path, item, before, item_idx as int),
                cached_nodes@.by_leaf == old(cached_nodes)@.by_leaf,
            decreases tree_depth - item_idx,
        {
            let merkle_path_item = items[item_idx];
            if item_idx + 1 < tree_depth {
                // the node that this item produces lies below the root
                let node = &node_coordinates_to_calculate[nodes_to_calculate - 1 - item_idx];
                proof {
                    lemma_consulted_key(path, item_idx as int);
                    assert((node.level, node.index) == consulted_key(path, item_idx as int));
                }
                match cached_nodes.get(node.level, node.index) {
                    Some(cached_hash) => {
                        hash = cached_hash;
                    },
                    None => {
                        hash = combine_with(merkle_path_item, hash);
                        cached_nodes.put(node.level, node.index, hash);
                    },
                }
            } else {
                hash = combine_with(merkle_path_item, hash);
            }
            proof {
                assert(cached_nodes@.hashes =~= hashes_after_steps(
                    path,
                    item,
                    before,
                    item_idx + 1,
                ));
            }
            item_idx += 1;
        }
        proof {
            cached_nodes.lemma_view_is_finite();
        }
        hash
    }

    /// Puts the hashes that the path supplies for interior levels into the
    /// cache: every given node but the two on the leaf level, each unless its
    /// coordinate is filled already. What it fills is recorded for the leaf
    /// index of the last given node. The empty path changes nothing.
    pub fn update_cache(&self, cache: &mut CachedNodes)
        requires
            depth_fits(self@.len()),
        ensures
            final(cache)@.hashes == extended_hashes(old(cache)@.hashes, cacheable_given(self@)),
            old(cache)@.hashes.submap_of(final(cache)@.hashes),
            final(cache)@.hashes.dom().finite(),
            final(cache)@.by_leaf == record_appended(
                old(cache)@.by_leaf,
                recorded_leaf(self@),
                newly_filled(old(cache)@.hashes, cacheable_given(self@)),
            ),
    {
        let (given_nodes, _) = self.get_node_coordinates();
        let count = given_nodes.len();
        proof {
            cache.lemma_view_is_finite();
        }
        if count == 0 {
            return ;
        }
        let leaf_index = given_nodes[count - 1].index;
        let interior = slice_subrange(given_nodes.as_slice(), 0, count - 2);
        proof {
            assert(interior@ == cacheable_given(self@));
        }
        cache.extend_from_given(interior, leaf_index);
    }
}

} // verus!
