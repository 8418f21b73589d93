//! Tree coordinates of the nodes that an authentication path touches.
//!
//! Levels count the distance from the root: the root's children are on level
//! 1, the leaf of a path of `depth` items on level `depth`. Level `l` has
//! `2^l` slots, indexed from 0; the children of slot `i` are the slots `2i`
//! and `2i + 1` of the next level.

use crate::hash::MerkleHash;
use crate::path::{depth_fits, Direction, MerklePathItem, MerklePathWrapper};
use vstd::arithmetic::power2::{
    lemma_pow2_pos, lemma_pow2_strictly_increases, lemma_pow2_unfold, pow2,
};
use vstd::layout::unsigned_int_max_values;
use vstd::prelude::*;

verus! {

/// A slot of the tree, with the hash that is known for it, if any.
#[derive(Clone, Copy, Debug, PartialEq, Eq)]
pub struct NodeCoordinates {
    pub index: usize,
    pub level: usize,
    pub hash: Option<MerkleHash>,
}

impl NodeCoordinates {
    /// The slot exists: it lies below the root, on one of the `2^level`
    /// places of its level.
    pub open spec fn wf(&self) -> bool {
        self.level >= 1 && self.index < pow2(self.level as nat)
    }

    /// The slot without its hash, level first.
    pub open spec fn key(&self) -> (usize, usize) {
        (self.level, self.index)
    }
}

/// The other child of the same parent.
pub open spec fn twin(index: nat) -> nat {
    if index % 2 == 0 {
        index + 1
    } else {
        (index - 1) as nat
    }
}

/// The path item whose sibling stands on `level`, for `1 <= level <= depth`.
pub open spec fn item_at_level(path: Seq<MerklePathItem>, level: nat) -> MerklePathItem {
    path[path.len() - level]
}

/// Index, on `level`, of the node on the way from the root to the leaf: the
/// node whose hash has to be derived. Level 0 is the root itself. Going down
/// one level, a `Left` sibling sends the way to the odd child, a `Right`
/// sibling to the even one.
pub open spec fn ancestor_index(path: Seq<MerklePathItem>, level: nat) -> nat
    decreases level,
{
    if level == 0 || level > path.len() {
        0
    } else {
        let above = ancestor_index(path, (level - 1) as nat);
        match item_at_level(path, level).direction {
            Direction::Left => 2 * above + 1,
            Direction::Right => 2 * above,
        }
    }
}

/// Index, on `level`, of the sibling that the path supplies there.
pub open spec fn sibling_index(path: Seq<MerklePathItem>, level: nat) -> nat {
    twin(ancestor_index(path, level))
}

/// Index of the first of the two leaf-level slots. In a tree of two leaves it
/// is the sibling's slot; in a deeper tree it is the even child of the
/// leaf's parent, whatever the side of the last sibling.
pub open spec fn leaf_pair_first(path: Seq<MerklePathItem>) -> nat {
    if path.len() == 1 {
        sibling_index(path, 1)
    } else {
        2 * ancestor_index(path, (path.len() - 1) as nat)
    }
}

/// Entry `i` of the list of given nodes of a non-empty path. Entries
/// `0 .. depth - 1` are the siblings on the levels `1 .. depth - 1`, each
/// with the hash that the path supplies; the last two are the two leaf-level
/// slots, both with the hash of the leaf's sibling.
pub open spec fn given_entry(path: Seq<MerklePathItem>, i: int) -> NodeCoordinates {
    let depth = path.len();
    if i < depth - 1 {
        NodeCoordinates {
            index: sibling_index(path, (i + 1) as nat) as usize,
            level: (i + 1) as usize,
            hash: Some(item_at_level(path, (i + 1) as nat).hash),
        }
    } else if i == depth - 1 {
        NodeCoordinates {
            index: leaf_pair_first(path) as usize,
            level: depth as usize,
            hash: Some(path[0].hash),
        }
    } else {
        NodeCoordinates {
            index: twin(leaf_pair_first(path)) as usize,
            level: depth as usize,
            hash: Some(path[0].hash),
        }
    }
}

/// The nodes whose hash is known without hashing, from level 1 down to the
/// leaf level: `depth + 1` of them, none for the empty path.
pub open spec fn given_coordinates(path: Seq<MerklePathItem>) -> Seq<NodeCoordinates> {
    if path.len() == 0 {
        Seq::empty()
    } else {
        Seq::new(path.len() + 1, |i: int| given_entry(path, i))
    }
}

/// Entry `i` of the list of nodes to calculate: the ancestor of the leaf on
/// level `i + 1`, with no hash.
pub open spec fn to_calculate_entry(path: Seq<MerklePathItem>, i: int) -> NodeCoordinates {
    NodeCoordinates {
        index: ancestor_index(path, (i + 1) as nat) as usize,
        level: (i + 1) as usize,
        hash: None,
    }
}

/// The nodes whose hash has to be derived, from level 1 down to the level
/// above the leaf: `depth - 1` of them, none for a path of at most one item.
pub open spec fn to_calculate_coordinates(path: Seq<MerklePathItem>) -> Seq<NodeCoordinates> {
    if path.len() == 0 {
        Seq::empty()
    } else {
        Seq::new((path.len() - 1) as nat, |i: int| to_calculate_entry(path, i))
    }
}

/// The shape of the two lists of a path of `depth >= 1` items. Both run from
/// level 1 downwards. Each level above the leaf level has one given node and
/// one node to calculate, which are the two children of one parent; the leaf
/// level has two given nodes, again the children of one parent, and no node
/// to calculate. Every node is one of the `2^level` slots of its level, and
/// no list names a slot twice.
pub open spec fn lists_cover_levels(
    depth: nat,
    given: Seq<NodeCoordinates>,
    to_calculate: Seq<NodeCoordinates>,
) -> bool {
    &&& given.len() == depth + 1
    &&& to_calculate.len() == depth - 1
    &&& forall|i: int| 0 <= i < depth ==> (#[trigger] given[i]).level == i + 1
    &&& given[depth as int].level == depth
    &&& forall|i: int| 0 <= i < depth - 1 ==> (#[trigger] to_calculate[i]).level == i + 1
    &&& forall|i: int| 0 <= i < depth + 1 ==> (#[trigger] given[i]).wf()
    &&& forall|i: int| 0 <= i < depth - 1 ==> (#[trigger] to_calculate[i]).wf()
    &&& forall|i: int, j: int|
        0 <= i < j < depth + 1 ==> (#[trigger] given[i]).key() != (#[trigger] given[j]).key()
    &&& forall|i: int, j: int|
        0 <= i < j < depth - 1 ==> (#[trigger] to_calculate[i]).key() != (
        #[trigger] to_calculate[j]).key()
    &&& forall|i: int|
        0 <= i < depth - 1 ==> (#[trigger] given[i]).index == twin(to_calculate[i].index as nat)
    &&& given[depth as int].index == twin(given[depth - 1].index as nat)
}

/// An ancestor's index addresses one of the `2^level` slots of its level.
pub proof fn lemma_ancestor_index_bound(path: Seq<MerklePathItem>, level: nat)
    ensures
        ancestor_index(path, level) < pow2(level),
    decreases level,
{
    lemma_pow2_pos(level);
    if level != 0 && level <= path.len() {
        lemma_ancestor_index_bound(path, (level - 1) as nat);
        lemma_pow2_unfold(level);
    }
}

/// On a level that fits the machine word, twice an index of the level above
/// still fits, and so does its twin.
proof fn lemma_child_index_fits(above: nat, level: nat)
    requires
        1 <= level <= usize::BITS,
        above < pow2((level - 1) as nat),
    ensures
        2 * above + 1 < pow2(level),
        2 * above + 1 <= usize::MAX,
{
    lemma_pow2_unfold(level);
    unsigned_int_max_values();
    if level < usize::BITS {
        lemma_pow2_strictly_increases(level, usize::BITS as nat);
    }
}

/// Below the root, the twin of a slot is a slot of the same level.
proof fn lemma_twin_bound(index: nat, level: nat)
    requires
        level >= 1,
        index < pow2(level),
    ensures
        twin(index) < pow2(level),
        twin(index) != index,
{
    lemma_pow2_unfold(level);
}

/// A slot of a level that fits the machine word is a machine word itself.
proof fn lemma_slot_fits(index: nat, level: nat)
    requires
        level <= usize::BITS,
        index < pow2(level),
    ensures
        index <= usize::MAX,
{
    unsigned_int_max_values();
    if level < usize::BITS {
        lemma_pow2_strictly_increases(level, usize::BITS as nat);
    }
}

/// On a level of a path that fits the machine word, the ancestor and the
/// sibling are two different slots of the level, and both are machine words.
proof fn lemma_level_indices(path: Seq<MerklePathItem>, level: nat)
    requires
        1 <= level <= path.len(),
        depth_fits(path.len()),
    ensures
        ancestor_index(path, level) < pow2(level),
        sibling_index(path, level) < pow2(level),
        ancestor_index(path, level) <= usize::MAX,
        sibling_index(path, level) <= usize::MAX,
        sibling_index(path, level) != ancestor_index(path, level),
{
    lemma_ancestor_index_bound(path, level);
    lemma_twin_bound(ancestor_index(path, level), level);
    lemma_slot_fits(ancestor_index(path, level), level);
    lemma_slot_fits(sibling_index(path, level), level);
}

/// The lists that a path stands for have the shape `lists_cover_levels`.
pub proof fn lemma_lists_cover_levels(path: Seq<MerklePathItem>)
    requires
        path.len() >= 1,
        depth_fits(path.len()),
    ensures
        lists_cover_levels(path.len(), given_coordinates(path), to_calculate_coordinates(path)),
{
    let depth = path.len();
    let given = given_coordinates(path);
    let to_calculate = to_calculate_coordinates(path);
    let first = leaf_pair_first(path);
    assert(first < pow2(depth) && twin(first) < pow2(depth) && twin(first) != first) by {
        if depth > 1 {
            lemma_ancestor_index_bound(path, (depth - 1) as nat);
            lemma_pow2_unfold(depth);
        } else {
            lemma_level_indices(path, 1);
        }
        lemma_twin_bound(first, depth);
    }
    lemma_slot_fits(first, depth);
    lemma_slot_fits(twin(first), depth);
    assert forall|i: int| 0 <= i < depth + 1 implies (#[trigger] given[i]).wf() by {
        if i < depth - 1 {
            lemma_level_indices(path, (i + 1) as nat);
        }
    }
    assert forall|i: int| 0 <= i < depth - 1 implies (#[trigger] to_calculate[i]).wf() by {
        lemma_level_indices(path, (i + 1) as nat);
    }
    assert forall|i: int| 0 <= i < depth - 1 implies (#[trigger] given[i]).index == twin(
        to_calculate[i].index as nat,
    ) by {
        lemma_level_indices(path, (i + 1) as nat);
    }
    assert forall|i: int, j: int| 0 <= i < j < depth + 1 implies (#[trigger] given[i]).key() != (
    #[trigger] given[j]).key() by {
        if j < depth - 1 {
            lemma_level_indices(path, (i + 1) as nat);
            lemma_level_indices(path, (j + 1) as nat);
        }
    }
}

/// On a path that fits the machine word no index of the two lists is cut
/// short: above the leaf level the lists hold the sibling's and the
/// ancestor's index as they are.
pub proof fn lemma_indices_are_exact(path: Seq<MerklePathItem>)
    requires
        path.len() >= 1,
        depth_fits(path.len()),
    ensures
        forall|i: int|
            0 <= i < path.len() - 1 ==> {
                &&& (#[trigger] given_coordinates(path)[i]).level == i + 1
                &&& given_coordinates(path)[i].index == sibling_index(path, (i + 1) as nat)
            },
        forall|i: int|
            0 <= i < path.len() - 1 ==> {
                &&& (#[trigger] to_calculate_coordinates(path)[i]).level == i + 1
                &&& to_calculate_coordinates(path)[i].index == ancestor_index(
                    path,
                    (i + 1) as nat,
                )
            },
        forall|level: nat|
            1 <= level <= path.len() ==> #[trigger] sibling_index(path, level) != ancestor_index(
                path,
                level,
            ),
{
    assert forall|level: nat| 1 <= level <= path.len() implies #[trigger] sibling_index(
        path,
        level,
    ) != ancestor_index(path, level) by {
        lemma_level_indices(path, level);
    }
    assert forall|i: int| 0 <= i < path.len() - 1 implies (#[trigger] given_coordinates(
        path,
    )[i]).index == sibling_index(path, (i + 1) as nat) by {
        lemma_level_indices(path, (i + 1) as nat);
    }
    assert forall|i: int| 0 <= i < path.len() - 1 implies (#[trigger] to_calculate_coordinates(
        path,
    )[i]).index == ancestor_index(path, (i + 1) as nat) by {
        lemma_level_indices(path, (i + 1) as nat);
    }
}

/// Flipping the lowest bit of a machine word gives the twin.
proof fn lemma_xor_one_is_twin(index: usize)
    ensures
        (index ^ 1) == twin(index as nat),
{
    assert(index % 2 == 0 ==> (index ^ 1) == index + 1) by (bit_vector);
    assert(index % 2 == 1 ==> (index ^ 1) == index - 1) by (bit_vector);
}

impl MerklePathWrapper {
    /// Derives the coordinates of the nodes that the path touches: first the
    /// given ones, then the ones to calculate, both from level 1 downwards.
    pub fn get_node_coordinates(&self) -> (lists: (Vec<NodeCoordinates>, Vec<NodeCoordinates>))
        requires
            depth_fits(self@.len()),
        ensures
            lists.0@ == given_coordinates(self@),
            lists.1@ == to_calculate_coordinates(self@),
            self@.len() > 0 ==> lists_cover_levels(self@.len(), lists.0@, lists.1@),
    {
        let items = self.items();
        let tree_depth = items.len();
        let ghost path = self@;
        let mut node_coordinates_given: Vec<NodeCoordinates> = Vec::new();
        let mut node_coordinates_to_calculate: Vec<NodeCoordinates> = Vec::new();
        let mut depth: usize = 0;
        let mut idx_given: usize = 0;
        let mut idx_to_calculate: usize = 0;
        while depth < tree_depth
            invariant
                items@ == path,
                tree_depth == path.len(),
                depth_fits(path.len()),
                depth <= tree_depth,
                depth == 0 ==> idx_given == 0 && idx_to_calculate == 0,
                depth < tree_depth ==> idx_to_calculate == ancestor_index(path, depth as nat),
                depth < tree_depth ==> node_coordinates_given@.len() == depth,
                depth == tree_depth && depth > 0 ==> node_coordinates_given@.len() == depth + 1,
                depth == 0 ==> node_coordinates_given@.len() == 0,
                forall|i: int|
                    0 <= i < node_coordinates_given@.len() ==> node_coordinates_given@[i]
                        == given_entry(path, i),
                depth < tree_depth ==> node_coordinates_to_calculate@.len() == depth,
                depth == tree_depth && depth > 0 ==> node_coordinates_to_calculate@.len() == depth
                    - 1,
                depth == 0 ==> node_coordinates_to_calculate@.len() == 0,
                forall|i: int|
                    0 <= i < node_coordinates_to_calculate@.len()
                        ==> node_coordinates_to_calculate@[i] == to_calculate_entry(path, i),
            decreases tree_depth - depth,
        {
            proof {
                lemma_ancestor_index_bound(path, depth as nat);
                lemma_child_index_fits(ancestor_index(path, depth as nat), (depth + 1) as nat);
            }
            depth += 1;
            let el = items[tree_depth - depth];
            if depth == 1 {
                match el.direction {
                    Direction::Left => {
                        idx_to_calculate = 1;
                    },
                    Direction::Right => {
                        idx_given = 1;
                        idx_to_calculate = 0;
                    },
                }
                node_coordinates_given.push(
                    NodeCoordinates { index: idx_given, level: depth, hash: Some(el.hash) },
                );
                if depth == tree_depth {
                    proof {
                        lemma_xor_one_is_twin(idx_given);
                    }
                    node_coordinates_given.push(
                        NodeCoordinates { index: idx_given ^ 1, level: depth, hash: Some(el.hash) },
                    );
                } else {
                    node_coordinates_to_calculate.push(
                        NodeCoordinates { index: idx_to_calculate, level: depth, hash: None },
                    );
                }
            } else if depth == tree_depth {
                idx_to_calculate = idx_to_calculate * 2;
                idx_given = idx_to_calculate;
                proof {
                    lemma_xor_one_is_twin(idx_given);
                }
                // both nodes are given on the leaf level
                node_coordinates_given.push(
                    NodeCoordinates { index: idx_given, level: depth, hash: Some(el.hash) },
                );
                node_coordinates_given.push(
                    NodeCoordinates { index: idx_given ^ 1, level: depth, hash: Some(el.hash) },
                );
            } else {
                // move to the children
                idx_to_calculate = idx_to_calculate * 2;
                idx_given = idx_to_calculate;
                proof {
                    lemma_xor_one_is_twin(idx_given);
                }
                match el.direction {
                    Direction::Left => {
                        idx_to_calculate = idx_to_calculate ^ 1;
                    },
                    Direction::Right => {
                        idx_given = idx_given ^ 1;
                    },
                }
                node_coordinates_given.push(
                    NodeCoordinates { index: idx_given, level: depth, hash: Some(el.hash) },
                );
                node_coordinates_to_calculate.push(
                    NodeCoordinates { index: idx_to_calculate, level: depth, hash: None },
                );
            }
        }
        proof {
            if tree_depth > 0 {
                lemma_lists_cover_levels(path);
            }
        }
        (node_coordinates_given, node_coordinates_to_calculate)
    }
}

} // verus!
