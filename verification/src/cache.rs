//! The cache of interior hashes of one tree snapshot.
//!
//! Hashes are stored under their `(level, index)` coordinate and never
//! replaced or removed. Beside them the cache keeps, for each leaf, the list
//! of coordinates that the leaf's proof was the first to fill, so that a
//! caller can later tell which entries belong to which leaf.

use crate::coordinates::NodeCoordinates;
use crate::hash::MerkleHash;
use std::collections::{BTreeMap, HashMap};
use vstd::prelude::*;

verus! {

/// What a cache holds: the hash of each filled coordinate, and the
/// coordinates recorded for each leaf, in the order in which they were filled.
pub struct CachedNodesView {
    pub hashes: Map<(usize, usize), MerkleHash>,
    pub by_leaf: Map<usize, Seq<(usize, usize)>>,
}

/// Hashes of interior nodes by coordinate, shared by the proofs of one tree
/// snapshot.
#[derive(Debug, PartialEq, Eq)]
pub struct CachedNodes {
    inner: BTreeMap<(usize, usize), MerkleHash>,
    path_item_cache_mapping: HashMap<usize, Vec<(usize, usize)>>,
}

impl View for CachedNodes {
    type V = CachedNodesView;

    closed spec fn view(&self) -> CachedNodesView {
        CachedNodesView {
            hashes: self.inner@,
            by_leaf: Map::new(
                |leaf: usize| self.path_item_cache_mapping@.contains_key(leaf),
                |leaf: usize| self.path_item_cache_mapping@[leaf]@,
            ),
        }
    }
}

/// The map after a first-writer-wins store: a coordinate that is already
/// filled keeps its hash.
pub open spec fn put_if_absent(
    hashes: Map<(usize, usize), MerkleHash>,
    key: (usize, usize),
    hash: MerkleHash,
) -> Map<(usize, usize), MerkleHash> {
    if hashes.contains_key(key) {
        hashes
    } else {
        hashes.insert(key, hash)
    }
}

/// The coordinates recorded for `leaf`: none if the leaf is unknown.
pub open spec fn recorded(by_leaf: Map<usize, Seq<(usize, usize)>>, leaf: usize) -> Seq<
    (usize, usize),
> {
    if by_leaf.contains_key(leaf) {
        by_leaf[leaf]
    } else {
        Seq::empty()
    }
}

/// The records after `coordinates` were appended to those of `leaf`. An empty
/// list changes nothing: a leaf without coordinates gets no entry.
pub open spec fn record_appended(
    by_leaf: Map<usize, Seq<(usize, usize)>>,
    leaf: usize,
    coordinates: Seq<(usize, usize)>,
) -> Map<usize, Seq<(usize, usize)>> {
    if coordinates.len() == 0 {
        by_leaf
    } else {
        by_leaf.insert(leaf, recorded(by_leaf, leaf) + coordinates)
    }
}

/// The hashes after the nodes of a list were stored one after the other,
/// each unless its coordinate was filled by then.
pub open spec fn extended_hashes(
    hashes: Map<(usize, usize), MerkleHash>,
    nodes: Seq<NodeCoordinates>,
) -> Map<(usize, usize), MerkleHash>
    decreases nodes.len(),
{
    if nodes.len() == 0 {
        hashes
    } else {
        let node = nodes.last();
        put_if_absent(extended_hashes(hashes, nodes.drop_last()), node.key(), node.hash.unwrap())
    }
}

/// The coordinates that the nodes of a list fill when they are stored one
/// after the other: those that were free when their turn came, in list order.
pub open spec fn newly_filled(
    hashes: Map<(usize, usize), MerkleHash>,
    nodes: Seq<NodeCoordinates>,
) -> Seq<(usize, usize)>
    decreases nodes.len(),
{
    if nodes.len() == 0 {
        Seq::empty()
    } else {
        let node = nodes.last();
        let earlier = newly_filled(hashes, nodes.drop_last());
        if extended_hashes(hashes, nodes.drop_last()).contains_key(node.key()) {
            earlier
        } else {
            earlier.push(node.key())
        }
    }
}

/// Whether every node of a list that has to be stored brings a hash: a node
/// without one must find its coordinate filled when its turn comes.
pub open spec fn can_extend(
    hashes: Map<(usize, usize), MerkleHash>,
    nodes: Seq<NodeCoordinates>,
) -> bool {
    forall|i: int|
        0 <= i < nodes.len() && (#[trigger] nodes[i]).hash is None ==> extended_hashes(
            hashes,
            nodes.take(i),
        ).contains_key(nodes[i].key())
}

/// Whether node `i` is the first of the list to name its coordinate.
pub open spec fn names_first(nodes: Seq<NodeCoordinates>, i: int) -> bool {
    forall|j: int| 0 <= j < i ==> (#[trigger] nodes[j]).key() != nodes[i].key()
}

/// Storing a list of nodes keeps a finite map finite.
pub proof fn lemma_extended_hashes_finite(
    hashes: Map<(usize, usize), MerkleHash>,
    nodes: Seq<NodeCoordinates>,
)
    requires
        hashes.dom().finite(),
    ensures
        extended_hashes(hashes, nodes).dom().finite(),
        extended_hashes(hashes, nodes).len() <= hashes.len() + nodes.len(),
    decreases nodes.len(),
{
    if nodes.len() > 0 {
        lemma_extended_hashes_finite(hashes, nodes.drop_last());
    }
}

/// Storing twice under one coordinate is storing once: the second call
/// changes nothing, whether it brings the same hash or another one, and a
/// coordinate that was filled before keeps the hash it had.
pub proof fn lemma_put_is_idempotent(
    hashes: Map<(usize, usize), MerkleHash>,
    key: (usize, usize),
    first: MerkleHash,
    second: MerkleHash,
)
    ensures
        put_if_absent(put_if_absent(hashes, key, first), key, first) == put_if_absent(
            hashes,
            key,
            first,
        ),
        put_if_absent(put_if_absent(hashes, key, first), key, second) == put_if_absent(
            hashes,
            key,
            first,
        ),
        hashes.contains_key(key) ==> put_if_absent(hashes, key, second) == hashes,
        !hashes.contains_key(key) ==> put_if_absent(hashes, key, first)[key] == first,
{
}

/// Storing a list of nodes fills exactly the coordinates of the list beside
/// those that were filled, and replaces no hash. A coordinate that was free
/// gets the hash of the first node of the list that names it.
pub proof fn lemma_extended_hashes(
    hashes: Map<(usize, usize), MerkleHash>,
    nodes: Seq<NodeCoordinates>,
)
    ensures
        hashes.submap_of(extended_hashes(hashes, nodes)),
        forall|i: int|
            0 <= i < nodes.len() ==> extended_hashes(hashes, nodes).contains_key(
                (#[trigger] nodes[i]).key(),
            ),
        forall|key: (usize, usize)| #[trigger]
            extended_hashes(hashes, nodes).contains_key(key) ==> hashes.contains_key(key) || exists|
                i: int,
            |
                0 <= i < nodes.len() && (#[trigger] nodes[i]).key() == key,
        forall|i: int|
            0 <= i < nodes.len() && !hashes.contains_key(nodes[i].key()) && #[trigger] names_first(
                nodes,
                i,
            ) ==> extended_hashes(hashes, nodes)[nodes[i].key()] == nodes[i].hash.unwrap(),
    decreases nodes.len(),
{
    if nodes.len() > 0 {
        let earlier = nodes.drop_last();
        lemma_extended_hashes(hashes, earlier);
        let after = extended_hashes(hashes, nodes);
        assert forall|key: (usize, usize)| after.contains_key(key) implies hashes.contains_key(key)
            || exists|i: int| 0 <= i < nodes.len() && (#[trigger] nodes[i]).key() == key by {
            if !hashes.contains_key(key) {
                if extended_hashes(hashes, earlier).contains_key(key) {
                    let i = choose|i: int|
                        0 <= i < earlier.len() && (#[trigger] earlier[i]).key() == key;
                    assert(nodes[i].key() == key);
                } else {
                    assert(nodes[nodes.len() - 1].key() == key);
                }
            }
        }
        assert forall|i: int| 0 <= i < nodes.len() implies after.contains_key(
            (#[trigger] nodes[i]).key(),
        ) by {
            if i < nodes.len() - 1 {
                assert(earlier[i].key() == nodes[i].key());
            }
        }
        assert forall|i: int|
            0 <= i < nodes.len() && !hashes.contains_key(nodes[i].key()) && #[trigger] names_first(
                nodes,
                i,
            ) implies after[nodes[i].key()] == nodes[i].hash.unwrap() by {
            let key = nodes[i].key();
            if i < nodes.len() - 1 {
                assert(earlier[i] == nodes[i]);
                assert(names_first(earlier, i)) by {
                    assert forall|j: int| 0 <= j < i implies (#[trigger] earlier[j]).key()
                        != key by {
                        assert(nodes[j].key() != key);
                    }
                }
            } else {
                if extended_hashes(hashes, earlier).contains_key(key) {
                    let j = choose|j: int|
                        0 <= j < earlier.len() && (#[trigger] earlier[j]).key() == key;
                    assert(nodes[j].key() == key);
                }
            }
        }
    }
}

impl CachedNodes {
    /// A cache holds finitely many hashes and records finitely many leaves,
    /// whatever was done to it.
    pub proof fn lemma_view_is_finite(&self)
        ensures
            self@.hashes.dom().finite(),
            self@.by_leaf.dom().finite(),
    {
        assert(self@.by_leaf.dom() =~= self.path_item_cache_mapping@.dom());
    }

    /// An empty cache, for a new tree snapshot.
    pub fn new() -> (cache: Self)
        ensures
            cache@.hashes == Map::<(usize, usize), MerkleHash>::empty(),
            cache@.by_leaf == Map::<usize, Seq<(usize, usize)>>::empty(),
            cache@.hashes.dom().finite(),
    {
        Self { inner: BTreeMap::new(), path_item_cache_mapping: HashMap::new() }
    }

    /// The hash stored for a coordinate, if there is one.
    pub fn get(&self, level: usize, index: usize) -> (found: Option<MerkleHash>)
        ensures
            found == if self@.hashes.contains_key((level, index)) {
                Some(self@.hashes[(level, index)])
            } else {
                None
            },
    {
        match self.inner.get(&(level, index)) {
            Some(hash) => Some(*hash),
            None => None,
        }
    }

    /// Stores `hash` for a coordinate that has none yet. A coordinate that is
    /// already filled keeps its hash, whatever `hash` is.
    pub fn put(&mut self, level: usize, index: usize, hash: MerkleHash)
        ensures
            final(self)@.hashes == put_if_absent(old(self)@.hashes, (level, index), hash),
            final(self)@.hashes.contains_key((level, index)),
            old(self)@.hashes.submap_of(final(self)@.hashes),
            final(self)@.hashes.dom().finite(),
            final(self)@.by_leaf == old(self)@.by_leaf,
    {
        if !self.inner.contains_key(&(level, index)) {
            self.inner.insert((level, index), hash);
        }
    }

    /// The coordinates recorded for a leaf, oldest first, if the leaf has any.
    pub fn recorded_for_leaf(&self, leaf_index: usize) -> (found: Option<&Vec<(usize, usize)>>)
        ensures
            match found {
                Some(list) => self@.by_leaf.contains_key(leaf_index) && list@
                    == self@.by_leaf[leaf_index],
                None => !self@.by_leaf.contains_key(leaf_index),
            },
    {
        self.path_item_cache_mapping.get(&leaf_index)
    }

    /// Appends `coordinates` to the record of a leaf. The hashes are not
    /// touched, and an empty list leaves the cache as it is.
    pub fn record_for_leaf(&mut self, leaf_index: usize, coordinates: &[(usize, usize)])
        ensures
            final(self)@.hashes == old(self)@.hashes,
            final(self)@.hashes.dom().finite(),
            final(self)@.by_leaf == record_appended(old(self)@.by_leaf, leaf_index, coordinates@),
    {
        let count = coordinates.len();
        if count == 0 {
            return ;
        }
        let mut list = match self.path_item_cache_mapping.remove(&leaf_index) {
            Some(list) => list,
            None => Vec::new(),
        };
        let ghost before = list@;
        let mut i: usize = 0;
        while i < count
            invariant
                count == coordinates@.len(),
                i <= count,
                list@ == before + coordinates@.take(i as int),
            decreases count - i,
        {
            list.push(coordinates[i]);
            i += 1;
        }
        self.path_item_cache_mapping.insert(leaf_index, list);
        proof {
            assert(coordinates@.take(count as int) == coordinates@);
            assert(before == recorded(old(self)@.by_leaf, leaf_index));
            assert(self@.by_leaf =~= record_appended(
                old(self)@.by_leaf,
                leaf_index,
                coordinates@,
            ));
        }
    }

    /// Stores the hashes of `given_nodes`, in list order, under their
    /// coordinates, skipping every coordinate that is filled by then, and
    /// records the coordinates that it filled for `leaf_index`.
    pub fn extend_from_given(&mut self, given_nodes: &[NodeCoordinates], leaf_index: usize)
        requires
            can_extend(old(self)@.hashes, given_nodes@),
        ensures
            final(self)@.hashes == extended_hashes(old(self)@.hashes, given_nodes@),
            old(self)@.hashes.submap_of(final(self)@.hashes),
            final(self)@.hashes.dom().finite(),
            final(self)@.by_leaf == record_appended(
                old(self)@.by_leaf,
                leaf_index,
                newly_filled(old(self)@.hashes, given_nodes@),
            ),
    {
        let count = given_nodes.len();
        let mut filled: Vec<(usize, usize)> = Vec::new();
        let mut i: usize = 0;
        while i < count
            invariant
                count == given_nodes@.len(),
                i <= count,
                can_extend(old(self)@.hashes, given_nodes@),
                self@.hashes == extended_hashes(old(self)@.hashes, given_nodes@.take(i as int)),
                self@.by_leaf == old(self)@.by_leaf,
                filled@ == newly_filled(old(self)@.hashes, given_nodes@.take(i as int)),
            decreases count - i,
        {
            let node = &given_nodes[i];
            proof {
                assert(given_nodes@.take(i + 1).drop_last() == given_nodes@.take(i as int));
                assert(given_nodes@[i as int] == node);
            }
            if self.get(node.level, node.index).is_none() {
                self.put(node.level, node.index, node.hash.unwrap());
                filled.push((node.level, node.index));
            }
            i += 1;
        }
        proof {
            assert(given_nodes@.take(count as int) == given_nodes@);
            lemma_extended_hashes(old(self)@.hashes, given_nodes@);
        }
        self.record_for_leaf(leaf_index, filled.as_slice());
    }
}

} // verus!
