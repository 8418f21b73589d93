use merkle_cache::{
    CachedNodes, Direction, MerkleHash, MerklePath, MerklePathItem, MerklePathWrapper,
};
use near_primitives::hash::CryptoHash;
use near_primitives::merkle::{combine_hash, compute_root_from_path_and_item, merklize};

fn hash_of(byte: u8) -> MerkleHash {
    MerkleHash { bytes: [byte; 32] }
}

fn item(direction: Direction, hash: MerkleHash) -> MerklePathItem {
    MerklePathItem { hash, direction }
}

/// The parent of two children as near-primitives hashes it.
fn parent(first: MerkleHash, second: MerkleHash) -> MerkleHash {
    MerkleHash { bytes: combine_hash(&CryptoHash(first.bytes), &CryptoHash(second.bytes)).0 }
}

/// A path of near-primitives in this crate's terms. There `Left` says that
/// the sibling is hashed first; here the sibling is hashed first for `Right`.
fn path_from_near(path: &near_primitives::merkle::MerklePath) -> MerklePath {
    path.iter()
        .map(|item| MerklePathItem {
            hash: MerkleHash { bytes: item.hash.0 },
            direction: match item.direction {
                near_primitives::merkle::Direction::Left => Direction::Right,
                near_primitives::merkle::Direction::Right => Direction::Left,
            },
        })
        .collect()
}

#[test]
fn test_merklelize() {
    let (root_hash, merkle_proofs) = merklize(&[1, 2, 3, 4, 5]);
    let mp = &merkle_proofs[0];
    let mp2 = &merkle_proofs[1];
    assert_eq!(compute_root_from_path_and_item(mp, &1), root_hash);
    assert_eq!(compute_root_from_path_and_item(mp2, &2), root_hash);

    let merkle_proof = merkle_proofs[0].clone();
    let wrapper = MerklePathWrapper::new(path_from_near(&merkle_proof));
    let mut cached_nodes = CachedNodes::new();
    wrapper.update_cache(&mut cached_nodes);

    assert_eq!(
        CryptoHash(
            wrapper
                .calculate_root_hash(
                    MerkleHash { bytes: CryptoHash::hash_borsh(&1).0 },
                    &mut cached_nodes
                )
                .bytes
        ),
        root_hash
    );
}

#[test]
fn default_hash_is_all_zero() {
    assert_eq!(MerkleHash::default(), MerkleHash { bytes: [0u8; 32] });
    assert_eq!(MerkleHash::default().bytes, CryptoHash::default().0);
}

#[test]
fn empty_path_gives_the_default_hash_and_leaves_the_cache() {
    let wrapper = MerklePathWrapper::new(vec![]);
    let mut cache = CachedNodes::new();
    cache.put(1, 0, hash_of(3));
    assert_eq!(wrapper.calculate_root_hash(hash_of(8), &mut cache), MerkleHash::default());
    wrapper.update_cache(&mut cache);
    let mut expected = CachedNodes::new();
    expected.put(1, 0, hash_of(3));
    assert_eq!(cache, expected);
}

#[test]
fn depth_one_left_hashes_the_leaf_first() {
    let leaf = hash_of(1);
    let sibling = hash_of(2);
    let wrapper = MerklePathWrapper::new(vec![item(Direction::Left, sibling)]);
    let mut cache = CachedNodes::new();
    let root = wrapper.calculate_root_hash(leaf, &mut cache);
    assert_eq!(root, parent(leaf, sibling));
    assert_ne!(root, parent(sibling, leaf));
    assert_ne!(root, leaf);
    assert_ne!(root, sibling);
    // nothing is cached for a tree of two leaves
    assert_eq!(cache, CachedNodes::new());
}

#[test]
fn depth_one_right_hashes_the_sibling_first() {
    let leaf = hash_of(1);
    let sibling = hash_of(2);
    let wrapper = MerklePathWrapper::new(vec![item(Direction::Right, sibling)]);
    let root = wrapper.calculate_root_hash(leaf, &mut CachedNodes::new());
    assert_eq!(root, parent(sibling, leaf));
}

#[test]
fn combined_hash_is_sha256_of_the_two_hashes() {
    // SHA-256 of 64 zero bytes
    let expected: [u8; 32] = [
        0xf5, 0xa5, 0xfd, 0x42, 0xd1, 0x6a, 0x20, 0x30, 0x27, 0x98, 0xef, 0x6e, 0xd3, 0x09, 0x97,
        0x9b, 0x43, 0x00, 0x3d, 0x23, 0x20, 0xd9, 0xf0, 0xe8, 0xea, 0x98, 0x31, 0xa9, 0x27, 0x59,
        0xfb, 0x4b,
    ];
    let wrapper = MerklePathWrapper::new(vec![item(Direction::Left, MerkleHash::default())]);
    let root = wrapper.calculate_root_hash(MerkleHash::default(), &mut CachedNodes::new());
    assert_eq!(root.bytes, expected);
}

#[test]
fn depth_two_walk_on_a_fresh_cache() {
    let leaf = hash_of(1);
    let h0 = hash_of(2);
    let h1 = hash_of(3);
    let wrapper =
        MerklePathWrapper::new(vec![item(Direction::Right, h0), item(Direction::Left, h1)]);
    let mut cache = CachedNodes::new();
    let root = wrapper.calculate_root_hash(leaf, &mut cache);
    let p = parent(h0, leaf);
    assert_eq!(root, parent(p, h1));
    // the first item and the one that gives the root are combined unseen
    assert_eq!(cache, CachedNodes::new());
}

#[test]
fn depth_two_walk_does_not_consult_the_cache() {
    let leaf = hash_of(1);
    let wrapper = MerklePathWrapper::new(vec![
        item(Direction::Right, hash_of(2)),
        item(Direction::Left, hash_of(3)),
    ]);
    let mut cache = CachedNodes::new();
    cache.put(1, 1, hash_of(70));
    cache.put(1, 0, hash_of(71));
    let root = wrapper.calculate_root_hash(leaf, &mut cache);
    assert_eq!(root, parent(parent(hash_of(2), leaf), hash_of(3)));
    assert_eq!(cache.get(1, 1), Some(hash_of(70)));
}

#[test]
fn depth_two_root_is_the_root_of_the_rehashed_tree() {
    // four leaves; the proof is the one of the third
    let leaves = [hash_of(10), hash_of(11), hash_of(12), hash_of(13)];
    let left_half = parent(leaves[0], leaves[1]);
    let right_half = parent(leaves[2], leaves[3]);
    let tree_root = parent(left_half, right_half);
    // the leaf is hashed before its sibling, the half it is in after the other
    let wrapper = MerklePathWrapper::new(vec![
        item(Direction::Left, leaves[3]),
        item(Direction::Right, left_half),
    ]);
    assert_eq!(wrapper.calculate_root_hash(leaves[2], &mut CachedNodes::new()), tree_root);
}

#[test]
fn walk_stores_each_ancestor_under_its_own_coordinate() {
    let leaf = hash_of(1);
    let siblings = [hash_of(2), hash_of(3), hash_of(4), hash_of(5)];
    let wrapper = MerklePathWrapper::new(vec![
        item(Direction::Left, siblings[0]),
        item(Direction::Right, siblings[1]),
        item(Direction::Left, siblings[2]),
        item(Direction::Right, siblings[3]),
    ]);
    let mut cache = CachedNodes::new();
    let root = wrapper.calculate_root_hash(leaf, &mut cache);
    // the ancestors on the levels 3, 2 and 1, then the root
    let third = parent(leaf, siblings[0]);
    let second = parent(siblings[1], third);
    let first = parent(second, siblings[2]);
    assert_eq!(root, parent(siblings[3], first));
    // ancestors: (1, 0), (2, 1), (3, 2); the one next to the leaf is not stored
    let mut expected = CachedNodes::new();
    expected.put(2, 1, second);
    expected.put(1, 0, first);
    assert_eq!(cache, expected);
    assert_eq!(cache.get(3, 2), None);
}

#[test]
fn stored_hash_is_taken_over_without_hashing() {
    let leaf = hash_of(1);
    let wrapper = MerklePathWrapper::new(vec![
        item(Direction::Left, hash_of(2)),
        item(Direction::Right, hash_of(3)),
        item(Direction::Left, hash_of(4)),
        item(Direction::Right, hash_of(5)),
    ]);
    // a hash under the ancestor on level 2 stands for that node
    let mut cache = CachedNodes::new();
    cache.put(2, 1, hash_of(50));
    let root = wrapper.calculate_root_hash(leaf, &mut cache);
    let first = parent(hash_of(50), hash_of(4));
    assert_eq!(root, parent(hash_of(5), first));
    assert_eq!(cache.get(2, 1), Some(hash_of(50)));
    assert_eq!(cache.get(1, 0), Some(first));

    // a hash under the ancestor on level 1 makes what lies below it irrelevant
    let mut warm = CachedNodes::new();
    warm.put(1, 0, hash_of(60));
    assert_eq!(wrapper.calculate_root_hash(leaf, &mut warm), parent(hash_of(5), hash_of(60)));
    // the step before it missed and stored what it combined
    assert_eq!(warm.get(2, 1), Some(parent(hash_of(3), parent(leaf, hash_of(2)))));
    assert_eq!(warm.get(1, 0), Some(hash_of(60)));

    // the ancestor next to the leaf is never looked up
    let mut unused = CachedNodes::new();
    unused.put(3, 2, hash_of(80));
    assert_eq!(
        wrapper.calculate_root_hash(leaf, &mut unused),
        wrapper.calculate_root_hash(leaf, &mut CachedNodes::new())
    );
}

#[test]
fn update_cache_stores_interior_siblings_only() {
    let wrapper = MerklePathWrapper::new(vec![
        item(Direction::Left, hash_of(2)),
        item(Direction::Right, hash_of(3)),
        item(Direction::Left, hash_of(4)),
    ]);
    let mut cache = CachedNodes::new();
    wrapper.update_cache(&mut cache);
    // given: (1, 0) with hash 4, (2, 3) with hash 3, then the leaf pair (3, 4) and (3, 5)
    let mut expected = CachedNodes::new();
    expected.put(1, 0, hash_of(4));
    expected.put(2, 3, hash_of(3));
    expected.record_for_leaf(5, &[(1, 0), (2, 3)]);
    assert_eq!(cache, expected);
    assert_eq!(cache.get(3, 4), None);
    assert_eq!(cache.get(3, 5), None);
    assert_eq!(cache.recorded_for_leaf(5), Some(&vec![(1, 0), (2, 3)]));
}

#[test]
fn update_cache_keeps_what_is_stored() {
    let wrapper = MerklePathWrapper::new(vec![
        item(Direction::Left, hash_of(2)),
        item(Direction::Right, hash_of(3)),
        item(Direction::Left, hash_of(4)),
    ]);
    let mut cache = CachedNodes::new();
    cache.put(1, 0, hash_of(77));
    wrapper.update_cache(&mut cache);
    assert_eq!(cache.get(1, 0), Some(hash_of(77)));
    assert_eq!(cache.get(2, 3), Some(hash_of(3)));
    assert_eq!(cache.recorded_for_leaf(5), Some(&vec![(2, 3)]));
    // a second update finds everything filled
    wrapper.update_cache(&mut cache);
    assert_eq!(cache.recorded_for_leaf(5), Some(&vec![(2, 3)]));
}

#[test]
fn update_cache_of_a_two_leaf_tree_stores_nothing() {
    let wrapper = MerklePathWrapper::new(vec![item(Direction::Left, hash_of(2))]);
    let mut cache = CachedNodes::new();
    wrapper.update_cache(&mut cache);
    assert_eq!(cache, CachedNodes::new());
}

#[test]
fn prewarmed_cache_gives_the_root_of_a_fresh_one() {
    let (root_hash, merkle_proofs) = merklize(&[1, 2, 3, 4, 5]);
    let first = MerklePathWrapper::new(path_from_near(&merkle_proofs[0]));
    let second = MerklePathWrapper::new(path_from_near(&merkle_proofs[1]));
    let leaf = MerkleHash { bytes: CryptoHash::hash_borsh(&2).0 };

    let fresh_root = second.calculate_root_hash(leaf, &mut CachedNodes::new());

    let mut warm = CachedNodes::new();
    first.update_cache(&mut warm);
    let warm_root = second.calculate_root_hash(leaf, &mut warm);

    assert_eq!(warm_root, fresh_root);
    assert_eq!(CryptoHash(fresh_root.bytes), root_hash);
}

#[test]
fn prewarmed_cache_of_a_parting_proof_is_hit_and_keeps_the_root() {
    // eight leaves; the proofs of the first and the fifth part below the root,
    // so the sibling that the fifth supplies on level 1 is an ancestor of the first
    let (root_hash, merkle_proofs) = merklize(&[1, 2, 3, 4, 5, 6, 7, 8]);
    let path = MerklePathWrapper::new(path_from_near(&merkle_proofs[0]));
    let other = MerklePathWrapper::new(path_from_near(&merkle_proofs[4]));
    let leaf = MerkleHash { bytes: CryptoHash::hash_borsh(&1).0 };

    let fresh_root = path.calculate_root_hash(leaf, &mut CachedNodes::new());

    let mut warm = CachedNodes::new();
    other.update_cache(&mut warm);
    let (_, to_calculate) = path.get_node_coordinates();
    assert_eq!(to_calculate[0].level, 1);
    assert!(warm.get(1, to_calculate[0].index).is_some());
    let warm_root = path.calculate_root_hash(leaf, &mut warm);

    assert_eq!(warm_root, fresh_root);
    assert_eq!(CryptoHash(warm_root.bytes), root_hash);
}

#[test]
fn prewarmed_cache_of_a_proof_parting_on_level_two_keeps_the_root() {
    // hashes of a tree of eight leaves, written out by hand: the proofs are
    // those of the leaves under (3, 7) and (3, 5), which part on level 2
    let leaves = [hash_of(20), hash_of(21), hash_of(22), hash_of(23)];
    let e = hash_of(30);
    // a parent combines its odd child with its even child
    let n = parent(leaves[3], leaves[2]);
    let m = parent(leaves[1], leaves[0]);
    let half = parent(n, m);
    let tree_root = parent(half, e);
    let path = MerklePathWrapper::new(vec![
        item(Direction::Left, leaves[2]),
        item(Direction::Left, m),
        item(Direction::Left, e),
    ]);
    let other = MerklePathWrapper::new(vec![
        item(Direction::Left, leaves[0]),
        item(Direction::Right, n),
        item(Direction::Left, e),
    ]);
    assert_eq!(path.get_node_coordinates().1[1].index, 3);
    assert_eq!(other.get_node_coordinates().0[1].index, 3);

    let mut warm = CachedNodes::new();
    other.update_cache(&mut warm);
    assert_eq!(warm.get(2, 3), Some(n));
    assert_eq!(path.calculate_root_hash(leaves[3], &mut warm), tree_root);
    assert_eq!(path.calculate_root_hash(leaves[3], &mut CachedNodes::new()), tree_root);
    // both writers left the node's own hash under each coordinate
    assert_eq!(warm.get(2, 3), Some(n));
    assert_eq!(warm.get(1, 1), Some(half));
    assert_eq!(other.calculate_root_hash(leaves[1], &mut warm), tree_root);
}

#[test]
fn every_pair_of_proofs_of_one_tree_shares_a_cache() {
    for count in 2..=9usize {
        let items: Vec<u32> = (0..count as u32).collect();
        let (root_hash, merkle_proofs) = merklize(&items);
        let paths: Vec<MerklePathWrapper> =
            merkle_proofs.iter().map(|p| MerklePathWrapper::new(path_from_near(p))).collect();
        let leaves: Vec<MerkleHash> =
            items.iter().map(|i| MerkleHash { bytes: CryptoHash::hash_borsh(i).0 }).collect();
        for first in 0..count {
            for second in 0..count {
                let mut cache = CachedNodes::new();
                paths[first].update_cache(&mut cache);
                let warm_root = paths[second].calculate_root_hash(leaves[second], &mut cache);
                let fresh_root =
                    paths[second].calculate_root_hash(leaves[second], &mut CachedNodes::new());
                assert_eq!(warm_root, fresh_root);
                assert_eq!(CryptoHash(fresh_root.bytes), root_hash);
            }
        }
        // one cache for the whole tree, warmed and walked leaf after leaf
        let mut shared = CachedNodes::new();
        for leaf in 0..count {
            paths[leaf].update_cache(&mut shared);
            let root = paths[leaf].calculate_root_hash(leaves[leaf], &mut shared);
            assert_eq!(CryptoHash(root.bytes), root_hash);
        }
    }
}

#[test]
fn warm_cache_answers_for_a_leaf_that_is_not_the_trees() {
    // a hit stands for the whole subtree below it, the leaf hash included
    let (root_hash, merkle_proofs) = merklize(&[1, 2, 3, 4, 5, 6, 7, 8]);
    let path = MerklePathWrapper::new(path_from_near(&merkle_proofs[0]));
    let other = MerklePathWrapper::new(path_from_near(&merkle_proofs[4]));
    let mut warm = CachedNodes::new();
    other.update_cache(&mut warm);
    let stranger = hash_of(99);
    assert_eq!(CryptoHash(path.calculate_root_hash(stranger, &mut warm).bytes), root_hash);
    assert_ne!(
        CryptoHash(path.calculate_root_hash(stranger, &mut CachedNodes::new()).bytes),
        root_hash
    );
}

#[test]
fn second_walk_of_a_path_gives_the_same_root() {
    let leaf = hash_of(1);
    let wrapper = MerklePathWrapper::new(vec![
        item(Direction::Right, hash_of(2)),
        item(Direction::Right, hash_of(3)),
        item(Direction::Left, hash_of(4)),
        item(Direction::Right, hash_of(5)),
    ]);
    let mut cache = CachedNodes::new();
    let first = wrapper.calculate_root_hash(leaf, &mut cache);
    let filled = {
        let mut copy = CachedNodes::new();
        wrapper.calculate_root_hash(leaf, &mut copy);
        copy
    };
    let second = wrapper.calculate_root_hash(leaf, &mut cache);
    assert_eq!(first, second);
    assert_eq!(cache, filled);
}

#[test]
fn two_leaves_of_one_tree_share_the_cache() {
    let (root_hash, merkle_proofs) = merklize(&[1, 2, 3, 4, 5]);
    let first = MerklePathWrapper::new(path_from_near(&merkle_proofs[0]));
    let second = MerklePathWrapper::new(path_from_near(&merkle_proofs[1]));
    let mut cache = CachedNodes::new();

    first.update_cache(&mut cache);
    let first_root = first
        .calculate_root_hash(MerkleHash { bytes: CryptoHash::hash_borsh(&1).0 }, &mut cache);
    assert_eq!(CryptoHash(first_root.bytes), root_hash);

    // what the second walk will consult on level 1 is there already
    let (_, to_calculate) = second.get_node_coordinates();
    let hits =
        to_calculate.iter().filter(|node| cache.get(node.level, node.index).is_some()).count();
    assert!(hits >= 1);
    assert_eq!(hits, 1);

    second.update_cache(&mut cache);
    let second_root = second
        .calculate_root_hash(MerkleHash { bytes: CryptoHash::hash_borsh(&2).0 }, &mut cache);
    assert_eq!(CryptoHash(second_root.bytes), root_hash);
}
