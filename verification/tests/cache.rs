use merkle_cache::{CachedNodes, MerkleHash, NodeCoordinates};

fn hash_of(byte: u8) -> MerkleHash {
    MerkleHash { bytes: [byte; 32] }
}

fn node(level: usize, index: usize, byte: u8) -> NodeCoordinates {
    NodeCoordinates { index, level, hash: Some(hash_of(byte)) }
}

#[test]
fn new_cache_is_empty() {
    let cache = CachedNodes::new();
    assert_eq!(cache.get(1, 0), None);
    assert_eq!(cache.get(0, 0), None);
    assert_eq!(cache.recorded_for_leaf(0), None);
    assert_eq!(cache, CachedNodes::new());
}

#[test]
fn put_then_get_returns_the_hash() {
    let mut cache = CachedNodes::new();
    cache.put(3, 5, hash_of(9));
    assert_eq!(cache.get(3, 5), Some(hash_of(9)));
    // level and index are not interchangeable
    assert_eq!(cache.get(5, 3), None);
    assert_eq!(cache.get(3, 4), None);
    assert_eq!(cache.recorded_for_leaf(5), None);
}

#[test]
fn put_twice_with_the_same_hash_changes_nothing() {
    let mut once = CachedNodes::new();
    once.put(2, 1, hash_of(4));
    let mut twice = CachedNodes::new();
    twice.put(2, 1, hash_of(4));
    twice.put(2, 1, hash_of(4));
    assert_eq!(once, twice);
    assert_eq!(twice.get(2, 1), Some(hash_of(4)));
}

#[test]
fn put_with_another_hash_keeps_the_first() {
    let mut cache = CachedNodes::new();
    cache.put(2, 1, hash_of(4));
    let before = {
        let mut copy = CachedNodes::new();
        copy.put(2, 1, hash_of(4));
        copy
    };
    cache.put(2, 1, hash_of(5));
    assert_eq!(cache.get(2, 1), Some(hash_of(4)));
    assert_eq!(cache, before);
}

#[test]
fn record_for_leaf_appends_in_order() {
    let mut cache = CachedNodes::new();
    cache.record_for_leaf(7, &[(1, 0), (2, 3)]);
    cache.record_for_leaf(7, &[(3, 6)]);
    cache.record_for_leaf(8, &[(1, 1)]);
    assert_eq!(cache.recorded_for_leaf(7), Some(&vec![(1, 0), (2, 3), (3, 6)]));
    assert_eq!(cache.recorded_for_leaf(8), Some(&vec![(1, 1)]));
    assert_eq!(cache.recorded_for_leaf(9), None);
    // bookkeeping does not fill coordinates
    assert_eq!(cache.get(1, 0), None);
}

#[test]
fn record_for_leaf_with_nothing_makes_no_entry() {
    let mut cache = CachedNodes::new();
    cache.record_for_leaf(7, &[]);
    assert_eq!(cache.recorded_for_leaf(7), None);
    assert_eq!(cache, CachedNodes::new());
}

#[test]
fn extend_from_given_fills_and_records() {
    let mut cache = CachedNodes::new();
    cache.extend_from_given(&[node(1, 1, 10), node(2, 0, 20)], 6);
    assert_eq!(cache.get(1, 1), Some(hash_of(10)));
    assert_eq!(cache.get(2, 0), Some(hash_of(20)));
    assert_eq!(cache.recorded_for_leaf(6), Some(&vec![(1, 1), (2, 0)]));
}

#[test]
fn extend_from_given_skips_filled_coordinates() {
    let mut cache = CachedNodes::new();
    cache.put(2, 0, hash_of(99));
    cache.extend_from_given(&[node(1, 1, 10), node(2, 0, 20), node(1, 1, 30), node(3, 2, 40)], 6);
    assert_eq!(cache.get(1, 1), Some(hash_of(10)));
    assert_eq!(cache.get(2, 0), Some(hash_of(99)));
    assert_eq!(cache.get(3, 2), Some(hash_of(40)));
    assert_eq!(cache.recorded_for_leaf(6), Some(&vec![(1, 1), (3, 2)]));
}

#[test]
fn extend_from_given_with_nothing_new_makes_no_entry() {
    let mut cache = CachedNodes::new();
    cache.put(1, 1, hash_of(1));
    cache.extend_from_given(&[node(1, 1, 10)], 6);
    cache.extend_from_given(&[], 6);
    assert_eq!(cache.get(1, 1), Some(hash_of(1)));
    assert_eq!(cache.recorded_for_leaf(6), None);
}

#[test]
fn extend_from_given_appends_to_an_earlier_record() {
    let mut cache = CachedNodes::new();
    cache.extend_from_given(&[node(1, 1, 10)], 6);
    cache.extend_from_given(&[node(1, 1, 11), node(2, 2, 20)], 6);
    cache.extend_from_given(&[node(2, 3, 30)], 4);
    assert_eq!(cache.recorded_for_leaf(6), Some(&vec![(1, 1), (2, 2)]));
    assert_eq!(cache.recorded_for_leaf(4), Some(&vec![(2, 3)]));
    assert_eq!(cache.get(1, 1), Some(hash_of(10)));
}

#[test]
fn extend_from_given_passes_over_a_filled_node_without_hash() {
    let mut cache = CachedNodes::new();
    cache.put(1, 1, hash_of(1));
    let bare = NodeCoordinates { index: 1, level: 1, hash: None };
    let later = NodeCoordinates { index: 2, level: 2, hash: None };
    cache.extend_from_given(&[bare, node(2, 2, 20), later], 6);
    assert_eq!(cache.get(1, 1), Some(hash_of(1)));
    assert_eq!(cache.get(2, 2), Some(hash_of(20)));
    assert_eq!(cache.recorded_for_leaf(6), Some(&vec![(2, 2)]));
}
