use lru_cache::{BuildNullHasher, LinkedHashMap};

/// This test adds three elements to the map and removes the middle, then
/// the head node, to ensure the structure remains consistent throughout.
#[test]
fn test_linked_hash_map_head_removal() {
    let mut linked_hash_map: LinkedHashMap<u64, u64, BuildNullHasher> =
        LinkedHashMap::with_capacity_and_hash_builder(5, BuildNullHasher);

    assert_eq!(None, linked_hash_map.insert(0, 0));
    assert_eq!(None, linked_hash_map.insert(1, 1));
    assert_eq!(None, linked_hash_map.insert(2, 2));

    assert!(matches!(linked_hash_map.remove(&1u64), Some(_)));
    assert!(matches!(linked_hash_map.remove(&0u64), Some(_)));
    assert!(matches!(linked_hash_map.remove(&2u64), Some(_)));
}

/// This test adds three elements to the map and removes the middle, then
/// the tail node, to ensure the structure remains consistent throughout.
#[test]
fn test_linked_hash_map_tail_removal() {
    let mut linked_hash_map: LinkedHashMap<u64, u64, BuildNullHasher> =
        LinkedHashMap::with_capacity_and_hash_builder(5, BuildNullHasher);

    assert_eq!(None, linked_hash_map.insert(0, 0));
    assert_eq!(None, linked_hash_map.insert(1, 1));
    assert_eq!(None, linked_hash_map.insert(2, 2));

    assert!(matches!(linked_hash_map.remove(&1u64), Some(_)));
    assert!(matches!(linked_hash_map.remove(&2u64), Some(_)));
    assert!(matches!(linked_hash_map.remove(&0u64), Some(_)));
}

#[test]
fn iter_walks_newest_first() {
    let mut map: LinkedHashMap<u64, u64, BuildNullHasher> =
        LinkedHashMap::with_capacity_and_hash_builder(5, BuildNullHasher);
    map.insert(0, 10);
    map.insert(1, 11);
    map.insert(2, 12);

    let mut it = map.iter();
    assert_eq!(Some(&12), it.next());
    assert_eq!(Some(&11), it.next());
    assert_eq!(Some(&10), it.next());
    assert_eq!(None, it.next());

    let mut rev = map.reverse_iter();
    assert_eq!(Some(&10), rev.next());
    assert_eq!(Some(&11), rev.next());
    assert_eq!(Some(&12), rev.next());
    assert_eq!(None, rev.next());
}

#[test]
fn removal_keeps_relative_order() {
    let mut map: LinkedHashMap<u64, u64, BuildNullHasher> =
        LinkedHashMap::with_capacity_and_hash_builder(5, BuildNullHasher);
    map.insert(0, 10);
    map.insert(1, 11);
    map.insert(2, 12);
    map.insert(3, 13);

    // removing an interior entry leaves the others in their old order
    assert_eq!(Some(11), map.remove(&1u64));
    let mut it = map.iter();
    assert_eq!(Some(&13), it.next());
    assert_eq!(Some(&12), it.next());
    assert_eq!(Some(&10), it.next());
    assert_eq!(None, it.next());
}

#[test]
fn remove_tail_pops_oldest() {
    let mut map: LinkedHashMap<u64, u64, BuildNullHasher> =
        LinkedHashMap::with_capacity_and_hash_builder(5, BuildNullHasher);
    assert_eq!(None, map.remove_tail());
    map.insert(0, 10);
    map.insert(1, 11);
    assert_eq!(Some(10), map.remove_tail());
    assert_eq!(Some(11), map.remove_tail());
    assert_eq!(None, map.remove_tail());
    assert_eq!(0, map.len());
}

#[test]
fn contains_and_get() {
    let mut map: LinkedHashMap<u64, u64, BuildNullHasher> =
        LinkedHashMap::with_capacity_and_hash_builder(5, BuildNullHasher);
    map.insert(4, 40);
    assert!(map.contains_key(&4u64));
    assert!(!map.contains_key(&5u64));
    assert_eq!(Some(&40), map.get(&4u64).map(|n| n.value()));
    assert!(map.get(&5u64).is_none());
    if let Some(v) = map.get_mut(&4u64) {
        *v = 41;
    }
    assert_eq!(Some(&41), map.get(&4u64).map(|n| n.value()));
}
