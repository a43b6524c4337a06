//! The worked example: a cache of capacity five holding integer keys and
//! values, exercised step by step.

use lru_cache::{BuildNullHasher, Cache, LruCache};

#[test]
fn five_keys_fill_the_cache() {
    let mut cache: LruCache<u64, u64, BuildNullHasher> =
        LruCache::with_capacity_and_hash_builder(5, BuildNullHasher);
    assert_eq!(None, cache.insert(0, 0));
    assert_eq!(None, cache.insert(1, 1));
    assert_eq!(None, cache.insert(2, 2));
    assert_eq!(None, cache.insert(3, 3));
    assert_eq!(None, cache.insert(4, 4));
    // all five present
    assert!(cache.get(&0u64).is_some());
    assert!(cache.get(&1u64).is_some());
    assert!(cache.get(&2u64).is_some());
    assert!(cache.get(&3u64).is_some());
    assert!(cache.get(&4u64).is_some());
    assert_eq!(5, cache.len());
}

#[test]
fn sixth_key_evicts_the_oldest() {
    let mut cache: LruCache<u64, u64, BuildNullHasher> =
        LruCache::with_capacity_and_hash_builder(5, BuildNullHasher);
    cache.insert(0, 0);
    cache.insert(1, 1);
    cache.insert(2, 2);
    cache.insert(3, 3);
    cache.insert(4, 4);
    // key 0 is evicted; re-inserting 5 returns the value just set for 5
    assert_eq!(None, cache.insert(5, 5));
    assert_eq!(None, cache.get(&0u64));
    assert_eq!(Some(5), cache.insert(5, 6));
    assert_eq!(5, cache.len());
}

#[test]
fn touched_key_survives_the_next_eviction() {
    let mut cache: LruCache<u64, u64, BuildNullHasher> =
        LruCache::with_capacity_and_hash_builder(5, BuildNullHasher);
    cache.insert(0, 0);
    cache.insert(1, 1);
    cache.insert(2, 2);
    cache.insert(3, 3);
    cache.insert(4, 4);
    cache.insert(5, 5);
    cache.insert(5, 6);
    // 1 becomes the most recent of {1,2,3,4,5}; inserting 6 evicts 2, the
    // new least recent, not 1
    assert!(cache.get(&1u64).is_some());
    assert_eq!(None, cache.insert(6, 6));
    assert_eq!(None, cache.get(&2u64));
    assert!(cache.get(&1u64).is_some());
    // the value seen for 5 is its current one; 7 was never inserted
    assert_eq!(Some(&6), cache.get(&5u64));
    assert_eq!(None, cache.get(&7u64));
}
