use lru_cache::{BuildNullHasher, Cache, LruCache};

#[test]
fn test_cache() {
    // using a nullhasher here makes it a little easier to reason about what
    // key goes to what value should the tests fail. this does mean that the
    // key has to be a u64 or this is liable to fail on 32-bit targets.
    let mut cache: LruCache<u64, u64, BuildNullHasher> =
        LruCache::with_capacity_and_hash_builder(5, BuildNullHasher);

    // fill up the cache
    assert_eq!(None, cache.insert(0, 0));
    assert_eq!(None, cache.insert(1, 1));
    assert_eq!(None, cache.insert(2, 2));
    assert_eq!(None, cache.insert(3, 3));
    assert_eq!(None, cache.insert(4, 4));

    // verify the cache is filled
    assert_eq!(5, cache.len());

    // push one more thing onto the cache, this will evict "0"
    assert_eq!(None, cache.insert(5, 5));
    // do it twice, just for good measure
    assert_eq!(Some(5), cache.insert(5, 6));

    // verify the cache isn't over capacity
    assert_eq!(5, cache.len());

    // verify the "1" is still there, which should make it the youngest item
    assert!(cache.get(&1u64).is_some());

    // verify that "2" is now the oldest item and the next to be evicted by
    // putting 6 into the cache
    assert_eq!(None, cache.insert(6, 6));
    assert_eq!(5, cache.len());

    assert_eq!(Some(&6), cache.get(&5u64));
    assert_eq!(None, cache.get(&7u64));
}

#[test]
fn lru_cache_readme_snippet() {
    let mut cache: LruCache<usize, String> = LruCache::with_capacity(5);

    cache.insert(0, "Put".to_owned());
    cache.insert(1, "large".to_owned());
    cache.insert(2, "things".to_owned());
    cache.insert(3, "in".to_owned());
    cache.insert(4, "memory".to_owned());
    cache.insert(5, "but not too many".to_owned());

    assert_eq!(None, cache.get(&0));
}

#[test]
fn capacity_never_exceeded() {
    let mut cache: LruCache<u64, u64, BuildNullHasher> =
        LruCache::with_capacity_and_hash_builder(2, BuildNullHasher);
    assert_eq!(None, cache.insert(10, 1));
    assert!(cache.len() <= 2);
    assert_eq!(None, cache.insert(11, 2));
    assert!(cache.len() <= 2);
    assert_eq!(None, cache.insert(12, 3));
    assert!(cache.len() <= 2);
    assert_eq!(None, cache.insert(13, 4));
    assert!(cache.len() <= 2);
    assert_eq!(2, cache.len());
}

#[test]
fn reinsert_keeps_len_and_promotes() {
    let mut cache: LruCache<u64, u64, BuildNullHasher> =
        LruCache::with_capacity_and_hash_builder(3, BuildNullHasher);
    assert_eq!(None, cache.insert(1, 100));
    assert_eq!(None, cache.insert(2, 200));
    assert_eq!(None, cache.insert(3, 300));
    // re-inserting 1 returns its previous value and keeps the count
    assert_eq!(Some(100), cache.insert(1, 101));
    assert_eq!(3, cache.len());
    // 1 is now the youngest: filling evicts 2, the least recent
    assert_eq!(None, cache.insert(4, 400));
    assert_eq!(None, cache.get(&2u64));
    assert_eq!(Some(&101), cache.get(&1u64));
}

#[test]
fn zero_capacity_is_normalized_to_one() {
    let mut cache: LruCache<u64, u64, BuildNullHasher> =
        LruCache::with_capacity_and_hash_builder(0, BuildNullHasher);
    assert_eq!(None, cache.insert(1, 10));
    assert_eq!(1, cache.len());
    assert_eq!(None, cache.insert(2, 20));
    assert_eq!(1, cache.len());
    assert_eq!(None, cache.get(&1u64));
    assert_eq!(Some(&20), cache.get(&2u64));
}

#[test]
fn get_mut_updates_in_place() {
    let mut cache: LruCache<u64, u64, BuildNullHasher> =
        LruCache::with_capacity_and_hash_builder(2, BuildNullHasher);
    cache.insert(7, 70);
    if let Some(v) = cache.get_mut(&7u64) {
        *v = 71;
    }
    assert_eq!(Some(&71), cache.get(&7u64));
    assert_eq!(1, cache.len());
}

#[test]
fn remove_and_clear() {
    let mut cache: LruCache<u64, u64, BuildNullHasher> =
        LruCache::with_capacity_and_hash_builder(3, BuildNullHasher);
    cache.insert(1, 10);
    cache.insert(2, 20);
    assert_eq!(Some(10), cache.remove(&1u64));
    assert_eq!(None, cache.remove(&1u64));
    assert_eq!(1, cache.len());
    cache.clear();
    assert_eq!(0, cache.len());
    assert_eq!(None, cache.get(&2u64));
    // the capacity is retained after a clear
    cache.insert(1, 1);
    cache.insert(2, 2);
    cache.insert(3, 3);
    cache.insert(4, 4);
    assert_eq!(3, cache.len());
}
