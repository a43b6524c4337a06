use lru_cache::{Cache, ExpiringCache, NANOS_PER_SEC};

#[test]
fn expiring_cache_readme_snippet() {
    let mut cache: ExpiringCache<u64, u64> =
        ExpiringCache::with_capacity_and_timeout(1, 30 * NANOS_PER_SEC);
    // simulate adding something 35 seconds ago: stamp the entry at reading
    // zero, then look its digest up 35 seconds later
    assert_eq!(None, cache.insert_hashed_at(1, 1, 0));
    assert_eq!(None, cache.get_hashed_at(1, 35 * NANOS_PER_SEC));
}

#[test]
fn lazy_expiry_removes_entry() {
    let mut cache: ExpiringCache<u64, u64> =
        ExpiringCache::with_capacity_and_timeout(4, 30 * NANOS_PER_SEC);
    assert_eq!(None, cache.insert_hashed_at(1, 10, 0));
    assert_eq!(1, cache.len());
    // within the timeout the entry is a hit and stays
    assert_eq!(Some(&10), cache.get_hashed_at(1, 30 * NANOS_PER_SEC));
    assert_eq!(1, cache.len());
    // past the timeout it is absent, and the miss removes it
    assert_eq!(None, cache.get_hashed_at(1, 31 * NANOS_PER_SEC));
    assert_eq!(0, cache.len());
}

#[test]
fn idle_cache_keeps_stale_entries() {
    // expiry is lazy: an untouched cache stays at capacity however old its
    // entries are, and even `remove` still hands a stale value back
    let mut cache: ExpiringCache<u64, u64> =
        ExpiringCache::with_capacity_and_timeout(2, 1 * NANOS_PER_SEC);
    cache.insert_hashed_at(1, 10, 0);
    cache.insert_hashed_at(2, 20, 0);
    assert_eq!(2, cache.len());
    assert_eq!(Some(10), cache.remove_hashed(1));
    assert_eq!(1, cache.len());
}

#[test]
fn timeout_mutation_applies_on_next_access() {
    let mut cache: ExpiringCache<u64, u64> =
        ExpiringCache::with_capacity_and_timeout(4, 30 * NANOS_PER_SEC);
    assert_eq!(30 * NANOS_PER_SEC, cache.get_timeout());
    cache.insert_hashed_at(1, 10, 0);
    // widening the timeout lets a read 35 seconds later still hit
    cache.set_timeout(40 * NANOS_PER_SEC);
    assert_eq!(40 * NANOS_PER_SEC, cache.get_timeout());
    assert_eq!(Some(&10), cache.get_hashed_at(1, 35 * NANOS_PER_SEC));
    // the stored timestamp was not touched by the change: narrowing the
    // timeout makes the same entry stale at the same reading
    cache.set_timeout(10 * NANOS_PER_SEC);
    assert_eq!(None, cache.get_hashed_at(1, 35 * NANOS_PER_SEC));
    assert_eq!(0, cache.len());
}

#[test]
fn inserted_at_is_reported_even_when_stale() {
    let mut cache: ExpiringCache<u64, u64> =
        ExpiringCache::with_capacity_and_timeout(4, 1 * NANOS_PER_SEC);
    cache.insert_hashed_at(1, 10, 7);
    assert_eq!(Some(7), cache.get_inserted_at_hashed(1));
    assert_eq!(None, cache.get_inserted_at_hashed(2));
}

#[test]
fn real_clock_round_trip() {
    // the clock-driven interface: a value inserted now is readable now,
    // long before a 30 second timeout can pass
    let mut cache: ExpiringCache<u64, u64> =
        ExpiringCache::with_capacity_and_timeout(2, 30 * NANOS_PER_SEC);
    assert_eq!(None, cache.insert(1, 10));
    assert_eq!(Some(&10), cache.get(&1u64));
    assert!(cache.get_inserted_at(&1u64).is_some());
    assert_eq!(Some(10), cache.remove(&1u64));
    cache.clear();
    assert_eq!(0, cache.len());
}
