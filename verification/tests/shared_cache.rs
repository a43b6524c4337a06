use lru_cache::{ExpiringCache, LruCache, SharedCache, NANOS_PER_SEC};

#[test]
fn shared_cache_readme_snippet() {
    let cache: SharedCache<LruCache<usize, usize>, usize, usize> =
        SharedCache::with_cache(LruCache::with_capacity(1));
    cache.insert(1, 1);

    // a value inserted through one handle is visible through a clone of it
    let other_handle = cache.clone();
    let r = other_handle.get(&1);

    assert_eq!(Some(1), r);
}

#[test]
fn expiring_cache_test() {
    let cache: SharedCache<ExpiringCache<usize, usize>, usize, usize> =
        SharedCache::with_cache(ExpiringCache::with_capacity_and_timeout(
            1,
            30 * NANOS_PER_SEC,
        ));
    cache.insert(1, 1);
    assert_eq!(Some(1), cache.get(&1));
}

#[test]
fn handles_alias_one_cache() {
    let cache: SharedCache<LruCache<usize, usize>, usize, usize> =
        SharedCache::with_cache(LruCache::with_capacity(2));
    let other = cache.clone();
    cache.insert(1, 10);
    other.insert(2, 20);
    assert_eq!(2, cache.len());
    assert_eq!(2, other.len());
    assert_eq!(Some(10), other.remove(&1));
    assert_eq!(1, cache.len());
    other.clear();
    assert_eq!(0, cache.len());
}
