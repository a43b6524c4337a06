use std::hash::{BuildHasher, Hasher};

use lru_cache::{BuildNullHasher, NullHasher};

#[test]
fn test_hasher() {
    // if this fails we've got the bytes backwards :(
    let mut h0 = NullHasher(0);
    h0.write_u64(0xc8c8c8c8);
    assert_eq!(0xc8c8c8c8, h0.finish());

    // validate that we get all 8 bytes in a u64
    let mut h1 = NullHasher(0);
    h1.write_u64(0xc8c8c8c8c8c8c8c8);
    assert_eq!(0xc8c8c8c8c8c8c8c8, h1.finish());
}

#[test]
fn build_hasher_starts_at_zero() {
    let h = BuildNullHasher.build_hasher();
    assert_eq!(0, h.finish());
}
