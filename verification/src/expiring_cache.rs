//! A wrapper for a cache in which the stored elements can "expire", or
//! become old enough that `get` will not return them anymore.
//!
//! Expiry is lazy: nothing is evicted on a timer. An entry past the timeout
//! is treated as absent on its next access and removed at that moment; a
//! cache left alone stays at capacity however stale its entries are.
//!
//! Time is carried as a number of nanoseconds read from a monotonic clock
//! whose origin is fixed when the cache is built.

use crate::cache::Cache;
use crate::linked_map::KeyHash;
use crate::lru_cache::{insert_step_map, insert_step_order, promote, LruCache};
use std::collections::hash_map::RandomState;
use std::hash::{BuildHasher, Hash};
use std::time::Instant;
use vstd::prelude::*;
use vstd::seq_lib::*;

verus! {

/// The reading of the monotonic clock an expiring cache stamps its entries
/// with.
#[verifier::external_type_specification]
#[verifier::external_body]
pub struct ExInstant(Instant);

/// The number of clock nanoseconds in one second.
pub const NANOS_PER_SEC: u64 = 1_000_000_000;

/// How many nanoseconds have passed from `t0` to `now`; zero if `now` lies
/// before `t0`.
pub open spec fn spec_elapsed(now: u64, t0: u64) -> u64 {
    if now >= t0 {
        (now - t0) as u64
    } else {
        0
    }
}

/// Whether an entry stamped at `t0` is past the timeout when read at `now`.
pub open spec fn spec_expired(now: u64, t0: u64, timeout: u64) -> bool {
    spec_elapsed(now, t0) > timeout
}

/// Wraps a value with the clock reading it was inserted at.
struct ExpiringEntry<V> {
    value: V,
    inserted_at: u64,
}

/// An LRU cache which will not return values older than a given timeout.
/// There is no active eviction: an element only leaves on expiry if it is
/// accessed past its timeout.
pub struct ExpiringCache<K, V, S = RandomState> where K: Eq + Hash, S: BuildHasher {
    cache: LruCache<K, ExpiringEntry<V>, S>,
    timeout: u64,
    base: Instant,
}

impl<K, V, S> ExpiringCache<K, V, S> where K: Eq + Hash, S: BuildHasher {
    /// The stored values, keyed by digest.
    pub closed spec fn spec_map(self) -> Map<KeyHash, V> {
        self.cache.spec_map().map_values(|e: ExpiringEntry<V>| e.value)
    }

    /// The clock reading each entry was stamped with, keyed by digest.
    pub closed spec fn spec_times(self) -> Map<KeyHash, u64> {
        self.cache.spec_map().map_values(|e: ExpiringEntry<V>| e.inserted_at)
    }

    /// The digests of the live entries, most recently used first.
    pub closed spec fn spec_order(self) -> Seq<KeyHash> {
        self.cache.spec_order()
    }

    /// The configured timeout, in nanoseconds.
    pub closed spec fn spec_timeout(self) -> u64 {
        self.timeout
    }

    /// The configured capacity.
    pub closed spec fn spec_cap(self) -> nat {
        self.cache.spec_cap()
    }

    /// The cache's invariant: the wrapped LRU cache is well formed.
    pub closed spec fn inv(self) -> bool {
        self.cache.inv()
    }

    /// What one insertion at clock reading `now` does once the key's digest
    /// `kh` is known: the inner cache takes an insert of the stamped value,
    /// and the previous value under the digest is handed back, however old.
    pub open spec fn spec_inserted_at(
        pre: Self,
        post: Self,
        kh: KeyHash,
        now: u64,
        v: V,
        prev: Option<V>,
    ) -> bool {
        &&& post.spec_map() == insert_step_map(
            pre.spec_map(),
            pre.spec_order(),
            pre.spec_cap(),
            kh,
            v,
        )
        &&& post.spec_times() == insert_step_map(
            pre.spec_times(),
            pre.spec_order(),
            pre.spec_cap(),
            kh,
            now,
        )
        &&& post.spec_order() == insert_step_order(pre.spec_order(), pre.spec_cap(), kh)
        &&& prev == (if pre.spec_map().contains_key(kh) {
            Some(pre.spec_map()[kh])
        } else {
            None::<V>
        })
        &&& post.spec_timeout() == pre.spec_timeout()
        &&& post.spec_cap() == pre.spec_cap()
    }

    /// What a fresh hit at clock reading `now` does: the entry is within the
    /// timeout, is promoted, and `fin` is left behind through the returned
    /// borrow; its timestamp is untouched.
    pub open spec fn spec_hit_at(
        pre: Self,
        post: Self,
        kh: KeyHash,
        now: u64,
        cur: V,
        fin: V,
    ) -> bool {
        &&& pre.spec_map().contains_key(kh)
        &&& !spec_expired(now, pre.spec_times()[kh], pre.spec_timeout())
        &&& cur == pre.spec_map()[kh]
        &&& post.spec_map() =~= pre.spec_map().insert(kh, fin)
        &&& post.spec_times() =~= pre.spec_times()
        &&& post.spec_order() == promote(pre.spec_order(), kh)
        &&& post.spec_timeout() == pre.spec_timeout()
        &&& post.spec_cap() == pre.spec_cap()
    }

    /// What a miss at clock reading `now` does: an absent digest leaves the
    /// cache alone; a stale one is removed on the spot.
    pub open spec fn spec_missed_at(pre: Self, post: Self, kh: KeyHash, now: u64) -> bool {
        &&& (if pre.spec_map().contains_key(kh) {
            &&& spec_expired(now, pre.spec_times()[kh], pre.spec_timeout())
            &&& post.spec_map() =~= pre.spec_map().remove(kh)
            &&& post.spec_times() =~= pre.spec_times().remove(kh)
            &&& post.spec_order() == pre.spec_order().remove_value(kh)
        } else {
            &&& post.spec_map() =~= pre.spec_map()
            &&& post.spec_times() =~= pre.spec_times()
            &&& post.spec_order() == pre.spec_order()
        })
        &&& post.spec_timeout() == pre.spec_timeout()
        &&& post.spec_cap() == pre.spec_cap()
    }

    /// What one removal does once the key's digest `kh` is known: the entry
    /// leaves whether or not it has expired, and everything else keeps its
    /// relative order.
    pub open spec fn spec_removed_at(
        pre: Self,
        post: Self,
        kh: KeyHash,
        removed: Option<V>,
    ) -> bool {
        &&& post.spec_map() == pre.spec_map().remove(kh)
        &&& post.spec_times() =~= pre.spec_times().remove(kh)
        &&& post.spec_order() == pre.spec_order().remove_value(kh)
        &&& removed == (if pre.spec_map().contains_key(kh) {
            Some(pre.spec_map()[kh])
        } else {
            None::<V>
        })
        &&& post.spec_timeout() == pre.spec_timeout()
        &&& post.spec_cap() == pre.spec_cap()
    }

    /// A digest is stored — with a value and a timestamp — exactly when the
    /// recency order mentions it.
    pub proof fn lemma_contains_iff_in_order(self, kh: KeyHash)
        requires
            self.inv(),
        ensures
            self.spec_map().contains_key(kh) <==> self.spec_order().contains(kh),
            self.spec_times().contains_key(kh) <==> self.spec_order().contains(kh),
    {
        self.cache.lemma_contains_iff_in_order(kh);
        assert(self.spec_map().contains_key(kh) == self.cache.spec_map().contains_key(kh));
        assert(self.spec_times().contains_key(kh) == self.cache.spec_map().contains_key(kh));
    }

    /// The clock reading now, in nanoseconds since this cache was built.
    ///
    /// Relies on `std::time::Instant::elapsed`: the monotonic time passed
    /// since the origin instant. Nothing is assumed of the value.
    #[verifier::external_body]
    fn clock(&self) -> u64 {
        self.base.elapsed().as_nanos() as u64
    }

    /// The origin instant that readings are measured from.
    ///
    /// Relies on `std::time::Instant::now` to read the monotonic clock.
    #[verifier::external_body]
    fn clock_origin() -> Instant {
        Instant::now()
    }

    /// Creates a new cache with a given capacity, timeout (in nanoseconds)
    /// and hash builder. A capacity of zero is normalized to one.
    pub fn with_capacity_and_timeout_and_hash_builder(
        capacity: usize,
        timeout: u64,
        hash_builder: S,
    ) -> (r: Self)
        ensures
            r.inv(),
            r.spec_map() == Map::<KeyHash, V>::empty(),
            r.spec_times() == Map::<KeyHash, u64>::empty(),
            r.spec_order() == Seq::<KeyHash>::empty(),
            r.spec_timeout() == timeout,
            r.spec_cap() == (if capacity >= 1 {
                capacity as nat
            } else {
                1nat
            }),
    {
        let r = ExpiringCache {
            cache: LruCache::with_capacity_and_hash_builder(capacity, hash_builder),
            timeout,
            base: Self::clock_origin(),
        };
        proof {
            assert(r.spec_map() =~= Map::<KeyHash, V>::empty());
            assert(r.spec_times() =~= Map::<KeyHash, u64>::empty());
        }
        r
    }

    /// Gets the timeout for this cache, in nanoseconds.
    pub fn get_timeout(&self) -> (t: u64)
        ensures
            t == self.spec_timeout(),
    {
        self.timeout
    }

    /// Sets the timeout for this cache. Setting the timeout evicts nothing
    /// and touches no stored timestamp; it only changes what future calls to
    /// `get` and `get_mut` will hand back.
    pub fn set_timeout(&mut self, timeout: u64)
        ensures
            final(self).spec_timeout() == timeout,
            final(self).spec_map() == old(self).spec_map(),
            final(self).spec_times() == old(self).spec_times(),
            final(self).spec_order() == old(self).spec_order(),
            final(self).spec_cap() == old(self).spec_cap(),
            final(self).inv() == old(self).inv(),
    {
        self.timeout = timeout;
    }

    /// Inserts a value under a digest, stamped with the clock reading
    /// `now`. Returns the previous value stored under the digest, however
    /// old it is.
    pub fn insert_hashed_at(&mut self, kh: KeyHash, v: V, now: u64) -> (prev: Option<V>)
        requires
            old(self).inv(),
        ensures
            final(self).inv(),
            Self::spec_inserted_at(*old(self), *final(self), kh, now, v, prev),
    {
        let prev = self.cache.insert_hashed(kh, ExpiringEntry { value: v, inserted_at: now });
        proof {
            assert(self.spec_map() =~= insert_step_map(
                old(self).spec_map(),
                old(self).spec_order(),
                old(self).spec_cap(),
                kh,
                v,
            ));
            assert(self.spec_times() =~= insert_step_map(
                old(self).spec_times(),
                old(self).spec_order(),
                old(self).spec_cap(),
                kh,
                now,
            ));
            assert(old(self).spec_map().contains_key(kh) == old(
                self,
            ).cache.spec_map().contains_key(kh));
        }
        match prev {
            Some(e) => Some(e.value),
            None => None,
        }
    }

    /// The clock reading the digest's entry was stamped with, if it is
    /// stored. The entry is promoted, and handed back even when it is older
    /// than the timeout.
    pub fn get_inserted_at_hashed(&mut self, kh: KeyHash) -> (r: Option<u64>)
        requires
            old(self).inv(),
        ensures
            final(self).inv(),
            final(self).spec_map() == old(self).spec_map(),
            final(self).spec_times() == old(self).spec_times(),
            final(self).spec_timeout() == old(self).spec_timeout(),
            final(self).spec_cap() == old(self).spec_cap(),
            match r {
                Some(t) => {
                    &&& old(self).spec_times().contains_key(kh)
                    &&& t == old(self).spec_times()[kh]
                    &&& final(self).spec_order() == promote(old(self).spec_order(), kh)
                },
                None => {
                    &&& !old(self).spec_times().contains_key(kh)
                    &&& final(self).spec_order() == old(self).spec_order()
                },
            },
    {
        let r = match self.cache.get_hashed(kh) {
            Some(e) => Some(e.inserted_at),
            None => None,
        };
        proof {
            assert(self.spec_map() =~= old(self).spec_map());
            assert(self.spec_times() =~= old(self).spec_times());
        }
        r
    }

    /// Looks a digest up at clock reading `now`: a stale entry is removed
    /// and treated as absent; a fresh one is promoted and returned.
    pub fn get_hashed_at(&mut self, kh: KeyHash, now: u64) -> (r: Option<&V>)
        requires
            old(self).inv(),
        ensures
            final(self).inv(),
            final(self).spec_order().len() <= old(self).spec_order().len(),
            match r {
                Some(v) => Self::spec_hit_at(*old(self), *final(self), kh, now, *v, *v),
                None => Self::spec_missed_at(*old(self), *final(self), kh, now),
            },
    {
        let timeout = self.timeout;
        let t0_opt = match self.cache.get_hashed(kh) {
            Some(e) => Some(e.inserted_at),
            None => None,
        };
        proof {
            assert(self.spec_map() =~= old(self).spec_map());
            assert(self.spec_times() =~= old(self).spec_times());
        }
        match t0_opt {
            Some(t0) => {
                let elapsed: u64 = if now >= t0 {
                    now - t0
                } else {
                    0
                };
                if elapsed > timeout {
                    proof {
                        old(self).cache.lemma_contains_iff_in_order(kh);
                        self.lemma_promoted_head(*old(self), kh);
                    }
                    self.cache.remove_hashed(kh);
                    proof {
                        assert(self.spec_map() =~= old(self).spec_map().remove(kh));
                        assert(self.spec_times() =~= old(self).spec_times().remove(kh));
                    }
                    None
                } else {
                    proof {
                        old(self).cache.lemma_contains_iff_in_order(kh);
                        self.lemma_promoted_head(*old(self), kh);
                        assert(self.spec_order().len() == old(self).spec_order().len());
                        assert(self.spec_map() =~= old(self).spec_map().insert(
                            kh,
                            old(self).spec_map()[kh],
                        ));
                        assert(self.spec_times() =~= old(self).spec_times());
                    }
                    match self.cache.get_hashed(kh) {
                        Some(e) => Some(&e.value),
                        None => {
                            proof {
                                assert(false);
                            }
                            None
                        },
                    }
                }
            },
            None => None,
        }
    }

    /// Looks a digest up at clock reading `now` and hands out a mutable
    /// borrow of a fresh entry's value; a stale entry is removed and treated
    /// as absent. The entry's timestamp stays what it was.
    pub fn get_hashed_mut_at(&mut self, kh: KeyHash, now: u64) -> (r: Option<&mut V>)
        requires
            old(self).inv(),
        ensures
            final(self).inv(),
            final(self).spec_order().len() <= old(self).spec_order().len(),
            match r {
                Some(v) => Self::spec_hit_at(*old(self), *final(self), kh, now, *v, *final(v)),
                None => Self::spec_missed_at(*old(self), *final(self), kh, now),
            },
    {
        let timeout = self.timeout;
        let t0_opt = match self.cache.get_hashed(kh) {
            Some(e) => Some(e.inserted_at),
            None => None,
        };
        proof {
            assert(self.spec_map() =~= old(self).spec_map());
            assert(self.spec_times() =~= old(self).spec_times());
        }
        match t0_opt {
            Some(t0) => {
                let elapsed: u64 = if now >= t0 {
                    now - t0
                } else {
                    0
                };
                if elapsed > timeout {
                    proof {
                        old(self).cache.lemma_contains_iff_in_order(kh);
                        self.lemma_promoted_head(*old(self), kh);
                    }
                    self.cache.remove_hashed(kh);
                    proof {
                        assert(self.spec_map() =~= old(self).spec_map().remove(kh));
                        assert(self.spec_times() =~= old(self).spec_times().remove(kh));
                    }
                    None
                } else {
                    proof {
                        old(self).cache.lemma_contains_iff_in_order(kh);
                        self.lemma_promoted_head(*old(self), kh);
                        assert(self.spec_order().len() == old(self).spec_order().len());
                        assert(self.spec_map() =~= old(self).spec_map());
                        assert(self.spec_times() =~= old(self).spec_times());
                    }
                    match self.cache.get_hashed_mut(kh) {
                        Some(e) => Some(&mut e.value),
                        None => {
                            proof {
                                assert(false);
                            }
                            None
                        },
                    }
                }
            },
            None => None,
        }
    }

    /// Removes the entry stored under a digest, expired or not.
    pub fn remove_hashed(&mut self, kh: KeyHash) -> (removed: Option<V>)
        requires
            old(self).inv(),
        ensures
            final(self).inv(),
            Self::spec_removed_at(*old(self), *final(self), kh, removed),
    {
        let removed = self.cache.remove_hashed(kh);
        proof {
            assert(self.spec_map() =~= old(self).spec_map().remove(kh));
            assert(self.spec_times() =~= old(self).spec_times().remove(kh));
            assert(old(self).spec_map().contains_key(kh) == old(
                self,
            ).cache.spec_map().contains_key(kh));
        }
        match removed {
            Some(e) => Some(e.value),
            None => None,
        }
    }

    /// After the inner cache has promoted `kh`, the digest sits at the head
    /// of the recency order, so removing or promoting it again only touches
    /// that head entry.
    proof fn lemma_promoted_head(self, pre: Self, kh: KeyHash)
        requires
            pre.spec_order().contains(kh),
            self.spec_order() == promote(pre.spec_order(), kh),
        ensures
            self.spec_order().remove_value(kh) == pre.spec_order().remove_value(kh),
            promote(self.spec_order(), kh) == self.spec_order(),
            self.spec_order().len() == pre.spec_order().len(),
            self.spec_order().remove_value(kh).len() == self.spec_order().len() - 1,
    {
        let ord0 = pre.spec_order();
        ord0.index_of_first_ensures(kh);
        ord0.remove_ensures(ord0.index_of_first(kh).unwrap());
        let ord1 = self.spec_order();
        assert(ord1[0] == kh);
        ord1.index_of_first_ensures(kh);
        assert(ord1.contains(kh));
        let i = ord1.index_of_first(kh).unwrap();
        assert(i == 0);
        ord1.remove_ensures(0);
        assert(ord1.remove_value(kh) =~= pre.spec_order().remove_value(kh));
        assert(promote(ord1, kh) =~= ord1);
    }
}

impl<K, V> ExpiringCache<K, V, RandomState> where K: Eq + Hash {
    /// Creates a new cache with a given capacity and timeout, in
    /// nanoseconds, using the default hasher. A capacity of zero is
    /// normalized to one.
    pub fn with_capacity_and_timeout(capacity: usize, timeout: u64) -> (r: Self)
        ensures
            r.inv(),
            r.spec_map() == Map::<KeyHash, V>::empty(),
            r.spec_times() == Map::<KeyHash, u64>::empty(),
            r.spec_order() == Seq::<KeyHash>::empty(),
            r.spec_timeout() == timeout,
            r.spec_cap() == (if capacity >= 1 {
                capacity as nat
            } else {
                1nat
            }),
    {
        ExpiringCache::with_capacity_and_timeout_and_hash_builder(
            capacity,
            timeout,
            Default::default(),
        )
    }

    /// Gets the clock reading a particular key was stamped with, if present.
    /// Returns `Some` even if the entry is older than the timeout, and
    /// promotes it.
    pub fn get_inserted_at<Q: Hash + Eq>(&mut self, k: &Q) -> (r: Option<u64>)
        requires
            old(self).inv(),
        ensures
            final(self).inv(),
            final(self).spec_map() == old(self).spec_map(),
            final(self).spec_times() == old(self).spec_times(),
            final(self).spec_timeout() == old(self).spec_timeout(),
            match r {
                Some(t) => exists|kh: KeyHash|
                    old(self).spec_times().contains_key(kh) && t == old(self).spec_times()[kh]
                        && final(self).spec_order() == promote(old(self).spec_order(), kh),
                None => exists|kh: KeyHash|
                    !old(self).spec_times().contains_key(kh) && final(self).spec_order() == old(
                        self,
                    ).spec_order(),
            },
    {
        let kh = self.cache.hash_k(k);
        let r = self.get_inserted_at_hashed(kh);
        proof {
            assert(match r {
                Some(t) => old(self).spec_times().contains_key(kh) && t == old(
                    self,
                ).spec_times()[kh] && self.spec_order() == promote(old(self).spec_order(), kh),
                None => !old(self).spec_times().contains_key(kh) && self.spec_order() == old(
                    self,
                ).spec_order(),
            });
        }
        r
    }
}

impl<K, V, S> Cache<K, V> for ExpiringCache<K, V, S> where K: Eq + Hash, S: BuildHasher {
    open spec fn wf(&self) -> bool {
        self.inv()
    }

    open spec fn spec_len(&self) -> nat {
        self.spec_order().len()
    }

    open spec fn spec_capacity(&self) -> nat {
        self.spec_cap()
    }

    /// Inserting stamps the value with the clock reading of the call and
    /// stores it under the key's digest as in the wrapped LRU cache.
    open spec fn spec_inserted(pre: Self, post: Self, v: V, prev: Option<V>) -> bool {
        exists|kh: KeyHash, now: u64| Self::spec_inserted_at(pre, post, kh, now, v, prev)
    }

    /// A hit found an entry within the timeout and promoted it.
    open spec fn spec_hit(pre: Self, post: Self, cur: V, fin: V) -> bool {
        exists|kh: KeyHash, now: u64| Self::spec_hit_at(pre, post, kh, now, cur, fin)
    }

    /// A miss found no entry, or found one past the timeout and removed it.
    open spec fn spec_missed(pre: Self, post: Self) -> bool {
        exists|kh: KeyHash, now: u64| Self::spec_missed_at(pre, post, kh, now)
    }

    /// Removal deletes the entry under the key's digest, expired or not.
    open spec fn spec_removed(pre: Self, post: Self, removed: Option<V>) -> bool {
        exists|kh: KeyHash| Self::spec_removed_at(pre, post, kh, removed)
    }

    fn insert(&mut self, k: K, v: V) -> (prev: Option<V>) {
        let now = self.clock();
        let kh = self.cache.hash_k(&k);
        let prev = self.insert_hashed_at(kh, v, now);
        proof {
            self.cache.lemma_inv_len();
            assert(Self::spec_inserted(*old(self), *self, v, prev));
        }
        prev
    }

    fn get<'a, Q: Hash + Eq>(&'a mut self, k: &Q) -> (r: Option<&'a V>) {
        let now = self.clock();
        let kh = self.cache.hash_k(k);
        self.get_hashed_at(kh, now)
    }

    fn get_mut<'a, Q: Hash + Eq>(&'a mut self, k: &Q) -> (r: Option<&'a mut V>) {
        let now = self.clock();
        let kh = self.cache.hash_k(k);
        self.get_hashed_mut_at(kh, now)
    }

    fn remove<Q: Hash + Eq>(&mut self, k: &Q) -> (removed: Option<V>) {
        let kh = self.cache.hash_k(k);
        let removed = self.remove_hashed(kh);
        proof {
            let ord = old(self).spec_order();
            ord.index_of_first_ensures(kh);
            if ord.contains(kh) {
                ord.remove_ensures(ord.index_of_first(kh).unwrap());
            }
            assert(Self::spec_removed(*old(self), *self, removed));
        }
        removed
    }

    fn clear(&mut self) {
        self.cache.clear();
    }

    fn len(&self) -> (n: usize) {
        self.cache.len()
    }
}

} // verus!
