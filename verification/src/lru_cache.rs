//! An LRU cache built on the digest-keyed recency index: a fixed capacity,
//! eviction of the least recently used entry on overflow, and promotion of
//! an entry to most recently used on every lookup.

use crate::cache::Cache;
use crate::linked_map::{KeyHash, LinkedHashMap};
use crate::null_hasher::BuildNullHasher;
use std::collections::hash_map::RandomState;
use std::hash::{BuildHasher, Hash};
use std::marker::PhantomData;
use vstd::prelude::*;
use vstd::seq_lib::*;

verus! {

/// Stores an element in the cache. The handle to its position in the
/// eviction order lives in the recency index itself.
struct StorageNode<V> {
    /// The value being stored.
    value: V,
}

/// The recency order after an entry is promoted to most recently used: the
/// digest moves to the front and everything else keeps its relative order.
pub open spec fn promote(ord: Seq<KeyHash>, kh: KeyHash) -> Seq<KeyHash> {
    seq![kh] + ord.remove_value(kh)
}

/// The recency order after inserting at digest `kh` into a cache of the
/// given capacity: a present digest is promoted; a new digest is pushed at
/// the front, evicting the tail first if the cache is full.
pub open spec fn insert_step_order(ord: Seq<KeyHash>, cap: nat, kh: KeyHash) -> Seq<KeyHash> {
    if ord.contains(kh) {
        promote(ord, kh)
    } else if ord.len() < cap {
        seq![kh] + ord
    } else {
        seq![kh] + ord.drop_last()
    }
}

/// The stored values after inserting `v` at digest `kh`: the tail digest is
/// evicted first exactly when the digest is new and the cache is full.
pub open spec fn insert_step_map<V>(
    m: Map<KeyHash, V>,
    ord: Seq<KeyHash>,
    cap: nat,
    kh: KeyHash,
    v: V,
) -> Map<KeyHash, V> {
    if ord.contains(kh) || ord.len() < cap {
        m.insert(kh, v)
    } else {
        m.remove(ord.last()).insert(kh, v)
    }
}

/// An LRU cache: a digest-keyed recency index plus capacity enforcement.
/// Keys are reduced to a 64-bit digest before storage and never retained;
/// two keys with the same digest share one entry.
pub struct LruCache<K, V, S = RandomState> where K: Eq + Hash, S: BuildHasher {
    storage: LinkedHashMap<KeyHash, StorageNode<V>, BuildNullHasher>,
    capacity: usize,
    hash_builder: S,
    kpd: PhantomData<K>,
}

impl<K, V, S> LruCache<K, V, S> where K: Eq + Hash, S: BuildHasher {
    /// The stored values, keyed by digest.
    pub closed spec fn spec_map(self) -> Map<KeyHash, V> {
        self.storage.spec_map().map_values(|sn: StorageNode<V>| sn.value)
    }

    /// The digests of the live entries, most recently used first.
    pub closed spec fn spec_order(self) -> Seq<KeyHash> {
        self.storage.spec_order()
    }

    /// The cache's invariant: the index is well formed, the capacity is at
    /// least one, and the entry count never exceeds it.
    pub closed spec fn inv(self) -> bool {
        &&& self.storage.wf()
        &&& self.capacity >= 1
        &&& self.storage.spec_len() <= self.capacity
    }

    /// The configured capacity.
    pub closed spec fn spec_cap(self) -> nat {
        self.capacity as nat
    }

    /// Reduces a key to the digest it is stored under. Which digest a key
    /// maps to depends on the cache's hash builder; equal keys always map to
    /// the same digest within one cache.
    ///
    /// Relies on `std::hash::BuildHasher::hash_one` to compute the digest of
    /// `k` under this cache's hash builder.
    #[verifier::external_body]
    pub(crate) fn hash_k<Q: Hash + Eq>(&self, k: &Q) -> KeyHash {
        self.hash_builder.hash_one(k)
    }

    /// A well-formed cache holds at most its capacity, which is at least
    /// one.
    pub proof fn lemma_inv_len(self)
        requires
            self.inv(),
        ensures
            self.spec_order().len() <= self.spec_cap(),
            self.spec_cap() >= 1,
    {
    }

    /// A digest is stored exactly when the recency order mentions it.
    pub proof fn lemma_contains_iff_in_order(self, kh: KeyHash)
        requires
            self.inv(),
        ensures
            self.spec_map().contains_key(kh) <==> self.spec_order().contains(kh),
    {
        self.storage.lemma_contains_iff_in_order(kh);
        assert(self.spec_map().contains_key(kh) == self.storage.spec_map().contains_key(kh));
    }

    /// Makes a new cache with the given capacity and hasher. A capacity of
    /// zero is normalized to one: a cache must be able to hold at least one
    /// entry.
    pub fn with_capacity_and_hash_builder(capacity: usize, hash_builder: S) -> (r: Self)
        ensures
            r.inv(),
            r.spec_map() == Map::<KeyHash, V>::empty(),
            r.spec_order() == Seq::<KeyHash>::empty(),
            r.spec_cap() == (if capacity >= 1 {
                capacity as nat
            } else {
                1nat
            }),
    {
        let cap: usize = if capacity >= 1 {
            capacity
        } else {
            1
        };
        let r = LruCache {
            storage: LinkedHashMap::with_capacity_and_hash_builder(cap, BuildNullHasher),
            capacity: cap,
            hash_builder,
            kpd: PhantomData,
        };
        proof {
            assert(r.spec_map() =~= Map::<KeyHash, V>::empty());
        }
        r
    }

    /// Inserts a value under a digest: a present digest is updated in place
    /// and promoted, a new digest is pushed at the front, evicting the least
    /// recently used entry first if the cache is full. Returns the previous
    /// value stored under the digest.
    pub fn insert_hashed(&mut self, kh: KeyHash, v: V) -> (prev: Option<V>)
        requires
            old(self).inv(),
        ensures
            final(self).inv(),
            final(self).spec_cap() == old(self).spec_cap(),
            final(self).spec_map() == insert_step_map(
                old(self).spec_map(),
                old(self).spec_order(),
                old(self).spec_cap(),
                kh,
                v,
            ),
            final(self).spec_order() == insert_step_order(
                old(self).spec_order(),
                old(self).spec_cap(),
                kh,
            ),
            prev == (if old(self).spec_map().contains_key(kh) {
                Some(old(self).spec_map()[kh])
            } else {
                None::<V>
            }),
    {
        proof {
            self.storage.lemma_contains_iff_in_order(kh);
            self.storage.spec_order().index_of_first_ensures(kh);
            assert(old(self).spec_map().contains_key(kh) == old(
                self,
            ).storage.spec_map().contains_key(kh));
        }
        let old_v = self.storage.remove_hashed(kh);
        let ghost mid = self.storage;
        proof {
            mid.lemma_contains_iff_in_order(kh);
            mid.spec_order().index_of_first_ensures(kh);
        }
        if self.storage.len() >= self.capacity {
            self.storage.remove_tail();
        }
        proof {
            self.storage.lemma_contains_iff_in_order(kh);
            self.storage.spec_order().index_of_first_ensures(kh);
        }
        self.storage.insert_hashed(kh, StorageNode { value: v });
        proof {
            assert(self.spec_map() =~= insert_step_map(
                old(self).spec_map(),
                old(self).spec_order(),
                old(self).spec_cap(),
                kh,
                v,
            ));
            assert(self.spec_order() =~= insert_step_order(
                old(self).spec_order(),
                old(self).spec_cap(),
                kh,
            ));
        }
        match old_v {
            Some(sn) => Some(sn.value),
            None => None,
        }
    }

    /// Looks a digest up and promotes its entry to most recently used,
    /// returning a borrow of the stored value.
    pub fn get_hashed(&mut self, kh: KeyHash) -> (r: Option<&V>)
        requires
            old(self).inv(),
        ensures
            final(self).inv(),
            final(self).spec_cap() == old(self).spec_cap(),
            final(self).spec_map() == old(self).spec_map(),
            final(self).spec_order().len() == old(self).spec_order().len(),
            match r {
                Some(v) => {
                    &&& old(self).spec_map().contains_key(kh)
                    &&& *v == old(self).spec_map()[kh]
                    &&& final(self).spec_map() =~= old(self).spec_map().insert(kh, *v)
                    &&& final(self).spec_order() == promote(old(self).spec_order(), kh)
                },
                None => {
                    &&& !old(self).spec_map().contains_key(kh)
                    &&& final(self).spec_order() == old(self).spec_order()
                },
            },
    {
        proof {
            old(self).storage.lemma_contains_iff_in_order(kh);
            old(self).spec_order().index_of_first_ensures(kh);
            if old(self).spec_order().contains(kh) {
                old(self).spec_order().remove_ensures(
                    old(self).spec_order().index_of_first(kh).unwrap(),
                );
            }
        }
        match self.storage.remove_hashed(kh) {
            Some(sn) => {
                proof {
                    let mid = self.storage;
                    mid.lemma_contains_iff_in_order(kh);
                    mid.spec_order().index_of_first_ensures(kh);
                }
                self.storage.insert_hashed(kh, sn);
                proof {
                    assert(self.spec_map() =~= old(self).spec_map());
                    assert(self.spec_order() == promote(old(self).spec_order(), kh));
                    assert(self.spec_order().len() == old(self).spec_order().len());
                    assert(self.spec_map() =~= old(self).spec_map().insert(
                        kh,
                        old(self).spec_map()[kh],
                    ));
                }
                match self.storage.get_hashed(kh) {
                    Some(node) => Some(&node.value().value),
                    None => {
                        proof {
                            assert(false);
                        }
                        None
                    },
                }
            },
            None => {
                proof {
                    assert(self.spec_map() =~= old(self).spec_map());
                }
                None
            },
        }
    }

    /// Looks a digest up, promotes its entry to most recently used, and
    /// hands out a mutable borrow of the stored value.
    pub fn get_hashed_mut(&mut self, kh: KeyHash) -> (r: Option<&mut V>)
        requires
            old(self).inv(),
        ensures
            final(self).inv(),
            final(self).spec_cap() == old(self).spec_cap(),
            final(self).spec_order().len() == old(self).spec_order().len(),
            match r {
                Some(v) => {
                    &&& old(self).spec_map().contains_key(kh)
                    &&& *v == old(self).spec_map()[kh]
                    &&& final(self).spec_map() =~= old(self).spec_map().insert(kh, *final(v))
                    &&& final(self).spec_order() == promote(old(self).spec_order(), kh)
                },
                None => {
                    &&& !old(self).spec_map().contains_key(kh)
                    &&& final(self).spec_map() =~= old(self).spec_map()
                    &&& final(self).spec_order() == old(self).spec_order()
                },
            },
    {
        proof {
            old(self).storage.lemma_contains_iff_in_order(kh);
            old(self).spec_order().index_of_first_ensures(kh);
            if old(self).spec_order().contains(kh) {
                old(self).spec_order().remove_ensures(
                    old(self).spec_order().index_of_first(kh).unwrap(),
                );
            }
        }
        match self.storage.remove_hashed(kh) {
            Some(sn) => {
                proof {
                    let mid = self.storage;
                    mid.lemma_contains_iff_in_order(kh);
                    mid.spec_order().index_of_first_ensures(kh);
                }
                self.storage.insert_hashed(kh, sn);
                proof {
                    assert(self.spec_map() =~= old(self).spec_map());
                    assert(self.spec_order() == promote(old(self).spec_order(), kh));
                    assert(self.spec_order().len() == old(self).spec_order().len());
                }
                match self.storage.get_hashed_mut(kh) {
                    Some(node) => Some(&mut node.value),
                    None => {
                        proof {
                            assert(false);
                        }
                        None
                    },
                }
            },
            None => {
                proof {
                    assert(self.spec_map() =~= old(self).spec_map());
                }
                None
            },
        }
    }

    /// Removes the entry stored under a digest, leaving the relative order
    /// of every other entry unchanged.
    pub fn remove_hashed(&mut self, kh: KeyHash) -> (removed: Option<V>)
        requires
            old(self).inv(),
        ensures
            final(self).inv(),
            final(self).spec_cap() == old(self).spec_cap(),
            final(self).spec_map() == old(self).spec_map().remove(kh),
            final(self).spec_order() == old(self).spec_order().remove_value(kh),
            removed == (if old(self).spec_map().contains_key(kh) {
                Some(old(self).spec_map()[kh])
            } else {
                None::<V>
            }),
    {
        proof {
            old(self).storage.lemma_contains_iff_in_order(kh);
            old(self).spec_order().index_of_first_ensures(kh);
            if old(self).spec_order().contains(kh) {
                old(self).spec_order().remove_ensures(
                    old(self).spec_order().index_of_first(kh).unwrap(),
                );
            }
        }
        let removed = self.storage.remove_hashed(kh);
        proof {
            assert(self.spec_map() =~= old(self).spec_map().remove(kh));
            assert(self.spec_order().len() <= old(self).spec_order().len());
        }
        match removed {
            Some(sn) => Some(sn.value),
            None => None,
        }
    }
}

impl<K, V> LruCache<K, V, RandomState> where K: Eq + Hash {
    /// Makes a new cache with a specified capacity, in number of elements,
    /// and the default hasher. A capacity of zero is normalized to one.
    pub fn with_capacity(capacity: usize) -> (r: Self)
        ensures
            r.inv(),
            r.spec_map() == Map::<KeyHash, V>::empty(),
            r.spec_order() == Seq::<KeyHash>::empty(),
            r.spec_cap() == (if capacity >= 1 {
                capacity as nat
            } else {
                1nat
            }),
    {
        LruCache::with_capacity_and_hash_builder(capacity, Default::default())
    }
}

impl<K, V, S> Cache<K, V> for LruCache<K, V, S> where K: Eq + Hash, S: BuildHasher {
    open spec fn wf(&self) -> bool {
        self.inv()
    }

    open spec fn spec_len(&self) -> nat {
        self.spec_order().len()
    }

    open spec fn spec_capacity(&self) -> nat {
        self.spec_cap()
    }

    /// Inserting stores the value under the key's digest, promotes it to the
    /// front, and evicts the least recently used entry exactly when the
    /// digest is new and the cache is full.
    open spec fn spec_inserted(pre: Self, post: Self, v: V, prev: Option<V>) -> bool {
        exists|kh: KeyHash|
            {
                &&& post.spec_map() == insert_step_map(
                    pre.spec_map(),
                    pre.spec_order(),
                    pre.spec_cap(),
                    kh,
                    v,
                )
                &&& post.spec_order() == insert_step_order(pre.spec_order(), pre.spec_cap(), kh)
                &&& prev == (if pre.spec_map().contains_key(kh) {
                    Some(pre.spec_map()[kh])
                } else {
                    None::<V>
                })
            }
    }

    /// A hit returns the stored value for the key's digest, promotes the
    /// entry, and writes back whatever is left in the returned borrow.
    open spec fn spec_hit(pre: Self, post: Self, cur: V, fin: V) -> bool {
        exists|kh: KeyHash|
            {
                &&& pre.spec_map().contains_key(kh)
                &&& cur == pre.spec_map()[kh]
                &&& post.spec_map() =~= pre.spec_map().insert(kh, fin)
                &&& post.spec_order() == promote(pre.spec_order(), kh)
            }
    }

    /// A miss leaves the cache exactly as it was.
    open spec fn spec_missed(pre: Self, post: Self) -> bool {
        post.spec_map() == pre.spec_map() && post.spec_order() == pre.spec_order()
    }

    /// Removal deletes the entry under the key's digest, keeping the
    /// relative order of everything else.
    open spec fn spec_removed(pre: Self, post: Self, removed: Option<V>) -> bool {
        exists|kh: KeyHash|
            {
                &&& post.spec_map() == pre.spec_map().remove(kh)
                &&& post.spec_order() == pre.spec_order().remove_value(kh)
                &&& removed == (if pre.spec_map().contains_key(kh) {
                    Some(pre.spec_map()[kh])
                } else {
                    None::<V>
                })
            }
    }

    fn insert(&mut self, k: K, v: V) -> (prev: Option<V>) {
        let kh = self.hash_k(&k);
        let prev = self.insert_hashed(kh, v);
        proof {
            assert(Self::spec_inserted(*old(self), *self, v, prev));
        }
        prev
    }

    fn get<'a, Q: Hash + Eq>(&'a mut self, k: &Q) -> (r: Option<&'a V>) {
        let kh = self.hash_k(k);
        self.get_hashed(kh)
    }

    fn get_mut<'a, Q: Hash + Eq>(&'a mut self, k: &Q) -> (r: Option<&'a mut V>) {
        let kh = self.hash_k(k);
        self.get_hashed_mut(kh)
    }

    fn remove<Q: Hash + Eq>(&mut self, k: &Q) -> (removed: Option<V>) {
        let kh = self.hash_k(k);
        let removed = self.remove_hashed(kh);
        proof {
            let ord = old(self).spec_order();
            ord.index_of_first_ensures(kh);
            if ord.contains(kh) {
                ord.remove_ensures(ord.index_of_first(kh).unwrap());
            }
            assert(Self::spec_removed(*old(self), *self, removed));
        }
        removed
    }

    fn clear(&mut self) {
        self.storage.clear();
    }

    fn len(&self) -> (n: usize) {
        self.storage.len()
    }
}

} // verus!
