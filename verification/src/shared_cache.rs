//! A wrapper that makes a cache shareable across thread boundaries: one
//! exclusive-access lock around the whole inner cache, handed around by
//! reference-counted handles. Every operation takes the lock in writer mode,
//! because even a lookup reorders the recency chain; `get` clones the value
//! out so the lock is held only for the lookup itself.
//!
//! Each operation is a verified function of the inner cache; only taking
//! and releasing the lock is trusted. The lock slot holds `Option<C>` so
//! the cache can be moved out for the operation's duration: the slot is
//! empty exactly while an operation holds the lock, so a panic inside one
//! leaves it empty for good, and later calls fail loudly on the unusable
//! lock instead of reading a cache in an unknown state.

use crate::cache::Cache;
use parking_lot::RwLock;
use std::hash::Hash;
use std::marker::PhantomData;
use std::sync::Arc;
use vstd::prelude::*;

verus! {

/// The lock state word parking_lot's reader/writer lock is built on.
#[verifier::external_type_specification]
#[verifier::external_body]
pub struct ExRawRwLock(parking_lot::RawRwLock);

/// The reader/writer lock that guards the shared cache.
#[verifier::external_type_specification]
#[verifier::external_body]
#[verifier::reject_recursive_types(R)]
#[verifier::reject_recursive_types(T)]
pub struct ExRwLock<R, T: ?Sized>(lock_api::RwLock<R, T>);

/// Wrapper for a cache which is shareable across thread boundaries.
/// Cloning the wrapper yields a second handle to the same cache, not a copy
/// of its contents; the cache is torn down when the last handle is dropped.
///
/// Another handle may operate on the cache between any two calls through
/// this one, so each call promises only what one application of its
/// operation to some well-formed cache can promise.
#[verifier::reject_recursive_types(C)]
pub struct SharedCache<C, K, V>(
    Arc<RwLock<Option<C>>>,
    PhantomData<K>,
    PhantomData<V>,
) where C: Cache<K, V>, K: Eq + Hash, V: Clone;

impl<C, K, V> SharedCache<C, K, V> where C: Cache<K, V>, K: Eq + Hash, V: Clone {
    /// The result `r` is what one application of `f` to some well-formed
    /// cache handed back, with the cache `f` returned left behind the lock.
    pub open spec fn spec_write_result<R, F: FnOnce(C) -> (C, R)>(f: F, r: R) -> bool {
        exists|c: C, y: (C, R)| c.wf() && #[trigger] call_ensures(f, (c,), y) && r == y.1
    }

    /// The result `r` is what `f` handed back for some well-formed cache it
    /// was shown under the shared lock.
    pub open spec fn spec_read_result<R, F: FnOnce(&C) -> R>(f: F, r: R) -> bool {
        exists|c: &C| c.wf() && #[trigger] call_ensures(f, (c,), r)
    }

    /// Takes the exclusive lock and applies one operation to the cache
    /// behind it. The operation must accept every well-formed cache and
    /// leave the cache it returns well formed; what came back is the
    /// operation's result on some such cache.
    ///
    /// Relies on `parking_lot::RwLock::write` to hold the lock exclusively
    /// while `f` runs. The slot holds a well-formed cache whenever the lock
    /// is free: construction requires one, every operation admitted here
    /// returns one, and a slot emptied by a panicking operation is never
    /// refilled — this call then panics rather than touch a cache in an
    /// unknown state.
    #[verifier::external_body]
    fn with_write<R, F: FnOnce(C) -> (C, R)>(&self, f: F) -> (r: R)
        requires
            forall|c: C| c.wf() ==> #[trigger] call_requires(f, (c,)),
            forall|c: C, y: (C, R)| #[trigger] call_ensures(f, (c,), y) ==> y.0.wf(),
        ensures
            Self::spec_write_result(f, r),
    {
        let mut guard = self.0.write();
        let cache = guard.take().expect("an earlier operation panicked while it held the lock");
        let (cache, r) = f(cache);
        *guard = Some(cache);
        r
    }

    /// Takes the lock shared and applies one read-only operation to the
    /// cache behind it; what came back is the operation's result on some
    /// well-formed cache.
    ///
    /// Relies on `parking_lot::RwLock::read`; the slot discipline is that
    /// of `with_write`.
    #[verifier::external_body]
    fn with_read<R, F: FnOnce(&C) -> R>(&self, f: F) -> (r: R)
        requires
            forall|c: &C| c.wf() ==> #[trigger] call_requires(f, (c,)),
        ensures
            Self::spec_read_result(f, r),
    {
        let guard = self.0.read();
        let cache = guard.as_ref().expect("an earlier operation panicked while it held the lock");
        f(cache)
    }

    /// Wraps a cache into a shared cache accessor, making it safe to move
    /// across thread boundaries. Enforces an additional constraint of
    /// `Clone` on values. The cache handed in must be well formed: every
    /// later locked operation starts from that.
    ///
    /// Relies on `parking_lot::RwLock` (through `RwLock::from`) and
    /// `Arc::from` to build the lock and its first handle.
    #[verifier::external_body]
    pub fn with_cache(cache: C) -> Self
        requires
            cache.wf(),
    {
        Self(Arc::from(RwLock::from(Some(cache))), PhantomData, PhantomData)
    }

    /// Inserts an item into the cache: one verified `insert` on the locked
    /// cache, which another handle may have reshaped since any earlier
    /// call.
    pub fn insert(&self, k: K, v: V) -> (prev: Option<V>)
        ensures
            exists|pre: C, post: C|
                pre.wf() && post.wf() && #[trigger] C::spec_inserted(pre, post, v, prev),
    {
        let f = |cache: C| -> (res: (C, Option<V>))
            requires
                cache.wf(),
            ensures
                res.0.wf(),
                C::spec_inserted(cache, res.0, v, res.1),
            {
                let mut cache = cache;
                let prev = cache.insert(k, v);
                (cache, prev)
            };
        let prev = self.with_write(f);
        proof {
            let (c, y): (C, (C, Option<V>)) = choose|c: C, y: (C, Option<V>)|
                c.wf() && call_ensures(f, (c,), y) && prev == y.1;
            assert(C::spec_inserted(c, y.0, v, prev));
        }
        prev
    }

    /// Get an item from the cache. This clones it to minimize the lock time
    /// of the cache: one verified `get` runs under the lock, and the value
    /// found, if any, is cloned out before the lock is released.
    pub fn get(&self, k: &K) -> (r: Option<V>)
        ensures
            r is Some ==> exists|pre: C, post: C, cur: V, fin: V|
                pre.wf() && post.wf() && #[trigger] C::spec_hit(pre, post, cur, fin),
            r is None ==> exists|pre: C, post: C|
                pre.wf() && post.wf() && #[trigger] C::spec_missed(pre, post),
    {
        let f = |cache: C| -> (res: (C, Option<V>))
            requires
                cache.wf(),
            ensures
                res.0.wf(),
                res.1 is Some ==> exists|cur: V, fin: V| #[trigger] C::spec_hit(
                    cache,
                    res.0,
                    cur,
                    fin,
                ),
                res.1 is None ==> C::spec_missed(cache, res.0),
            {
                let mut cache = cache;
                let r = match cache.get(k) {
                    Some(v) => Some(v.clone()),
                    None => None,
                };
                (cache, r)
            };
        let r = self.with_write(f);
        proof {
            let (c, y): (C, (C, Option<V>)) = choose|c: C, y: (C, Option<V>)|
                c.wf() && call_ensures(f, (c,), y) && r == y.1;
            assert(y.0.wf());
            match r {
                Some(_) => {
                    let (cur, fin): (V, V) = choose|cur: V, fin: V|
                        C::spec_hit(c, y.0, cur, fin);
                    assert(C::spec_hit(c, y.0, cur, fin));
                },
                None => {
                    assert(C::spec_missed(c, y.0));
                },
            }
        }
        r
    }

    /// Remove an item from the cache, returning the removed item if it
    /// existed: one verified `remove` on the locked cache.
    pub fn remove(&self, k: &K) -> (removed: Option<V>)
        ensures
            exists|pre: C, post: C|
                pre.wf() && post.wf() && #[trigger] C::spec_removed(pre, post, removed),
    {
        let f = |cache: C| -> (res: (C, Option<V>))
            requires
                cache.wf(),
            ensures
                res.0.wf(),
                C::spec_removed(cache, res.0, res.1),
            {
                let mut cache = cache;
                let removed = cache.remove(k);
                (cache, removed)
            };
        let removed = self.with_write(f);
        proof {
            let (c, y): (C, (C, Option<V>)) = choose|c: C, y: (C, Option<V>)|
                c.wf() && call_ensures(f, (c,), y) && removed == y.1;
            assert(C::spec_removed(c, y.0, removed));
        }
        removed
    }

    /// Clears the cache: one verified `clear` on the locked cache, leaving
    /// it empty at the moment the lock is released. With no returned value
    /// to anchor it, nothing of the emptiness survives into a contract
    /// here: another handle may refill the cache before this call returns.
    pub fn clear(&self) {
        let f = |cache: C| -> (res: (C, ()))
            requires
                cache.wf(),
            ensures
                res.0.wf(),
                res.0.spec_len() == 0,
            {
                let mut cache = cache;
                cache.clear();
                (cache, ())
            };
        self.with_write(f);
    }

    /// The number of elements in the cache at the moment the shared lock
    /// was held.
    pub fn len(&self) -> (n: usize)
        ensures
            exists|c: C| c.wf() && n == c.spec_len(),
    {
        let f = |cache: &C| -> (n: usize)
            requires
                cache.wf(),
            ensures
                n == cache.spec_len(),
            {
                cache.len()
            };
        let n = self.with_read(f);
        proof {
            let c: &C = choose|c: &C| c.wf() && call_ensures(f, (c,), n);
            assert(n == c.spec_len());
        }
        n
    }
}

impl<C, K, V> Clone for SharedCache<C, K, V> where C: Cache<K, V>, K: Eq + Hash, V: Clone {
    /// Yields a second handle aliasing the same inner cache.
    ///
    /// Relies on `Arc::clone` to share ownership of the lock.
    #[verifier::external_body]
    fn clone(&self) -> Self {
        SharedCache(self.0.clone(), PhantomData, PhantomData)
    }
}

} // verus!
