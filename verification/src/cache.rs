//! The capability interface: the operation contract every cache variant
//! satisfies, so that decorators can wrap any implementation without
//! re-implementing or breaking its eviction logic.

use std::hash::Hash;
use vstd::prelude::*;

verus! {

/// Describes what a cache is.
///
/// Each implementation brings its own invariant (`wf`) and its own meaning
/// for the operations, given as relations between the state before a call,
/// the state after it, and the values that crossed the boundary. Every
/// operation keeps the capacity fixed and the entry count within it.
pub trait Cache<K, V>: Sized where K: Eq + Hash {
    /// The cache's internal well-formedness invariant. Constructors
    /// establish it and every operation preserves it.
    spec fn wf(&self) -> bool;

    /// The number of live entries.
    spec fn spec_len(&self) -> nat;

    /// The fixed capacity the cache was built with.
    spec fn spec_capacity(&self) -> nat;

    /// What a completed `insert` of value `v` did to the cache, and which
    /// previous value it handed back.
    spec fn spec_inserted(pre: Self, post: Self, v: V, prev: Option<V>) -> bool;

    /// What a hit of `get`/`get_mut` did: an entry holding `cur` was found
    /// and promoted, and `fin` is the value left behind through the returned
    /// borrow.
    spec fn spec_hit(pre: Self, post: Self, cur: V, fin: V) -> bool;

    /// What a miss of `get`/`get_mut` did to the cache.
    spec fn spec_missed(pre: Self, post: Self) -> bool;

    /// What a completed `remove` did to the cache.
    spec fn spec_removed(pre: Self, post: Self, removed: Option<V>) -> bool;

    /// Push a new element into the cache, which may evict the oldest item if
    /// the cache is at capacity. Returns the previous value in the cache if
    /// the key already had a value there. The new entry becomes the youngest
    /// item in the cache.
    fn insert(&mut self, k: K, v: V) -> (prev: Option<V>)
        requires
            old(self).wf(),
        ensures
            final(self).wf(),
            final(self).spec_capacity() == old(self).spec_capacity(),
            final(self).spec_len() <= final(self).spec_capacity(),
            Self::spec_inserted(*old(self), *final(self), v, prev),
    ;

    /// Get an item from the cache. This also makes the item the youngest
    /// item in the cache and the least eligible for eviction.
    fn get<'a, Q: Hash + Eq>(&'a mut self, k: &Q) -> (r: Option<&'a V>)
        requires
            old(self).wf(),
        ensures
            final(self).wf(),
            final(self).spec_capacity() == old(self).spec_capacity(),
            final(self).spec_len() <= old(self).spec_len(),
            match r {
                Some(v) => Self::spec_hit(*old(self), *final(self), *v, *v),
                None => Self::spec_missed(*old(self), *final(self)),
            },
    ;

    /// Get a mutable reference to an item from the cache. This also makes
    /// the item the youngest item in the cache and the least eligible for
    /// eviction.
    fn get_mut<'a, Q: Hash + Eq>(&'a mut self, k: &Q) -> (r: Option<&'a mut V>)
        requires
            old(self).wf(),
        ensures
            final(self).wf(),
            final(self).spec_capacity() == old(self).spec_capacity(),
            final(self).spec_len() <= old(self).spec_len(),
            match r {
                Some(v) => Self::spec_hit(*old(self), *final(self), *v, *final(v)),
                None => Self::spec_missed(*old(self), *final(self)),
            },
    ;

    /// Remove an item from the cache, returning whatever was there. Does not
    /// affect the relative order of the other entries.
    fn remove<Q: Hash + Eq>(&mut self, k: &Q) -> (removed: Option<V>)
        requires
            old(self).wf(),
        ensures
            final(self).wf(),
            final(self).spec_capacity() == old(self).spec_capacity(),
            final(self).spec_len() <= old(self).spec_len(),
            Self::spec_removed(*old(self), *final(self), removed),
    ;

    /// Clears the cache entirely. The capacity is retained for future use.
    fn clear(&mut self)
        requires
            old(self).wf(),
        ensures
            final(self).wf(),
            final(self).spec_capacity() == old(self).spec_capacity(),
            final(self).spec_len() == 0,
    ;

    /// The number of items stored in the cache right now.
    fn len(&self) -> (n: usize)
        requires
            self.wf(),
        ensures
            n == self.spec_len(),
    ;
}

} // verus!
