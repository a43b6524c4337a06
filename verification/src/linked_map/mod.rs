//! The digest-keyed recency index: a hash table whose entries are linked to
//! one another by digest, so that they can be walked from the most recently
//! inserted entry to the least recent one without any auxiliary array.

pub mod linked_hash_map;

pub use linked_hash_map::LinkedHashMap;

use vstd::prelude::*;

verus! {

/// The fixed-width digest that stands for a key in storage. Keys themselves
/// are never retained; only their digest is.
pub type KeyHash = u64;

/// A stored value together with the digests of its neighbours in the recency
/// chain. `left` points one step toward the head (the most recent entry),
/// `right` one step toward the tail (the least recent entry).
#[derive(Debug, PartialEq)]
pub struct LinkedMapNode<V> {
    pub(crate) left: Option<KeyHash>,
    pub(crate) value: V,
    pub(crate) right: Option<KeyHash>,
}

impl<V> LinkedMapNode<V> {
    /// The digest of the entry one step closer to the head, if any.
    pub closed spec fn spec_left(self) -> Option<KeyHash> {
        self.left
    }

    /// The stored value.
    pub closed spec fn spec_value(self) -> V {
        self.value
    }

    /// The digest of the entry one step closer to the tail, if any.
    pub closed spec fn spec_right(self) -> Option<KeyHash> {
        self.right
    }

    /// The stored value, by reference.
    pub fn value(&self) -> (v: &V)
        ensures
            *v == self.spec_value(),
    {
        &self.value
    }
}

} // verus!
