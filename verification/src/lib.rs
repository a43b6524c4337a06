//! An in-memory caching engine with least-recently-used eviction, plus
//! composable decorators for time-to-live expiry and thread-safe sharing.

mod cache;
mod expiring_cache;
mod laws;
mod linked_list;
mod linked_map;
mod lru_cache;
mod null_hasher;
mod shared_cache;

pub use cache::Cache;
pub use expiring_cache::{spec_elapsed, spec_expired, ExpiringCache, NANOS_PER_SEC};
pub use laws::{fill_order, lemma_capacity_invariant, lemma_eviction_correctness, lemma_fill_distinct, lemma_idempotent_update, lemma_promotion_correctness, lemma_removal_independence, lemma_ttl_lazy_expiry, lemma_ttl_timeout_mutation};
pub use linked_map::linked_hash_map::{seq_next, seq_prev, LinkedHashMapIter, ReverseLinkedHashMapIter};
pub use linked_list::{LinkedList, NodeHandle};
pub use linked_map::{KeyHash, LinkedHashMap, LinkedMapNode};
pub use lru_cache::{insert_step_map, insert_step_order, promote, LruCache};
pub use null_hasher::{BuildNullHasher, NullHasher};
pub use shared_cache::SharedCache;
