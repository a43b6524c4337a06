//! A layer on top of `HashMap` that links entries together by digest so they
//! can be walked in recency order: the newest entry is the head of the chain,
//! the oldest is the tail.

use super::{KeyHash, LinkedMapNode};
use std::collections::hash_map::RandomState;
use std::collections::HashMap;
use std::collections::hash_map::Entry;
use std::hash::{BuildHasher, Hash};
use std::marker::PhantomData;
use vstd::prelude::*;
use vstd::seq_lib::*;

verus! {

/// Construction of the standard library's default hash builder.
/// Relies on `RandomState::default`; nothing is assumed about the hasher it
/// yields, since it is freshly seeded for each builder.
pub assume_specification[ <RandomState as core::default::Default>::default ]() -> (r: RandomState);

/// The digest one step toward the head from position `i` of the recency
/// order, if any.
pub open spec fn seq_prev(ord: Seq<KeyHash>, i: int) -> Option<KeyHash> {
    if i <= 0 {
        None
    } else {
        Some(ord[i - 1])
    }
}

/// The digest one step toward the tail from position `i` of the recency
/// order, if any.
pub open spec fn seq_next(ord: Seq<KeyHash>, i: int) -> Option<KeyHash> {
    if i >= ord.len() - 1 {
        None
    } else {
        Some(ord[i + 1])
    }
}

/// The interior map as it stands after removing the entry for `kh` and
/// splicing its two neighbours together.
pub(crate) open spec fn splice_out<V>(
    m: Map<KeyHash, LinkedMapNode<V>>,
    kh: KeyHash,
    node: LinkedMapNode<V>,
) -> Map<KeyHash, LinkedMapNode<V>> {
    let m1 = m.remove(kh);
    let m1b = match node.left {
        Some(lk) => m1.insert(
            lk,
            LinkedMapNode { left: m1[lk].left, value: m1[lk].value, right: node.right },
        ),
        None => m1,
    };
    match node.right {
        Some(rk) => m1b.insert(
            rk,
            LinkedMapNode { left: node.left, value: m1b[rk].value, right: m1b[rk].right },
        ),
        None => m1b,
    }
}

/// A map from key digests to values whose entries are additionally linked
/// together, newest first. Keys are reduced to a 64-bit digest before
/// storage; two keys with the same digest are indistinguishable and share one
/// entry.
pub struct LinkedHashMap<K, V, S = RandomState> where K: Eq + Hash, S: BuildHasher {
    hash_builder: S,
    interior_map: HashMap<KeyHash, LinkedMapNode<V>>,
    head: Option<KeyHash>,
    tail: Option<KeyHash>,
    order: Ghost<Seq<KeyHash>>,
    kpd: PhantomData<K>,
}

impl<K, V, S> LinkedHashMap<K, V, S> where K: Eq + Hash, S: BuildHasher {
    /// The digests of the live entries, most recently inserted first.
    pub closed spec fn spec_order(self) -> Seq<KeyHash> {
        self.order@
    }

    /// The stored values, keyed by digest.
    pub closed spec fn spec_map(self) -> Map<KeyHash, V> {
        self.interior_map@.map_values(|n: LinkedMapNode<V>| n.value)
    }

    /// The number of live entries.
    pub open spec fn spec_len(self) -> nat {
        self.spec_order().len()
    }

    /// Every live entry sits at exactly one position of the recency order,
    /// and its stored links agree with that position.
    spec fn linked(self) -> bool {
        forall|i: int|
            #![trigger self.order@[i]]
            0 <= i < self.order@.len() ==> {
                &&& self.interior_map@.contains_key(self.order@[i])
                &&& self.interior_map@[self.order@[i]].left == seq_prev(self.order@, i)
                &&& self.interior_map@[self.order@[i]].right == seq_next(self.order@, i)
            }
    }

    /// Well-formedness: the recency order lists each stored digest exactly
    /// once, the chain links agree with it, and `head`/`tail` are its ends.
    pub closed spec fn wf(self) -> bool {
        &&& self.order@.no_duplicates()
        &&& self.interior_map@.dom() =~= self.order@.to_set()
        &&& self.linked()
        &&& self.head == (if self.order@.len() == 0 {
            None::<KeyHash>
        } else {
            Some(self.order@[0])
        })
        &&& self.tail == (if self.order@.len() == 0 {
            None::<KeyHash>
        } else {
            Some(self.order@[self.order@.len() - 1])
        })
    }

    /// A digest is stored exactly when the recency order mentions it.
    pub(crate) proof fn lemma_contains_iff_in_order(self, kh: KeyHash)
        requires
            self.wf(),
        ensures
            self.spec_map().contains_key(kh) <==> self.spec_order().contains(kh),
    {
        assert(self.interior_map@.dom().contains(kh) == self.order@.to_set().contains(kh));
    }

    /// In a duplicate-free order, `index_of` finds the one position of a
    /// digest the order contains.
    pub(crate) proof fn lemma_index_of(self, kh: KeyHash)
        requires
            self.wf(),
            self.spec_order().contains(kh),
        ensures
            0 <= self.spec_order().index_of(kh) < self.spec_order().len(),
            self.spec_order()[self.spec_order().index_of(kh)] == kh,
            forall|j: int|
                0 <= j < self.spec_order().len() && self.spec_order()[j] == kh ==> j
                    == self.spec_order().index_of(kh),
    {
        let ord = self.spec_order();
        let i = ord.index_of(kh);
        assert(0 <= i < ord.len() && ord[i] == kh);
        assert forall|j: int| 0 <= j < ord.len() && ord[j] == kh implies j == i by {
            if j != i {
                assert(ord[i] == ord[j]);
            }
        }
    }

    /// Reduces a key to the digest it is stored under. Which digest a key
    /// maps to depends on the hash builder this map was built with; equal
    /// keys always map to the same digest within one map.
    ///
    /// Relies on `std::hash::BuildHasher::hash_one` to compute the digest of
    /// `k` under this map's hash builder.
    #[verifier::external_body]
    fn k_hash<Q: Hash + Eq>(&self, k: &Q) -> KeyHash {
        self.hash_builder.hash_one(k)
    }

    /// What one insertion does once the key's digest `kh` is known: the
    /// value is stored under `kh` at the front of the recency order, and any
    /// previous value under the same digest is handed back.
    pub open spec fn spec_inserted_at(
        pre: Self,
        post: Self,
        kh: KeyHash,
        v: V,
        prev: Option<V>,
    ) -> bool {
        &&& post.spec_map() == pre.spec_map().insert(kh, v)
        &&& post.spec_order() == seq![kh] + pre.spec_order().remove_value(kh)
        &&& match prev {
            Some(pv) => pre.spec_map().contains_key(kh) && pv == pre.spec_map()[kh],
            None => !pre.spec_map().contains_key(kh),
        }
    }

    /// What one removal does once the key's digest `kh` is known.
    pub open spec fn spec_removed_at(
        pre: Self,
        post: Self,
        kh: KeyHash,
        removed: Option<V>,
    ) -> bool {
        &&& post.spec_map() == pre.spec_map().remove(kh)
        &&& post.spec_order() == pre.spec_order().remove_value(kh)
        &&& match removed {
            Some(v) => pre.spec_map().contains_key(kh) && v == pre.spec_map()[kh],
            None => !pre.spec_map().contains_key(kh),
        }
    }

    /// Makes a new linked map with the given capacity and hash builder.
    pub fn with_capacity_and_hash_builder(capacity: usize, hash_builder: S) -> (r: Self)
        ensures
            r.wf(),
            r.spec_map() == Map::<KeyHash, V>::empty(),
            r.spec_order() == Seq::<KeyHash>::empty(),
    {
        let r = Self {
            hash_builder,
            interior_map: HashMap::with_capacity(capacity),
            head: None,
            tail: None,
            order: Ghost(Seq::empty()),
            kpd: PhantomData,
        };
        proof {
            assert(r.interior_map@.dom() =~= r.order@.to_set());
            assert(r.spec_map() =~= Map::<KeyHash, V>::empty());
        }
        r
    }

    /// The number of entries in the map.
    pub fn len(&self) -> (n: usize)
        requires
            self.wf(),
        ensures
            n == self.spec_len(),
    {
        proof {
            self.order@.unique_seq_to_set();
        }
        self.interior_map.len()
    }

    /// Removes every entry. The allocated storage is kept for reuse.
    pub fn clear(&mut self)
        requires
            old(self).wf(),
        ensures
            final(self).wf(),
            final(self).spec_map() == Map::<KeyHash, V>::empty(),
            final(self).spec_order() == Seq::<KeyHash>::empty(),
    {
        self.interior_map.clear();
        self.head = None;
        self.tail = None;
        self.order = Ghost(Seq::empty());
        proof {
            assert(self.interior_map@.dom() =~= self.order@.to_set());
            assert(self.spec_map() =~= Map::<KeyHash, V>::empty());
        }
    }

    /// Links a digest that is not yet stored in as the new head of the
    /// chain.
    fn attach_front(&mut self, kh: KeyHash, v: V)
        requires
            old(self).wf(),
            !old(self).spec_map().contains_key(kh),
        ensures
            final(self).wf(),
            final(self).spec_map() == old(self).spec_map().insert(kh, v),
            final(self).spec_order() == seq![kh] + old(self).spec_order(),
    {
        proof {
            self.lemma_contains_iff_in_order(kh);
        }
        let ghost old_ord = self.order@;
        let ghost old_map = self.interior_map@;
        // relink the previous head, if any, to point back at the new entry
        if let Some(k_head) = self.head {
            proof {
                assert(old_ord[0] == k_head);
                assert(self.interior_map@.dom().contains(k_head));
            }
            let head_opt = self.interior_map.remove(&k_head);
            let mut head_node = head_opt.unwrap();
            head_node.left = Some(kh);
            self.interior_map.insert(k_head, head_node);
        }
        let node = LinkedMapNode { left: None, value: v, right: self.head };
        self.interior_map.insert(kh, node);
        self.head = Some(kh);
        if self.tail.is_none() {
            self.tail = Some(kh);
        }
        self.order = Ghost(seq![kh] + old_ord);
        proof {
            let ord2 = self.order@;
            let m2 = self.interior_map@;
            assert forall|i: int, j: int|
                0 <= i < ord2.len() && 0 <= j < ord2.len() && i != j implies ord2[i] != ord2[j] by {
                if i >= 1 && j >= 1 {
                    assert(old_ord[i - 1] != old_ord[j - 1]);
                } else if i == 0 {
                    assert(old_ord.contains(old_ord[j - 1]));
                } else {
                    assert(old_ord.contains(old_ord[i - 1]));
                }
            }
            assert(ord2.no_duplicates());
            assert(m2.dom() =~= ord2.to_set()) by {
                assert forall|x: KeyHash| ord2.to_set().contains(x) implies m2.dom().contains(
                    x,
                ) by {
                    let i = choose|i: int| 0 <= i < ord2.len() && ord2[i] == x;
                    if i >= 1 {
                        assert(old_ord[i - 1] == x);
                        assert(old_ord.contains(x));
                        assert(old_map.dom().contains(x));
                    }
                }
                assert forall|x: KeyHash| m2.dom().contains(x) implies ord2.to_set().contains(
                    x,
                ) by {
                    if x != kh {
                        assert(old_map.dom().contains(x));
                        assert(old_ord.contains(x));
                        let i = choose|i: int| 0 <= i < old_ord.len() && old_ord[i] == x;
                        assert(ord2[i + 1] == x);
                        assert(ord2.contains(x));
                    } else {
                        assert(ord2[0] == kh);
                        assert(ord2.contains(kh));
                    }
                }
            }
            assert forall|i: int|
                #![trigger ord2[i]]
                0 <= i < ord2.len() implies {
                &&& m2.contains_key(ord2[i])
                &&& m2[ord2[i]].left == seq_prev(ord2, i)
                &&& m2[ord2[i]].right == seq_next(ord2, i)
            } by {
                if i == 0 {
                    assert(ord2[0] == kh);
                } else {
                    assert(ord2[i] == old_ord[i - 1]);
                    assert(old_ord.contains(old_ord[i - 1]));
                    if i == 1 {
                        assert(old_ord[0] == ord2[1]);
                    } else {
                        assert(old_ord[i - 1] != kh);
                        assert(old_ord[i - 1] != old_ord[0]);
                    }
                }
            }
            assert(self.spec_map() =~= old(self).spec_map().insert(kh, v));
        }
    }

    /// Removes the entry stored under a digest, splicing its two neighbours
    /// together so the chain stays whole. The relative order of every other
    /// entry is untouched.
    pub fn remove_hashed(&mut self, kh: KeyHash) -> (removed: Option<V>)
        requires
            old(self).wf(),
        ensures
            final(self).wf(),
            final(self).spec_map() == old(self).spec_map().remove(kh),
            final(self).spec_order() == old(self).spec_order().remove_value(kh),
            match removed {
                Some(v) => old(self).spec_map().contains_key(kh) && v == old(self).spec_map()[kh],
                None => !old(self).spec_map().contains_key(kh),
            },
    {
        proof {
            self.lemma_contains_iff_in_order(kh);
            self.order@.index_of_first_ensures(kh);
        }
        let ghost old_ord = self.order@;
        let ghost old_map = self.interior_map@;
        let removed = self.interior_map.remove(&kh);
        match removed {
            None => {
                proof {
                    assert(self.interior_map@ =~= old_map);
                    assert(self.spec_map() =~= old(self).spec_map().remove(kh));
                }
                None
            },
            Some(node) => {
                proof {
                    old(self).lemma_index_of(kh);
                }
                let ghost i = old_ord.index_of(kh);
                // splice the neighbours together
                if let Some(lk) = node.left {
                    proof {
                        assert(old_ord[i] == kh);
                        assert(lk == old_ord[i - 1]);
                        assert(self.interior_map@.dom().contains(lk));
                    }
                    let ln_opt = self.interior_map.remove(&lk);
                    let mut ln = ln_opt.unwrap();
                    ln.right = node.right;
                    self.interior_map.insert(lk, ln);
                }
                if let Some(rk) = node.right {
                    proof {
                        assert(old_ord[i] == kh);
                        assert(rk == old_ord[i + 1]);
                        assert(self.interior_map@.dom().contains(rk));
                    }
                    let rn_opt = self.interior_map.remove(&rk);
                    let mut rn = rn_opt.unwrap();
                    rn.left = node.left;
                    self.interior_map.insert(rk, rn);
                }
                // advance the ends past the removed entry
                if self.head == Some(kh) {
                    self.head = node.right;
                }
                if self.tail == Some(kh) {
                    self.tail = node.left;
                }
                self.order = Ghost(old_ord.remove(i));
                proof {
                    assert(self.interior_map@ =~= splice_out(old_map, kh, node));
                    self.lemma_remove_restores_wf(*old(self), kh, node);
                }
                Some(node.value)
            },
        }
    }

    /// After `remove_hashed` has spliced the chain back together, the map is
    /// well formed again and its model is the old one minus the removed
    /// digest.
    proof fn lemma_remove_restores_wf(self, pre: Self, kh: KeyHash, node: LinkedMapNode<V>)
        requires
            pre.wf(),
            pre.spec_map().contains_key(kh),
            node == pre.interior_map@[kh],
            self.order@ == pre.order@.remove(pre.order@.index_of(kh)),
            self.interior_map@ == splice_out(pre.interior_map@, kh, node),
            self.head == (if pre.head == Some(kh) {
                node.right
            } else {
                pre.head
            }),
            self.tail == (if pre.tail == Some(kh) {
                node.left
            } else {
                pre.tail
            }),
        ensures
            self.wf(),
            self.spec_map() == pre.spec_map().remove(kh),
            self.spec_order() == pre.spec_order().remove_value(kh),
    {
        pre.lemma_contains_iff_in_order(kh);
        pre.lemma_index_of(kh);
        let ord = pre.order@;
        let i = ord.index_of(kh);
        let ord2 = self.order@;
        let m = pre.interior_map@;
        let m2 = self.interior_map@;
        ord.remove_ensures(i);
        ord.index_of_first_ensures(kh);
        assert(ord.remove_value(kh) == ord.remove(i));
        // the removed digest sits nowhere in the shortened order
        assert forall|j: int, l: int|
            0 <= j < ord2.len() && 0 <= l < ord2.len() && j != l implies ord2[j] != ord2[l] by {
            let ja = if j < i {
                j
            } else {
                j + 1
            };
            let la = if l < i {
                l
            } else {
                l + 1
            };
            assert(ord2[j] == ord[ja] && ord2[l] == ord[la]);
        }
        assert(ord2.no_duplicates());
        assert forall|j: int| 0 <= j < ord2.len() implies #[trigger] ord2[j] != kh by {
            let ja = if j < i {
                j
            } else {
                j + 1
            };
            assert(ord2[j] == ord[ja]);
        }
        assert(m2.dom() =~= ord2.to_set()) by {
            assert forall|x: KeyHash| ord2.to_set().contains(x) implies m2.dom().contains(x) by {
                let j = choose|j: int| 0 <= j < ord2.len() && ord2[j] == x;
                let ja = if j < i {
                    j
                } else {
                    j + 1
                };
                assert(ord[ja] == x);
                assert(ord.contains(x));
                assert(m.dom().contains(x));
                assert(x != kh);
            }
            assert forall|x: KeyHash| m2.dom().contains(x) implies ord2.to_set().contains(x) by {
                assert(x != kh);
                assert(m.dom().contains(x));
                assert(ord.contains(x));
                let ja = choose|ja: int| 0 <= ja < ord.len() && ord[ja] == x;
                assert(ja != i);
                let j = if ja < i {
                    ja
                } else {
                    ja - 1
                };
                assert(ord2[j] == x);
                assert(ord2.contains(x));
            }
        }
        assert forall|j: int|
            #![trigger ord2[j]]
            0 <= j < ord2.len() implies {
            &&& m2.contains_key(ord2[j])
            &&& m2[ord2[j]].left == seq_prev(ord2, j)
            &&& m2[ord2[j]].right == seq_next(ord2, j)
        } by {
            let ja = if j < i {
                j
            } else {
                j + 1
            };
            assert(ord2[j] == ord[ja]);
            assert(ord.contains(ord[ja]));
            if i >= 1 {
                assert(node.left == Some(ord[i - 1]));
            } else {
                assert(node.left is None);
            }
            if i < ord.len() - 1 {
                assert(node.right == Some(ord[i + 1]));
            } else {
                assert(node.right is None);
            }
            if ja == i - 1 {
                // the left neighbour: its forward link was redirected
                assert(m2[ord2[j]].left == m[ord[ja]].left);
                assert(m2[ord2[j]].right == node.right);
            } else if ja == i + 1 {
                // the right neighbour: its backward link was redirected
                assert(m2[ord2[j]].left == node.left);
                assert(m2[ord2[j]].right == m[ord[ja]].right);
            } else {
                // untouched entries keep both links
                assert(m2[ord2[j]] == m[ord[ja]]);
            }
            if j >= 1 {
                let ja1 = if j - 1 < i {
                    j - 1
                } else {
                    j
                };
                assert(ord2[j - 1] == ord[ja1]);
            }
            if j < ord2.len() - 1 {
                let ja2 = if j + 1 < i {
                    j + 1
                } else {
                    j + 2
                };
                assert(ord2[j + 1] == ord[ja2]);
            }
        }
        assert(self.spec_map() =~= pre.spec_map().remove(kh));
        if pre.head == Some(kh) {
            assert(i == 0);
        }
        if pre.tail == Some(kh) {
            assert(i == ord.len() - 1);
        }
        if ord2.len() > 0 {
            assert(ord2[0] == (if i == 0 {
                ord[1]
            } else {
                ord[0]
            }));
            assert(ord2[ord2.len() - 1] == (if i == ord.len() - 1 {
                ord[ord.len() - 2]
            } else {
                ord[ord.len() - 1]
            }));
        }
    }

    /// Stores a value under a digest as the new head of the chain. If the
    /// digest was already present its entry is re-linked at the front and the
    /// previous value is returned.
    pub fn insert_hashed(&mut self, kh: KeyHash, v: V) -> (prev: Option<V>)
        requires
            old(self).wf(),
        ensures
            final(self).wf(),
            final(self).spec_map() == old(self).spec_map().insert(kh, v),
            final(self).spec_order() == seq![kh] + old(self).spec_order().remove_value(kh),
            match prev {
                Some(pv) => old(self).spec_map().contains_key(kh) && pv == old(
                    self,
                ).spec_map()[kh],
                None => !old(self).spec_map().contains_key(kh),
            },
    {
        let prev = self.remove_hashed(kh);
        self.attach_front(kh, v);
        proof {
            assert(self.spec_map() =~= old(self).spec_map().insert(kh, v));
        }
        prev
    }

    /// Removes and returns the entry at the tail of the chain: the least
    /// recently inserted digest.
    pub fn remove_tail(&mut self) -> (removed: Option<V>)
        requires
            old(self).wf(),
        ensures
            final(self).wf(),
            match removed {
                Some(v) => {
                    &&& old(self).spec_len() > 0
                    &&& v == old(self).spec_map()[old(self).spec_order().last()]
                    &&& final(self).spec_map() == old(self).spec_map().remove(
                        old(self).spec_order().last(),
                    )
                    &&& final(self).spec_order() == old(self).spec_order().drop_last()
                },
                None => {
                    &&& old(self).spec_len() == 0
                    &&& final(self).spec_map() == old(self).spec_map()
                    &&& final(self).spec_order() == old(self).spec_order()
                },
            },
    {
        let tail = self.tail;
        if let Some(tail_k) = tail {
            proof {
                let ord = self.order@;
                assert(tail_k == ord.last());
                assert(ord.contains(ord[ord.len() - 1]));
                self.lemma_contains_iff_in_order(tail_k);
                self.lemma_index_of(tail_k);
                assert(ord.remove_value(tail_k) =~= ord.drop_last()) by {
                    ord.index_of_first_ensures(tail_k);
                    let i = ord.index_of_first(tail_k).unwrap();
                    assert(i == ord.len() - 1);
                }
            }
            self.remove_hashed(tail_k)
        } else {
            None
        }
    }

    /// Looks a digest up and hands out a mutable borrow of its value. The
    /// recency order is not touched; only the value behind the digest can
    /// change through the borrow.
    pub fn get_hashed_mut(&mut self, kh: KeyHash) -> (r: Option<&mut V>)
        requires
            old(self).wf(),
        ensures
            final(self).wf(),
            final(self).spec_order() == old(self).spec_order(),
            match r {
                Some(v) => {
                    &&& old(self).spec_map().contains_key(kh)
                    &&& *v == old(self).spec_map()[kh]
                    &&& final(self).spec_map() =~= old(self).spec_map().insert(kh, *final(v))
                },
                None => {
                    &&& !old(self).spec_map().contains_key(kh)
                    &&& final(self).spec_map() =~= old(self).spec_map()
                },
            },
    {
        proof {
            self.lemma_contains_iff_in_order(kh);
            if self.interior_map@.contains_key(kh) {
                self.lemma_index_of(kh);
            }
        }
        match self.interior_map.entry(kh) {
            Entry::Occupied(e) => {
                let node = e.into_mut();
                Some(&mut node.value)
            },
            Entry::Vacant(e) => {
                e.into_key();
                None
            },
        }
    }

    /// Looks a digest up without touching the recency order, exposing the
    /// stored node together with its chain links.
    pub fn get_hashed(&self, kh: KeyHash) -> (r: Option<&LinkedMapNode<V>>)
        requires
            self.wf(),
        ensures
            match r {
                Some(node) => {
                    &&& self.spec_map().contains_key(kh)
                    &&& node.spec_value() == self.spec_map()[kh]
                    &&& node.spec_left() == seq_prev(
                        self.spec_order(),
                        self.spec_order().index_of(kh),
                    )
                    &&& node.spec_right() == seq_next(
                        self.spec_order(),
                        self.spec_order().index_of(kh),
                    )
                },
                None => !self.spec_map().contains_key(kh),
            },
    {
        let r = self.interior_map.get(&kh);
        proof {
            self.lemma_contains_iff_in_order(kh);
            if self.interior_map@.contains_key(kh) {
                self.lemma_index_of(kh);
                let i = self.spec_order().index_of(kh);
                assert(self.spec_order()[i] == kh);
            }
        }
        r
    }
}

/// Walks a linked map from its most recent entry toward its least recent
/// one, following the `right` links.
pub struct LinkedHashMapIter<'a, K, V, S> where K: Eq + Hash, S: BuildHasher {
    idx: Option<KeyHash>,
    inner_map: &'a LinkedHashMap<K, V, S>,
    pos: Ghost<int>,
}

impl<'a, K, V, S> LinkedHashMapIter<'a, K, V, S> where K: Eq + Hash, S: BuildHasher {
    /// The map being walked.
    pub closed spec fn spec_inner(self) -> LinkedHashMap<K, V, S> {
        *self.inner_map
    }

    /// The position of the next entry in the recency order.
    pub closed spec fn spec_pos(self) -> int {
        self.pos@
    }

    /// The walk stands on a position of the recency order of a well-formed
    /// map, or one past its end.
    pub closed spec fn wf(self) -> bool {
        &&& self.inner_map.wf()
        &&& 0 <= self.pos@ <= self.inner_map.spec_order().len()
        &&& self.idx == (if self.pos@ < self.inner_map.spec_order().len() {
            Some(self.inner_map.spec_order()[self.pos@])
        } else {
            None::<KeyHash>
        })
    }

    /// The value at the current position, stepping one entry toward the
    /// tail; nothing once the walk has passed the least recent entry.
    pub fn next(&mut self) -> (r: Option<&'a V>)
        requires
            old(self).wf(),
        ensures
            final(self).wf(),
            final(self).spec_inner() == old(self).spec_inner(),
            ({
                let inner = old(self).spec_inner();
                let pos = old(self).spec_pos();
                if pos < inner.spec_order().len() {
                    &&& r matches Some(v) && *v == inner.spec_map()[inner.spec_order()[pos]]
                    &&& final(self).spec_pos() == pos + 1
                } else {
                    &&& r is None
                    &&& final(self).spec_pos() == pos
                }
            }),
    {
        if let Some(kh) = self.idx {
            proof {
                assert(self.inner_map.spec_order().contains(kh));
                self.inner_map.lemma_index_of(kh);
            }
            match self.inner_map.get_hashed(kh) {
                Some(node) => {
                    self.idx = node.right;
                    proof {
                        self.pos@ = self.pos@ + 1;
                    }
                    Some(node.value())
                },
                None => {
                    proof {
                        self.inner_map.lemma_contains_iff_in_order(kh);
                        assert(false);
                    }
                    None
                },
            }
        } else {
            None
        }
    }
}

/// Walks a linked map from its least recent entry toward its most recent
/// one, following the `left` links.
pub struct ReverseLinkedHashMapIter<'z, K, V, S> where K: Eq + Hash, S: BuildHasher {
    idx: Option<KeyHash>,
    inner_map: &'z LinkedHashMap<K, V, S>,
    pos: Ghost<int>,
}

impl<'z, K, V, S> ReverseLinkedHashMapIter<'z, K, V, S> where K: Eq + Hash, S: BuildHasher {
    /// The map being walked.
    pub closed spec fn spec_inner(self) -> LinkedHashMap<K, V, S> {
        *self.inner_map
    }

    /// The position of the next entry in the recency order.
    pub closed spec fn spec_pos(self) -> int {
        self.pos@
    }

    /// The walk stands on a position of the recency order of a well-formed
    /// map, or one before its start.
    pub closed spec fn wf(self) -> bool {
        &&& self.inner_map.wf()
        &&& -1 <= self.pos@ < self.inner_map.spec_order().len() || (self.pos@ == -1
            && self.inner_map.spec_order().len() == 0)
        &&& self.idx == (if self.pos@ >= 0 {
            Some(self.inner_map.spec_order()[self.pos@])
        } else {
            None::<KeyHash>
        })
    }

    /// The value at the current position, stepping one entry toward the
    /// head; nothing once the walk has passed the most recent entry.
    pub fn next(&mut self) -> (r: Option<&'z V>)
        requires
            old(self).wf(),
        ensures
            final(self).wf(),
            final(self).spec_inner() == old(self).spec_inner(),
            ({
                let inner = old(self).spec_inner();
                let pos = old(self).spec_pos();
                if pos >= 0 {
                    &&& r matches Some(v) && *v == inner.spec_map()[inner.spec_order()[pos]]
                    &&& final(self).spec_pos() == pos - 1
                } else {
                    &&& r is None
                    &&& final(self).spec_pos() == pos
                }
            }),
    {
        if let Some(kh) = self.idx {
            proof {
                assert(self.inner_map.spec_order().contains(kh));
                self.inner_map.lemma_index_of(kh);
            }
            match self.inner_map.get_hashed(kh) {
                Some(node) => {
                    self.idx = node.left;
                    proof {
                        self.pos@ = self.pos@ - 1;
                    }
                    Some(node.value())
                },
                None => {
                    proof {
                        self.inner_map.lemma_contains_iff_in_order(kh);
                        assert(false);
                    }
                    None
                },
            }
        } else {
            None
        }
    }
}

impl<K, V> LinkedHashMap<K, V, RandomState> where K: Eq + Hash {
    /// Makes a new linked map with the given capacity and the default hash
    /// builder.
    pub fn with_capacity(capacity: usize) -> (r: Self)
        ensures
            r.wf(),
            r.spec_map() == Map::<KeyHash, V>::empty(),
            r.spec_order() == Seq::<KeyHash>::empty(),
    {
        LinkedHashMap::with_capacity_and_hash_builder(capacity, Default::default())
    }
}

impl<K, V, S> LinkedHashMap<K, V, S> where K: Eq + Hash, S: BuildHasher {
    /// Walks the map from its most recent entry toward its least recent
    /// one.
    pub fn iter(&self) -> (it: LinkedHashMapIter<'_, K, V, S>)
        requires
            self.wf(),
        ensures
            it.wf(),
            it.spec_inner() == *self,
            it.spec_pos() == 0,
    {
        LinkedHashMapIter { idx: self.head, inner_map: self, pos: Ghost(0) }
    }

    /// Walks the map from its least recent entry toward its most recent
    /// one.
    pub fn reverse_iter(&self) -> (it: ReverseLinkedHashMapIter<'_, K, V, S>)
        requires
            self.wf(),
        ensures
            it.wf(),
            it.spec_inner() == *self,
            it.spec_pos() == self.spec_order().len() - 1,
    {
        ReverseLinkedHashMapIter {
            idx: self.tail,
            inner_map: self,
            pos: Ghost(self.spec_order().len() - 1),
        }
    }

    /// Inserts a new entry at the front of the recency order under the key's
    /// digest, returning the previous value stored under that digest. Which
    /// digest the key maps to is decided by the hash builder.
    pub fn insert(&mut self, k: K, v: V) -> (prev: Option<V>)
        requires
            old(self).wf(),
        ensures
            final(self).wf(),
            exists|kh: KeyHash| Self::spec_inserted_at(*old(self), *final(self), kh, v, prev),
    {
        let kh = self.k_hash(&k);
        let prev = self.insert_hashed(kh, v);
        proof {
            assert(Self::spec_inserted_at(*old(self), *self, kh, v, prev));
        }
        prev
    }

    /// Whether the key's digest is stored.
    pub fn contains_key<Q: Hash + Eq>(&self, k: &Q) -> (r: bool)
        requires
            self.wf(),
        ensures
            exists|kh: KeyHash| r == self.spec_map().contains_key(kh),
    {
        let kh = self.k_hash(k);
        let r = self.get_hashed(kh).is_some();
        proof {
            assert(r == self.spec_map().contains_key(kh));
        }
        r
    }

    /// Looks the key's digest up without touching the recency order,
    /// exposing the stored node together with its chain links.
    pub fn get<Q: Hash + Eq>(&self, k: &Q) -> (r: Option<&LinkedMapNode<V>>)
        requires
            self.wf(),
        ensures
            exists|kh: KeyHash|
                match r {
                    Some(node) => self.spec_map().contains_key(kh) && node.spec_value()
                        == self.spec_map()[kh],
                    None => !self.spec_map().contains_key(kh),
                },
    {
        let kh = self.k_hash(k);
        let r = self.get_hashed(kh);
        proof {
            assert(match r {
                Some(node) => self.spec_map().contains_key(kh) && node.spec_value()
                    == self.spec_map()[kh],
                None => !self.spec_map().contains_key(kh),
            });
        }
        r
    }

    /// Looks the key's digest up and hands out a mutable borrow of its
    /// value, leaving the recency order alone.
    pub fn get_mut<Q: Hash + Eq>(&mut self, k: &Q) -> (r: Option<&mut V>)
        requires
            old(self).wf(),
        ensures
            final(self).wf(),
            final(self).spec_order() == old(self).spec_order(),
            match r {
                Some(v) => exists|kh: KeyHash|
                    old(self).spec_map().contains_key(kh) && *v == old(self).spec_map()[kh]
                        && final(self).spec_map() =~= old(self).spec_map().insert(kh, *final(v)),
                None => final(self).spec_map() =~= old(self).spec_map(),
            },
    {
        let kh = self.k_hash(k);
        self.get_hashed_mut(kh)
    }

    /// Removes the entry stored under the key's digest, leaving the relative
    /// order of every other entry unchanged.
    pub fn remove<Q: Hash + Eq>(&mut self, k: &Q) -> (removed: Option<V>)
        requires
            old(self).wf(),
        ensures
            final(self).wf(),
            exists|kh: KeyHash| Self::spec_removed_at(*old(self), *final(self), kh, removed),
    {
        let kh = self.k_hash(k);
        let removed = self.remove_hashed(kh);
        proof {
            assert(Self::spec_removed_at(*old(self), *self, kh, removed));
        }
        removed
    }
}

} // verus!
