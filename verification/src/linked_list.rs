//! A linked list that flattens all its nodes onto a `Vec` for storage,
//! gaining data locality and O(1) random access at the expense of any
//! resizing cleverness. Nodes are addressed by their position in the vec;
//! removed positions go on a freelist and are reused by later pushes, so the
//! arena stops growing once the list reaches its steady size.
//!
//! The nodes form one ring: the head's `prev` link is always the tail, so
//! the back of the list is reachable in one step. Handles to nodes may be
//! held outside the list and used to detach a node in O(1), which is what
//! an eviction queue needs when an entry is touched and must move back to
//! the front.

use vstd::prelude::*;
use vstd::seq_lib::*;

verus! {

/// Alias for the index of a node in the linked list's storage vec.
#[derive(Copy, Clone)]
pub struct NodeHandle(usize);

impl NodeHandle {
    /// The arena position this handle addresses.
    pub closed spec fn spec_index(self) -> int {
        self.0 as int
    }
}

/// A node that lives in a linked list: the stored value and the arena
/// positions of its two ring neighbours.
struct Node<T> where T: Eq + Copy {
    value: T,
    prev: NodeHandle,
    next: NodeHandle,
}

/// The ring neighbour of position `i` one step toward the tail end of the
/// order (the previous, older entry is the next one in the order seq).
spec fn cyc_next_of(ord: Seq<int>, i: int) -> int {
    if i == ord.len() - 1 {
        ord[0]
    } else {
        ord[i + 1]
    }
}

/// The ring neighbour of position `i` one step toward the head end of the
/// order.
spec fn cyc_prev_of(ord: Seq<int>, i: int) -> int {
    if i == 0 {
        ord[ord.len() - 1]
    } else {
        ord[i - 1]
    }
}

/// A doubly-linked list stored flat in one contiguous vec, with freelisted
/// slots reused on push. The live nodes form a single ring, newest first;
/// the head's `prev` is the tail.
pub struct LinkedList<T> where T: Eq + Copy {
    store: Vec<Node<T>>,
    free: Vec<NodeHandle>,
    head: Option<NodeHandle>,
    order: Ghost<Seq<int>>,
}

impl<T> LinkedList<T> where T: Eq + Copy {
    /// The arena positions of the live nodes, newest first.
    pub closed spec fn spec_handles(self) -> Seq<int> {
        self.order@
    }

    /// The stored values, newest first.
    pub closed spec fn spec_values(self) -> Seq<T> {
        Seq::new(self.order@.len(), |i: int| self.store@[self.order@[i]].value)
    }

    /// The number of live nodes.
    pub open spec fn spec_len(self) -> nat {
        self.spec_handles().len()
    }

    /// Every live slot and every free slot lies in the arena, each arena
    /// slot is exactly one of the two, and the live nodes' links close into
    /// one ring in recency order.
    pub closed spec fn wf(self) -> bool {
        let ord = self.order@;
        let n = ord.len();
        &&& ord.no_duplicates()
        &&& forall|i: int| 0 <= i < n ==> 0 <= #[trigger] ord[i] < self.store@.len()
        &&& self.free@.map_values(|h: NodeHandle| h.spec_index()).no_duplicates()
        &&& forall|j: int|
            0 <= j < self.free@.len() ==> 0 <= (#[trigger] self.free@[j]).spec_index()
                < self.store@.len()
        &&& forall|j: int, i: int|
            0 <= j < self.free@.len() && 0 <= i < n ==> (#[trigger] self.free@[j]).spec_index()
                != #[trigger] ord[i]
        &&& n + self.free@.len() == self.store@.len()
        &&& forall|i: int|
            0 <= i < n ==> (#[trigger] self.store@[ord[i]]).prev.spec_index() == cyc_prev_of(
                ord,
                i,
            ) && self.store@[ord[i]].next.spec_index() == cyc_next_of(ord, i)
        &&& (if n == 0 {
            self.head is None
        } else {
            self.head matches Some(h) && h.spec_index() == ord[0]
        })
    }

    /// A handle taken from the order at a known position is unique there.
    proof fn lemma_order_index(self, i: int)
        requires
            self.wf(),
            0 <= i < self.order@.len(),
        ensures
            self.order@.index_of(self.order@[i]) == i,
            self.order@.contains(self.order@[i]),
    {
        let ord = self.order@;
        assert(ord.contains(ord[i]));
        let j = ord.index_of(ord[i]);
        assert(0 <= j < ord.len() && ord[j] == ord[i]);
        if j != i {
            assert(ord[j] != ord[i]);
        }
    }

    /// Creates a new linked list with a specific capacity.
    pub fn with_capacity(capacity: usize) -> (r: Self)
        ensures
            r.wf(),
            r.spec_handles() == Seq::<int>::empty(),
            r.spec_values() == Seq::<T>::empty(),
    {
        let r = Self {
            store: Vec::with_capacity(capacity),
            free: Vec::with_capacity(capacity),
            head: None,
            order: Ghost(Seq::empty()),
        };
        proof {
            assert(r.spec_values() =~= Seq::<T>::empty());
            assert(r.free@.map_values(|h: NodeHandle| h.spec_index()).no_duplicates());
        }
        r
    }

    /// The length of this linked list.
    pub fn len(&self) -> (n: usize)
        requires
            self.wf(),
        ensures
            n == self.spec_len(),
    {
        self.store.len() - self.free.len()
    }

    /// Pushes `t` onto the front of the list and returns a handle to the
    /// node, reusing a freelisted slot when one is available.
    pub fn push(&mut self, t: T) -> (h: NodeHandle)
        requires
            old(self).wf(),
        ensures
            final(self).wf(),
            final(self).spec_handles() == seq![h.spec_index()] + old(self).spec_handles(),
            final(self).spec_values() == seq![t] + old(self).spec_values(),
    {
        let ghost old_ord = self.order@;
        let mut n = Node { value: t, prev: NodeHandle(0), next: NodeHandle(0) };

        // use the first available location in the storage vec, or infer what
        // the next location will be on push.
        let idx = match self.free.pop() {
            Some(h) => h,
            None => NodeHandle(self.store.len()),
        };
        proof {
            if old(self).free@.len() > 0 {
                let j = old(self).free@.len() - 1;
                assert(old(self).free@[j].spec_index() == idx.spec_index());
                assert(forall|i: int|
                    0 <= i < old_ord.len() ==> idx.spec_index() != #[trigger] old_ord[i]);
            } else {
                assert(forall|i: int|
                    0 <= i < old_ord.len() ==> idx.spec_index() != #[trigger] old_ord[i]);
            }
        }

        if let Some(head) = self.head {
            // link this node into the ring between the old tail and the old
            // head
            proof {
                old(self).lemma_order_index(0);
                assert(old_ord.contains(old_ord[old_ord.len() - 1]));
            }
            n.prev = self.store[head.0].prev;
            n.next = head;

            self.store[n.prev.0].next = idx;
            self.store[n.next.0].prev = idx;
        } else {
            // the sole node closes the ring on itself
            n.prev = idx;
            n.next = idx;
        }

        self.head = Some(idx);

        if self.store.len() <= idx.0 {
            self.store.push(n);
        } else {
            self.store[idx.0] = n;
        }
        self.order = Ghost(seq![idx.spec_index()] + old_ord);

        proof {
            let ord2 = self.order@;
            let nn = ord2.len();
            let fs = old(self).free@.map_values(|h: NodeHandle| h.spec_index());
            let fs2 = self.free@.map_values(|h: NodeHandle| h.spec_index());
            if old(self).free@.len() > 0 {
                assert(fs2 =~= fs.drop_last());
            } else {
                assert(fs2 =~= fs);
            }
            assert forall|a: int, b: int|
                0 <= a < fs2.len() && 0 <= b < fs2.len() && a != b implies fs2[a] != fs2[b] by {
                assert(fs[a] != fs[b]);
            }
            assert(fs2.no_duplicates());
            assert forall|a: int, b: int|
                0 <= a < self.free@.len() && 0 <= b < nn implies (#[trigger] self.free@[a]).spec_index()
                    != #[trigger] ord2[b] by {
                assert(self.free@[a].spec_index() == fs[a]);
                if b >= 1 {
                    assert(ord2[b] == old_ord[b - 1]);
                    assert(old(self).free@[a].spec_index() != old_ord[b - 1]);
                } else {
                    assert(ord2[0] == idx.spec_index());
                    if old(self).free@.len() > 0 {
                        assert(fs[old(self).free@.len() - 1] == idx.spec_index());
                        assert(fs[a] != fs[old(self).free@.len() - 1]);
                    }
                }
            }
            assert forall|a: int, b: int|
                0 <= a < nn && 0 <= b < nn && a != b implies ord2[a] != ord2[b] by {
                if a >= 1 && b >= 1 {
                    assert(old_ord[a - 1] != old_ord[b - 1]);
                } else if a == 0 {
                    assert(ord2[b] == old_ord[b - 1]);
                } else {
                    assert(ord2[a] == old_ord[a - 1]);
                }
            }
            assert forall|i: int|
                0 <= i < nn implies (#[trigger] self.store@[ord2[i]]).prev.spec_index()
                    == cyc_prev_of(ord2, i) && self.store@[ord2[i]].next.spec_index()
                    == cyc_next_of(ord2, i) by {
                if old_ord.len() == 0 {
                    assert(i == 0);
                } else if i == 0 {
                    assert(ord2[0] == idx.spec_index());
                } else if i == 1 {
                    assert(ord2[i] == old_ord[0]);
                } else if i == nn - 1 {
                    assert(ord2[i] == old_ord[old_ord.len() - 1]);
                    assert(old_ord[old_ord.len() - 1] != old_ord[0]);
                } else {
                    assert(ord2[i] == old_ord[i - 1]);
                    assert(old_ord[i - 1] != old_ord[0]);
                    assert(old_ord[i - 1] != old_ord[old_ord.len() - 1]);
                }
            }
            assert(self.spec_values() =~= seq![t] + old(self).spec_values());
        }
        idx
    }

    /// Pops the back node off the list if it exists.
    pub fn pop_back(&mut self) -> (r: Option<T>)
        requires
            old(self).wf(),
        ensures
            final(self).wf(),
            match r {
                Some(v) => {
                    &&& old(self).spec_len() > 0
                    &&& v == old(self).spec_values().last()
                    &&& final(self).spec_handles() == old(self).spec_handles().drop_last()
                    &&& final(self).spec_values() == old(self).spec_values().drop_last()
                },
                None => {
                    &&& old(self).spec_len() == 0
                    &&& final(self).spec_handles() == old(self).spec_handles()
                    &&& final(self).spec_values() == old(self).spec_values()
                },
            },
    {
        let head_opt = self.head;
        if let Some(head) = head_opt {
            proof {
                self.lemma_order_index(0);
                self.lemma_order_index(self.order@.len() - 1);
            }
            let head_prev = self.store[head.0].prev;
            let prev = self.store[head_prev.0].value;
            self.remove_node(&head_prev);
            proof {
                let ord = old(self).spec_handles();
                assert(ord.index_of(ord[ord.len() - 1]) == ord.len() - 1);
                assert(self.spec_handles() =~= ord.drop_last());
                assert(self.spec_values() =~= old(self).spec_values().drop_last());
            }
            Some(prev)
        } else {
            None
        }
    }

    /// Remove an arbitrary node from the list, splicing its two ring
    /// neighbours together; its slot goes on the freelist for reuse.
    pub fn remove_node(&mut self, node: &NodeHandle)
        requires
            old(self).wf(),
            old(self).spec_handles().contains(node.spec_index()),
        ensures
            final(self).wf(),
            final(self).spec_handles() == old(self).spec_handles().remove(
                old(self).spec_handles().index_of(node.spec_index()),
            ),
            final(self).spec_values() == old(self).spec_values().remove(
                old(self).spec_handles().index_of(node.spec_index()),
            ),
    {
        let ghost old_ord = self.order@;
        let ghost i = old_ord.index_of(node.spec_index());
        proof {
            assert(0 <= i < old_ord.len() && old_ord[i] == node.spec_index());
            old_ord.remove_ensures(i);
        }
        if self.store.len() - self.free.len() == 1 {
            // just reset head and freelist the node
            proof {
                assert(old_ord.len() == 1);
                assert(i == 0);
            }
            self.head = None;
        } else {
            proof {
                self.lemma_order_index(0);
                self.lemma_order_index(i);
            }
            let is_head = match self.head {
                Some(h) => h.0 == node.0,
                None => false,
            };
            if is_head {
                self.head = Some(self.store[node.0].next);
            }

            // link prev to next and next to prev so the node doesn't exist
            // in the ring anymore; it'll get overwritten at some later push
            // by placing its handle on the freelist
            let prev = self.store[node.0].prev;
            let next = self.store[node.0].next;

            self.store[prev.0].next = next;
            self.store[next.0].prev = prev;
        }

        self.free.push(NodeHandle(node.0));
        self.order = Ghost(old_ord.remove(i));
        proof {
            self.lemma_remove_node_restores_wf(*old(self), *node);
        }
    }

    /// After `remove_node` has spliced the ring back together, the list is
    /// well formed again and holds the old entries minus the removed one.
    proof fn lemma_remove_node_restores_wf(self, pre: Self, node: NodeHandle)
        requires
            pre.wf(),
            pre.spec_handles().contains(node.spec_index()),
            self.order@ == pre.order@.remove(pre.order@.index_of(node.spec_index())),
            self.free@ == pre.free@.push(NodeHandle { 0: node.0 }),
            self.head == (if pre.order@.len() == 1 {
                None::<NodeHandle>
            } else if pre.head matches Some(h) && h.spec_index() == node.spec_index() {
                Some(pre.store@[node.spec_index()].next)
            } else {
                pre.head
            }),
            self.store@ == (if pre.order@.len() == 1 {
                pre.store@
            } else {
                splice_ring(pre.store@, pre.order@, pre.order@.index_of(node.spec_index()))
            }),
        ensures
            self.wf(),
            self.spec_values() == pre.spec_values().remove(
                pre.order@.index_of(node.spec_index()),
            ),
    {
        let ord = pre.order@;
        let i = ord.index_of(node.spec_index());
        assert(ord.contains(node.spec_index()));
        assert(0 <= i < ord.len() && ord[i] == node.spec_index());
        assert forall|a: int, b: int|
            0 <= a < ord.len() && 0 <= b < ord.len() && ord[a] == ord[b] implies a == b by {}
        ord.remove_ensures(i);
        let ord2 = self.order@;
        let n = ord.len();
        let n2 = ord2.len();
        assert(n2 == n - 1);
        assert forall|a: int, b: int|
            0 <= a < n2 && 0 <= b < n2 && a != b implies ord2[a] != ord2[b] by {
            let aa = if a < i {
                a
            } else {
                a + 1
            };
            let bb = if b < i {
                b
            } else {
                b + 1
            };
            assert(ord2[a] == ord[aa] && ord2[b] == ord[bb]);
        }
        assert forall|j: int| 0 <= j < n2 implies #[trigger] ord2[j] != node.spec_index() by {
            let jj = if j < i {
                j
            } else {
                j + 1
            };
            assert(ord2[j] == ord[jj]);
        }
        // the freelist stays duplicate-free and disjoint from the order
        let fs = pre.free@.map_values(|h: NodeHandle| h.spec_index());
        let fs2 = self.free@.map_values(|h: NodeHandle| h.spec_index());
        assert(fs2 =~= fs.push(node.spec_index()));
        assert forall|a: int, b: int|
            0 <= a < fs2.len() && 0 <= b < fs2.len() && a != b implies fs2[a] != fs2[b] by {
            if a < fs.len() && b < fs.len() {
                assert(fs[a] != fs[b]);
            } else if a == fs.len() {
                assert(fs2[b] == pre.free@[b].spec_index());
            } else {
                assert(fs2[a] == pre.free@[a].spec_index());
            }
        }
        assert(fs2.no_duplicates());
        assert forall|a: int, b: int|
            0 <= a < self.free@.len() && 0 <= b < n2 implies (#[trigger] self.free@[a]).spec_index()
                != #[trigger] ord2[b] by {
            let bb = if b < i {
                b
            } else {
                b + 1
            };
            assert(ord2[b] == ord[bb]);
            if a < pre.free@.len() {
                assert(pre.free@[a].spec_index() != ord[bb]);
            } else {
                assert(self.free@[a].spec_index() == node.spec_index());
                assert(ord2[b] != node.spec_index());
            }
        }
        assert forall|b: int| 0 <= b < n2 implies 0 <= #[trigger] ord2[b] < self.store@.len() by {
            let bb = if b < i {
                b
            } else {
                b + 1
            };
            assert(ord2[b] == ord[bb]);
        }
        if n > 1 {
            let st = pre.store@;
            let st2 = self.store@;
            let p = cyc_prev_of(ord, i);
            let nx = cyc_next_of(ord, i);
            assert(st2.len() == st.len());
            assert forall|j: int|
                0 <= j < n2 implies (#[trigger] st2[ord2[j]]).prev.spec_index() == cyc_prev_of(
                    ord2,
                    j,
                ) && st2[ord2[j]].next.spec_index() == cyc_next_of(ord2, j) by {
                let jj = if j < i {
                    j
                } else {
                    j + 1
                };
                assert(ord2[j] == ord[jj]);
                if j >= 1 {
                    let kk = if j - 1 < i {
                        j - 1
                    } else {
                        j
                    };
                    assert(ord2[j - 1] == ord[kk]);
                }
                if j < n2 - 1 {
                    let kk = if j + 1 < i {
                        j + 1
                    } else {
                        j + 2
                    };
                    assert(ord2[j + 1] == ord[kk]);
                }
                assert(ord2[0] == (if i == 0 {
                    ord[1]
                } else {
                    ord[0]
                }));
                assert(ord2[n2 - 1] == (if i == n - 1 {
                    ord[n - 2]
                } else {
                    ord[n - 1]
                }));
            }
            assert(self.spec_values() =~= pre.spec_values().remove(i));
        } else {
            assert(self.spec_values() =~= pre.spec_values().remove(i));
        }
    }

    /// Clears this linked list. Does not free the underlying buffers.
    pub fn clear(&mut self)
        requires
            old(self).wf(),
        ensures
            final(self).wf(),
            final(self).spec_handles() == Seq::<int>::empty(),
            final(self).spec_values() == Seq::<T>::empty(),
    {
        self.store.clear();
        self.free.clear();
        self.head = None;
        self.order = Ghost(Seq::empty());
        proof {
            assert(self.spec_values() =~= Seq::<T>::empty());
            assert(self.free@.map_values(|h: NodeHandle| h.spec_index()).no_duplicates());
        }
    }
}

/// The arena as it stands after the ring neighbours of the node at order
/// position `i` have been linked to one another around it.
spec fn splice_ring<T: Eq + Copy>(st: Seq<Node<T>>, ord: Seq<int>, i: int) -> Seq<Node<T>> {
    let p = cyc_prev_of(ord, i);
    let nx = cyc_next_of(ord, i);
    let st1 = st.update(
        p,
        Node { value: st[p].value, prev: st[p].prev, next: NodeHandle { 0: st[ord[i]].next.0 } },
    );
    st1.update(
        nx,
        Node {
            value: st1[nx].value,
            prev: NodeHandle { 0: st[ord[i]].prev.0 },
            next: st1[nx].next,
        },
    )
}

} // verus!
