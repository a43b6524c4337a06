//! The laws of the caching engine, each proved once and for all over the
//! spec-level transitions that the executable operations are specified by.

use crate::expiring_cache::{spec_expired, ExpiringCache};
use crate::linked_map::KeyHash;
use crate::lru_cache::{insert_step_map, insert_step_order, promote};
use std::hash::{BuildHasher, Hash};
use vstd::prelude::*;
use vstd::seq_lib::*;

verus! {

/// The recency order that results from inserting the digests of `khs` into
/// an empty cache of capacity `cap`, one after the other, oldest first.
pub open spec fn fill_order(khs: Seq<KeyHash>, cap: nat) -> Seq<KeyHash>
    decreases khs.len(),
{
    if khs.len() == 0 {
        Seq::empty()
    } else {
        insert_step_order(fill_order(khs.drop_last(), cap), cap, khs.last())
    }
}

/// Capacity invariant: one insertion never pushes the entry count past the
/// capacity, so by induction `len() <= capacity` holds after every call.
pub proof fn lemma_capacity_invariant(ord: Seq<KeyHash>, cap: nat, kh: KeyHash)
    requires
        cap >= 1,
        ord.len() <= cap,
    ensures
        insert_step_order(ord, cap, kh).len() <= cap,
{
    ord.index_of_first_ensures(kh);
    if ord.contains(kh) {
        ord.remove_ensures(ord.index_of_first(kh).unwrap());
    }
}

/// Filling an empty cache with distinct digests, none more than the
/// capacity, stores them in reverse order: the last inserted is the most
/// recently used.
pub proof fn lemma_fill_distinct(khs: Seq<KeyHash>, cap: nat)
    requires
        khs.no_duplicates(),
        khs.len() <= cap,
    ensures
        fill_order(khs, cap) == khs.reverse(),
    decreases khs.len(),
{
    if khs.len() == 0 {
        assert(fill_order(khs, cap) =~= khs.reverse());
    } else {
        let front = khs.drop_last();
        assert(front.no_duplicates());
        lemma_fill_distinct(front, cap);
        let kh = khs.last();
        assert(!front.contains(kh)) by {
            if front.contains(kh) {
                let i = choose|i: int| 0 <= i < front.len() && front[i] == kh;
                assert(khs[i] == khs[khs.len() - 1]);
            }
        }
        assert(!front.reverse().contains(kh)) by {
            if front.reverse().contains(kh) {
                let i = choose|i: int| 0 <= i < front.len() && front.reverse()[i] == kh;
                assert(front[front.len() - 1 - i] == kh);
            }
        }
        assert(insert_step_order(front.reverse(), cap, kh) == seq![kh] + front.reverse()) by {
            front.reverse().index_of_first_ensures(kh);
        }
        assert(fill_order(khs, cap) =~= khs.reverse());
    }
}

/// Eviction correctness: inserting `capacity + 1` distinct digests into an
/// empty cache, with no intervening `get`, evicts exactly the first-inserted
/// (oldest) digest and keeps every other one.
pub proof fn lemma_eviction_correctness(khs: Seq<KeyHash>, cap: nat)
    requires
        cap >= 1,
        khs.no_duplicates(),
        khs.len() == cap + 1,
    ensures
        fill_order(khs, cap).len() == cap,
        !fill_order(khs, cap).contains(khs[0]),
        forall|i: int| 1 <= i <= cap ==> fill_order(khs, cap).contains(#[trigger] khs[i]),
{
    let front = khs.drop_last();
    assert(front.no_duplicates());
    lemma_fill_distinct(front, cap);
    let kh = khs.last();
    let rev = front.reverse();
    assert(!rev.contains(kh)) by {
        if rev.contains(kh) {
            let i = choose|i: int| 0 <= i < rev.len() && rev[i] == kh;
            assert(khs[front.len() - 1 - i] == khs[khs.len() - 1]);
        }
    }
    let ord = fill_order(khs, cap);
    assert(ord == seq![kh] + rev.drop_last());
    assert(!ord.contains(khs[0])) by {
        if ord.contains(khs[0]) {
            let j = choose|j: int| 0 <= j < ord.len() && ord[j] == khs[0];
            if j == 0 {
                assert(khs[khs.len() - 1] == khs[0]);
            } else {
                assert(ord[j] == rev[j - 1]);
                assert(rev[j - 1] == front[front.len() - j]);
                assert(khs[front.len() - j] == khs[0]);
            }
        }
    }
    assert forall|i: int| 1 <= i <= cap implies ord.contains(#[trigger] khs[i]) by {
        if i == cap {
            assert(ord[0] == khs[i]);
        } else {
            assert(rev[cap - 1 - i] == front[i]);
            assert(ord[cap - i] == rev[cap - 1 - i]);
        }
    }
}

/// Promotion correctness: with the cache full, touching the oldest digest
/// with `get` and then inserting one new digest evicts the second-oldest
/// digest, not the one just accessed.
pub proof fn lemma_promotion_correctness(ord: Seq<KeyHash>, cap: nat, kh_new: KeyHash)
    requires
        ord.no_duplicates(),
        ord.len() == cap,
        cap >= 2,
        !ord.contains(kh_new),
    ensures
        ({
            let touched = promote(ord, ord.last());
            let after = insert_step_order(touched, cap, kh_new);
            &&& after.len() == cap
            &&& !after.contains(ord[cap - 2])
            &&& after.contains(ord.last())
            &&& after[0] == kh_new
        }),
{
    let oldest = ord.last();
    assert(ord.contains(oldest));
    ord.index_of_first_ensures(oldest);
    let i = ord.index_of_first(oldest).unwrap();
    assert forall|j: int, l: int|
        0 <= j < ord.len() && 0 <= l < ord.len() && ord[j] == ord[l] implies j == l by {}
    assert(i == cap - 1);
    ord.remove_ensures(i);
    let touched = promote(ord, oldest);
    assert(touched =~= seq![oldest] + ord.drop_last());
    assert(!touched.contains(kh_new)) by {
        if touched.contains(kh_new) {
            let j = choose|j: int| 0 <= j < touched.len() && touched[j] == kh_new;
            if j == 0 {
                assert(ord.contains(oldest));
            } else {
                assert(touched[j] == ord[j - 1]);
                assert(ord.contains(ord[j - 1]));
            }
        }
    }
    let after = insert_step_order(touched, cap, kh_new);
    assert(after == seq![kh_new] + touched.drop_last());
    assert(touched.drop_last()[0] == oldest);
    assert(after[1] == oldest);
    assert(after.contains(oldest));
    assert(!after.contains(ord[cap - 2])) by {
        assert(ord[cap - 2] != kh_new);
        assert(ord[cap - 2] != oldest);
        if after.contains(ord[cap - 2]) {
            let j = choose|j: int| 0 <= j < after.len() && after[j] == ord[cap - 2];
            assert(j >= 1);
            assert(after[j] == touched.drop_last()[j - 1]);
            if j == 1 {
                assert(after[j] == oldest);
            } else {
                assert(touched.drop_last()[j - 1] == ord[j - 2]);
                assert(ord[j - 2] == ord[cap - 2]);
                assert(j - 2 < cap - 2);
            }
        }
    }
}

/// Idempotent update: re-inserting a digest that is already stored keeps
/// the entry count, stores the new value, makes the digest the most
/// recently used, and touches no other entry. That the previous value is
/// handed back is part of the contract of `insert` itself.
pub proof fn lemma_idempotent_update<V>(
    m: Map<KeyHash, V>,
    ord: Seq<KeyHash>,
    cap: nat,
    kh: KeyHash,
    v: V,
)
    requires
        ord.no_duplicates(),
        ord.contains(kh),
        m.dom() == ord.to_set(),
    ensures
        ({
            let m2 = insert_step_map(m, ord, cap, kh, v);
            let ord2 = insert_step_order(ord, cap, kh);
            &&& ord2.len() == ord.len()
            &&& ord2[0] == kh
            &&& m2[kh] == v
            &&& m2.dom() =~= m.dom()
            &&& forall|d: KeyHash| m.dom().contains(d) && d != kh ==> m2[d] == m[d]
        }),
{
    assert(m.contains_key(kh));
    ord.index_of_first_ensures(kh);
    let i = ord.index_of_first(kh).unwrap();
    ord.remove_ensures(i);
    let ord2 = insert_step_order(ord, cap, kh);
    assert(ord2 == seq![kh] + ord.remove(i));
    assert(ord2.len() == ord.len());
}

/// Removal independence: removing one digest leaves the relative order of
/// every other pair of digests exactly as it was, wherever in the recency
/// order the removed digest sat.
pub proof fn lemma_removal_independence(ord: Seq<KeyHash>, kh: KeyHash, a: KeyHash, b: KeyHash)
    requires
        ord.no_duplicates(),
        ord.contains(a),
        ord.contains(b),
        a != kh,
        b != kh,
    ensures
        ({
            let ord2 = ord.remove_value(kh);
            &&& ord2.contains(a)
            &&& ord2.contains(b)
            &&& (ord2.index_of(a) < ord2.index_of(b) <==> ord.index_of(a) < ord.index_of(b))
        }),
{
    ord.index_of_first_ensures(kh);
    let ord2 = ord.remove_value(kh);
    if ord.contains(kh) {
        let i = ord.index_of_first(kh).unwrap();
        ord.remove_ensures(i);
        assert(ord2.no_duplicates());
        lemma_index_shifts(ord, i, a);
        lemma_index_shifts(ord, i, b);
    } else {
        assert(ord2 == ord);
    }
}

/// Where an element of a duplicate-free order lands after the element at
/// position `i` is removed: its index slides down by one exactly when it
/// sat past `i`.
proof fn lemma_index_shifts(ord: Seq<KeyHash>, i: int, a: KeyHash)
    requires
        ord.no_duplicates(),
        0 <= i < ord.len(),
        ord.contains(a),
        ord[i] != a,
    ensures
        ord.remove(i).contains(a),
        ord.remove(i).index_of(a) == (if ord.index_of(a) < i {
            ord.index_of(a)
        } else {
            ord.index_of(a) - 1
        }),
        0 <= ord.index_of(a) < ord.len(),
        ord[ord.index_of(a)] == a,
{
    let j = ord.index_of(a);
    assert(0 <= j < ord.len() && ord[j] == a);
    assert(j != i);
    ord.remove_ensures(i);
    let ord2 = ord.remove(i);
    let j2 = if j < i {
        j
    } else {
        j - 1
    };
    assert(ord2[j2] == a);
    assert(ord2.contains(a));
    let j3 = ord2.index_of(a);
    assert(0 <= j3 < ord2.len() && ord2[j3] == a);
    if j3 != j2 {
        let j3a = if j3 < i {
            j3
        } else {
            j3 + 1
        };
        assert(ord[j3a] == a);
        assert(ord[j] == ord[j3a]);
    }
}

/// Lazy expiry: an entry inserted at clock reading `t0` and next read at a
/// time past the timeout can never be a hit; the miss that takes its place
/// removes the entry, and the entry count reflects the removal.
pub proof fn lemma_ttl_lazy_expiry<K: Eq + Hash, V, S: BuildHasher>(
    pre: ExpiringCache<K, V, S>,
    mid: ExpiringCache<K, V, S>,
    post: ExpiringCache<K, V, S>,
    kh: KeyHash,
    t0: u64,
    now: u64,
    v: V,
    prev: Option<V>,
    cur: V,
    fin: V,
)
    requires
        ExpiringCache::spec_inserted_at(pre, mid, kh, t0, v, prev),
        spec_expired(now, t0, mid.spec_timeout()),
    ensures
        !ExpiringCache::spec_hit_at(mid, post, kh, now, cur, fin),
        ExpiringCache::spec_missed_at(mid, post, kh, now) ==> {
            &&& post.spec_map() =~= mid.spec_map().remove(kh)
            &&& post.spec_order().len() == mid.spec_order().len() - 1
        },
{
    assert(mid.spec_times()[kh] == t0);
    assert(mid.spec_map().contains_key(kh));
    let ord1 = mid.spec_order();
    assert(ord1[0] == kh);
    assert(ord1.contains(kh));
    ord1.index_of_first_ensures(kh);
    ord1.remove_ensures(ord1.index_of_first(kh).unwrap());
}

/// Changing the timeout touches no stored entry or timestamp — that is the
/// contract of `set_timeout` itself — and the next access to an entry is
/// judged against the new timeout alone, whether the entry sat within or
/// past the old one.
pub proof fn lemma_ttl_timeout_mutation<K: Eq + Hash, V, S: BuildHasher>(
    pre: ExpiringCache<K, V, S>,
    mid: ExpiringCache<K, V, S>,
    post: ExpiringCache<K, V, S>,
    new_timeout: u64,
    kh: KeyHash,
    now: u64,
    cur: V,
    fin: V,
)
    requires
        mid.spec_map() == pre.spec_map(),
        mid.spec_times() == pre.spec_times(),
        mid.spec_timeout() == new_timeout,
    ensures
        ExpiringCache::spec_hit_at(mid, post, kh, now, cur, fin) ==> !spec_expired(
            now,
            pre.spec_times()[kh],
            new_timeout,
        ),
        ExpiringCache::spec_missed_at(mid, post, kh, now) && pre.spec_map().contains_key(kh)
            ==> spec_expired(now, pre.spec_times()[kh], new_timeout),
{
}

} // verus!
