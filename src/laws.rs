//! Facts about sequences of cache operations, stated over the predicates that
//! the operations' contracts use.

use crate::cache::{accessed, bumped, dropped, evicted, stored, LFUCache};
use vstd::prelude::*;

verus! {

/// A well-formed cache never holds more entries than its capacity; every
/// operation keeps the cache well formed, so this holds after each one.
pub proof fn lemma_len_within_capacity<K, V>(c: LFUCache<K, V>)
    requires
        c.wf(),
    ensures
        c@.len() <= c.cap(),
{
    c.lemma_model();
}

/// A key that was just used again is taken by the next eviction only when its
/// count is then strictly below the count of every other present key.
pub proof fn lemma_bumped_key_spared<K, V>(a: LFUCache<K, V>, b: LFUCache<K, V>, c: LFUCache<K, V>, k: K)
    requires
        a.wf(),
        b.wf(),
        bumped(a, b, k),
        evicted(b, c, k),
    ensures
        forall|j: K| #[trigger] b@.contains_key(j) && j != k ==> b.frequencies()[k] < b.frequencies()[j],
{
    a.lemma_model();
    b.lemma_model();
    assert forall|j: K| #[trigger] b@.contains_key(j) && j != k implies b.frequencies()[k]
        < b.frequencies()[j] by {
        assert(a.placements().contains_key(j));
        assert(b.placements()[j] == a.placements()[j]);
    }
}

/// After storing `v` under `k`, the key is present and holds `v`; so indexing
/// it cannot fail, and looking it up returns `v`.
pub proof fn lemma_get_after_set<K, V>(a: LFUCache<K, V>, b: LFUCache<K, V>, k: K, v: V)
    requires
        a.wf(),
        stored(a, b, k, v),
    ensures
        b@.contains_key(k),
        b@[k] == v,
{
    a.lemma_model();
}

/// A lookup right after storing `v` under `k` finds `v` and leaves it there.
pub proof fn lemma_set_then_get<K, V>(
    a: LFUCache<K, V>,
    b: LFUCache<K, V>,
    c: LFUCache<K, V>,
    k: K,
    v: V,
)
    requires
        a.wf(),
        stored(a, b, k, v),
        accessed(b, c, k),
    ensures
        c@.contains_key(k),
        c@[k] == v,
{
    lemma_get_after_set(a, b, k, v);
}

/// After a removal the key is absent, so a lookup finds nothing; when it was
/// present the cache holds exactly one entry fewer.
pub proof fn lemma_remove_shrinks<K, V>(a: LFUCache<K, V>, b: LFUCache<K, V>, k: K)
    requires
        a.wf(),
        dropped(a, b, k),
    ensures
        !b@.contains_key(k),
        a@.contains_key(k) ==> b@.len() == a@.len() - 1,
{
    a.lemma_model();
}

/// A lookup after the removal of a key changes nothing, as the key is absent.
pub proof fn lemma_get_after_remove<K, V>(
    a: LFUCache<K, V>,
    b: LFUCache<K, V>,
    c: LFUCache<K, V>,
    k: K,
)
    requires
        a.wf(),
        dropped(a, b, k),
        accessed(b, c, k),
    ensures
        !c@.contains_key(k),
        c@ == b@,
{
    lemma_remove_shrinks(a, b, k);
}

} // verus!
