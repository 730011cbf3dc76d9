//! The cache engine: a key index, an arena of entries addressed by stable
//! handles, and the frequency buckets over those handles.

use crate::bucket::{bucket_front, bucket_is_empty, bucket_of, bucket_push, bucket_remove, buckets_unique};
use linked_hash_set::LinkedHashSet;
use std::collections::HashMap;
use std::hash::Hash;
use vstd::prelude::*;
use vstd::std_specs::hash::obeys_key_model;

verus! {

broadcast use vstd::std_specs::hash::group_hash_axioms;

/// Why a cache could not be built or read.
#[derive(Debug, Clone, Copy, PartialEq, Eq, Structural)]
pub enum CacheError {
    /// A cache must be able to hold at least one entry.
    InvalidCapacity,
    /// The key is not in the cache.
    KeyNotFound,
}

/// One live entry: its key, its value and how often it has been used.
pub struct ValueCounter<K, V> {
    pub key: K,
    pub value: V,
    pub count: usize,
}

impl<K, V> ValueCounter<K, V> {
    /// Records one more use of the entry.
    pub fn inc(&mut self)
        requires
            old(self).count < usize::MAX,
        ensures
            final(self).count == old(self).count + 1,
            final(self).key == old(self).key,
            final(self).value == old(self).value,
    {
        self.count = self.count + 1;
    }
}

/// Every stamp in `p` is earlier than `t`.
pub open spec fn all_before<K>(p: Map<K, nat>, t: nat) -> bool {
    forall|j: K| p.contains_key(j) ==> #[trigger] p[j] < t
}

/// `k` is a key that eviction may take from `c`: no present key has a lower
/// use count, and no key with the same count was placed there earlier.
pub open spec fn is_victim<K, V>(c: LFUCache<K, V>, k: K) -> bool {
    &&& c@.contains_key(k)
    &&& forall|j: K| #[trigger]
        c@.contains_key(j) ==> {
            &&& c.frequencies()[k] <= c.frequencies()[j]
            &&& c.frequencies()[j] == c.frequencies()[k] ==> c.placements()[k] <= c.placements()[j]
        }
}

/// Nothing observable differs between `a` and `b`.
pub open spec fn unchanged<K, V>(a: LFUCache<K, V>, b: LFUCache<K, V>) -> bool {
    &&& b@ == a@
    &&& b.frequencies() == a.frequencies()
    &&& b.placements() == a.placements()
    &&& b.cap() == a.cap()
}

/// `b` is `a` after one more use of the present key `k`: its count grows by
/// one and it becomes the most recently placed key; its value is left to the caller.
pub open spec fn bumped<K, V>(a: LFUCache<K, V>, b: LFUCache<K, V>, k: K) -> bool {
    &&& a@.contains_key(k)
    &&& b@.dom() == a@.dom()
    &&& b.frequencies() == a.frequencies().insert(k, a.frequencies()[k] + 1)
    &&& b.placements() == a.placements().insert(k, b.placements()[k])
    &&& all_before(a.placements(), b.placements()[k])
    &&& b.cap() == a.cap()
}

/// `b` is `a` after a lookup of `k`: a present key is used once more and keeps
/// its value; otherwise nothing changes.
pub open spec fn accessed<K, V>(a: LFUCache<K, V>, b: LFUCache<K, V>, k: K) -> bool {
    if a@.contains_key(k) {
        b@ == a@ && bumped(a, b, k)
    } else {
        unchanged(a, b)
    }
}

/// `b` is `a` without the key `k`.
pub open spec fn dropped<K, V>(a: LFUCache<K, V>, b: LFUCache<K, V>, k: K) -> bool {
    &&& b@ == a@.remove(k)
    &&& b.frequencies() == a.frequencies().remove(k)
    &&& b.placements() == a.placements().remove(k)
    &&& b.cap() == a.cap()
}

/// `b` is `a` after an eviction that took the key `k`.
pub open spec fn evicted<K, V>(a: LFUCache<K, V>, b: LFUCache<K, V>, k: K) -> bool {
    is_victim(a, k) && dropped(a, b, k)
}

/// `b` is `a` after storing `v` under `k`: a present key takes the new value
/// and is used once more; an absent one enters with count one, as the most
/// recently placed key, after an eviction if the cache was full.
pub open spec fn stored<K, V>(a: LFUCache<K, V>, b: LFUCache<K, V>, k: K, v: V) -> bool {
    if a@.contains_key(k) {
        b@ == a@.insert(k, v) && bumped(a, b, k)
    } else {
        &&& b.cap() == a.cap()
        &&& all_before(a.placements(), b.placements()[k])
        &&& a@.len() < a.cap() ==> {
            &&& b@ == a@.insert(k, v)
            &&& b.frequencies() == a.frequencies().insert(k, 1)
            &&& b.placements() == a.placements().insert(k, b.placements()[k])
        }
        &&& a@.len() >= a.cap() ==> exists|x: K|
            {
                &&& #[trigger] is_victim(a, x)
                &&& b@ == a@.remove(x).insert(k, v)
                &&& b.frequencies() == a.frequencies().remove(x).insert(k, 1)
                &&& b.placements() == a.placements().remove(x).insert(k, b.placements()[k])
            }
    }
}

/// A cache of at most `capacity` entries that, when full, evicts an entry of
/// the lowest use count, and among those the one placed at that count earliest.
#[verifier::reject_recursive_types(K)]
pub struct LFUCache<K, V> {
    /// The slot that holds each present key's entry.
    index: HashMap<K, usize>,
    /// The entries, addressed by stable handles; an empty slot awaits reuse.
    slots: Vec<Option<ValueCounter<K, V>>>,
    /// The handles of the empty slots.
    free: Vec<usize>,
    /// For each use count, the handles at that count, oldest placement first.
    frequency_bin: HashMap<usize, LinkedHashSet<usize>>,
    capacity: usize,
    /// The lowest use count of a present key, while any key is present.
    min_frequency: usize,
    /// When each present key was placed at its current count.
    placed: Ghost<Map<K, nat>>,
    /// The stamp that the next placement gets.
    clock: Ghost<nat>,
}

impl<K, V> View for LFUCache<K, V> {
    type V = Map<K, V>;

    /// The value held for each present key.
    closed spec fn view(&self) -> Map<K, V> {
        self.index@.map_values(|i: usize| self.slots@[i as int]->Some_0.value)
    }
}

impl<K, V> LFUCache<K, V> {
    spec fn slot(&self, i: int) -> ValueCounter<K, V> {
        self.slots@[i]->Some_0
    }

    spec fn bucket(&self, f: usize) -> Seq<usize> {
        bucket_of(self.frequency_bin@, f)
    }

    spec fn stamp(&self, i: usize) -> nat {
        self.placed@[self.slot(i as int).key]
    }

    /// How often each present key has been used.
    pub closed spec fn frequencies(&self) -> Map<K, nat> {
        self.index@.map_values(|i: usize| self.slots@[i as int]->Some_0.count as nat)
    }

    /// When each present key was last placed at its current frequency: a
    /// larger stamp means a more recent placement.
    pub closed spec fn placements(&self) -> Map<K, nat> {
        self.placed@
    }

    /// The largest number of entries the cache holds.
    pub closed spec fn cap(&self) -> nat {
        self.capacity as nat
    }

    spec fn wf_core(&self) -> bool {
        &&& obeys_key_model::<K>()
        &&& self.capacity > 0
        &&& self.index@.len() <= self.capacity
        &&& buckets_unique(self.frequency_bin@)
        &&& forall|k: K| #[trigger]
            self.index@.contains_key(k) ==> {
                let i = self.index@[k];
                &&& i < self.slots@.len()
                &&& self.slots@[i as int] is Some
                &&& self.slot(i as int).key == k
                &&& self.slot(i as int).count >= 1
                &&& self.bucket(self.slot(i as int).count).contains(i)
            }
        &&& forall|i: int|
            0 <= i < self.slots@.len() && #[trigger] self.slots@[i] is Some ==> {
                &&& self.index@.contains_key(self.slot(i).key)
                &&& self.index@[self.slot(i).key] == i
            }
        &&& self.free@.no_duplicates()
        &&& forall|j: int|
            0 <= j < self.free@.len() ==> {
                &&& #[trigger] self.free@[j] < self.slots@.len()
                &&& self.slots@[self.free@[j] as int] is None
            }
        &&& forall|f: usize, j: int|
            0 <= j < self.bucket(f).len() ==> {
                let i = #[trigger] self.bucket(f)[j];
                &&& i < self.slots@.len()
                &&& self.slots@[i as int] is Some
                &&& self.slot(i as int).count == f
            }
        &&& forall|f: usize, j1: int, j2: int|
            #![trigger self.bucket(f)[j1], self.bucket(f)[j2]]
            0 <= j1 < j2 < self.bucket(f).len() ==> self.stamp(self.bucket(f)[j1]) < self.stamp(
                self.bucket(f)[j2],
            )
        &&& self.placed@.dom() == self.index@.dom()
        &&& forall|k: K| #[trigger] self.placed@.contains_key(k) ==> self.placed@[k] < self.clock@
    }

    proof fn lemma_domains(&self)
        ensures
            self@.dom() == self.index@.dom(),
            self.frequencies().dom() == self.index@.dom(),
            self@.len() == self.index@.len(),
    {
        assert(self@.dom() =~= self.index@.dom());
        assert(self.frequencies().dom() =~= self.index@.dom());
    }

    /// In a well-formed cache the counts and stamps cover exactly the present
    /// keys, every count is at least one, and the entries fit the capacity.
    pub proof fn lemma_model(&self)
        requires
            self.wf(),
        ensures
            self@.dom().finite(),
            self.frequencies().dom() == self@.dom(),
            self.placements().dom() == self@.dom(),
            self@.len() <= self.cap(),
            forall|k: K| #[trigger] self.frequencies().contains_key(k) ==> self.frequencies()[k] >= 1,
    {
        self.lemma_domains();
    }

    /// The core invariant does not look at the frequency watermark.
    proof fn lemma_core_min_free(a: Self, b: Self)
        requires
            a.wf_core(),
            b.index == a.index,
            b.slots == a.slots,
            b.free == a.free,
            b.frequency_bin == a.frequency_bin,
            b.capacity == a.capacity,
            b.placed == a.placed,
            b.clock == a.clock,
        ensures
            b.wf_core(),
    {
        assert forall|f: usize| #[trigger] b.bucket(f) == a.bucket(f) by {}
        assert forall|i: int| #[trigger] b.slot(i) == a.slot(i) by {}
        assert forall|i: usize| #[trigger] b.stamp(i) == a.stamp(i) by {}
    }

    /// The invariants do not look at the values held.
    proof fn lemma_core_values_free(a: Self, b: Self, i: usize)
        requires
            a.wf(),
            i < a.slots@.len(),
            a.slots@[i as int] is Some,
            b.slots@ == a.slots@.update(
                i as int,
                Some(ValueCounter { key: a.slot(i as int).key, value: b.slot(i as int).value, count: a.slot(i as int).count }),
            ),
            b.index == a.index,
            b.free == a.free,
            b.frequency_bin == a.frequency_bin,
            b.capacity == a.capacity,
            b.min_frequency == a.min_frequency,
            b.placed == a.placed,
            b.clock == a.clock,
        ensures
            b.wf(),
    {
        assert forall|f: usize| #[trigger] b.bucket(f) == a.bucket(f) by {}
        assert forall|j: int| 0 <= j < a.slots@.len() implies #[trigger] b.slot(j).key == a.slot(j).key
            && b.slot(j).count == a.slot(j).count && (b.slots@[j] is Some <==> a.slots@[j] is Some) by {}
        assert forall|j: usize| j < a.slots@.len() implies #[trigger] b.stamp(j) == a.stamp(j) by {}
        assert forall|g: usize, j1: int, j2: int|
            #![trigger b.bucket(g)[j1], b.bucket(g)[j2]]
            0 <= j1 < j2 < b.bucket(g).len() implies b.stamp(b.bucket(g)[j1])
            < b.stamp(b.bucket(g)[j2]) by {
            assert(a.stamp(a.bucket(g)[j1]) < a.stamp(a.bucket(g)[j2]));
        }
    }

    /// Any state that differs from `a` only in the value held in slot `i` is
    /// well formed, with the same keys and counts.
    proof fn lemma_values_free_all(a: Self, i: usize)
        requires
            a.wf(),
            i < a.slots@.len(),
            a.slots@[i as int] is Some,
        ensures
            forall|b: Self|
                b.slots@ == a.slots@.update(
                    i as int,
                    Some(ValueCounter { key: a.slot(i as int).key, value: b.slot(i as int).value, count: a.slot(i as int).count }),
                ) && b.index == a.index && b.free == a.free && b.frequency_bin == a.frequency_bin
                    && b.capacity == a.capacity && b.min_frequency == a.min_frequency && b.placed
                    == a.placed && b.clock == a.clock ==> #[trigger] b.wf() && b.frequencies() == a.frequencies()
                    && b@ == a@.insert(a.slot(i as int).key, b.slot(i as int).value),
    {
        assert forall|b: Self|
            b.slots@ == a.slots@.update(
                i as int,
                Some(ValueCounter { key: a.slot(i as int).key, value: b.slot(i as int).value, count: a.slot(i as int).count }),
            ) && b.index == a.index && b.free == a.free && b.frequency_bin == a.frequency_bin
                && b.capacity == a.capacity && b.min_frequency == a.min_frequency && b.placed
                == a.placed && b.clock == a.clock implies #[trigger] b.wf() && b.frequencies() == a.frequencies()
                && b@ == a@.insert(a.slot(i as int).key, b.slot(i as int).value) by {
            LFUCache::lemma_core_values_free(a, b, i);
            a.lemma_domains();
            b.lemma_domains();
            assert(b.frequencies() =~= a.frequencies());
            assert(b@ =~= a@.insert(a.slot(i as int).key, b.slot(i as int).value));
        }
    }

    spec fn min_below(&self) -> bool {
        forall|k: K| #[trigger]
            self.index@.contains_key(k) ==> self.slot(self.index@[k] as int).count
                >= self.min_frequency
    }

    spec fn min_hit(&self) -> bool {
        self.index@.len() > 0 ==> self.bucket(self.min_frequency).len() > 0
    }

    /// The cache's internal structures agree with each other.
    pub closed spec fn wf(&self) -> bool {
        &&& self.wf_core()
        &&& self.min_below()
        &&& self.min_hit()
    }
}

impl<K: Copy + Eq + Hash, V> LFUCache<K, V> {
    /// Puts `x` in slot `i` and hands back what was there.
    fn swap_slot(&mut self, i: usize, x: Option<ValueCounter<K, V>>) -> (r: Option<
        ValueCounter<K, V>,
    >)
        requires
            i < old(self).slots@.len(),
        ensures
            r == old(self).slots@[i as int],
            final(self).slots@ == old(self).slots@.update(i as int, x),
            final(self).index == old(self).index,
            final(self).free == old(self).free,
            final(self).frequency_bin == old(self).frequency_bin,
            final(self).capacity == old(self).capacity,
            final(self).min_frequency == old(self).min_frequency,
            final(self).placed == old(self).placed,
            final(self).clock == old(self).clock,
    {
        let mut x = x;
        std::mem::swap(&mut self.slots[i], &mut x);
        x
    }

    /// Moves the present key `k`, held in slot `i`, from its frequency bucket to
    /// the end of the next one.
    fn update_frequency_bin(&mut self, i: usize, Ghost(k): Ghost<K>)
        requires
            old(self).wf(),
            old(self).index@.contains_key(k),
            old(self).index@[k] == i,
            old(self).frequencies()[k] < usize::MAX,
        ensures
            final(self).wf(),
            final(self)@ == old(self)@,
            bumped(*old(self), *final(self), k),
            final(self).index@ == old(self).index@,
    {
        proof {
            self.lemma_domains();
        }
        let ghost old_self = *self;
        let vc = self.swap_slot(i, None);
        let mut vc = vc.unwrap();
        let f = vc.count;
        vc.inc();
        self.swap_slot(i, Some(vc));
        assert(self.slots@ == old_self.slots@.update(i as int, Some(vc)));
        let ghost b0 = self.bucket(f);
        let ghost idx = b0.index_of(i);
        bucket_remove(&mut self.frequency_bin, f, i);
        proof {
            b0.remove_ensures(idx);
        }
        if f == self.min_frequency && bucket_is_empty(&self.frequency_bin, f) {
            self.min_frequency = f + 1;
        }
        let ghost b1 = self.bucket((f + 1) as usize);
        proof {
            if b1.contains(i) {
                let j = b1.index_of(i);
                assert(old_self.bucket((f + 1) as usize)[j] == i);
            }
        }
        bucket_push(&mut self.frequency_bin, f + 1, i);
        proof {
            self.placed@ = self.placed@.insert(k, self.clock@);
            self.clock@ = self.clock@ + 1;
        }
        proof {
            let o = old_self;
            assert(o.slot(i as int).key == k);
            assert(o.bucket(f)[idx] == i);
            // slots other than `i` keep their entries, and so their keys and stamps
            assert forall|j: usize| j != i && j < o.slots@.len() implies self.slots@[j as int]
                == o.slots@[j as int] by {}
            assert forall|j: usize| j != i && j < o.slots@.len() && o.slots@[j as int] is Some
                implies #[trigger] self.stamp(j) == o.stamp(j) by {
                assert(o.index@[o.slot(j as int).key] == j);
            }
            assert(self.stamp(i) == o.clock@);
            assert forall|k2: K| #[trigger] self.index@.contains_key(k2) implies {
                let i2 = self.index@[k2];
                &&& i2 < self.slots@.len()
                &&& self.slots@[i2 as int] is Some
                &&& self.slot(i2 as int).key == k2
                &&& self.slot(i2 as int).count >= 1
                &&& self.bucket(self.slot(i2 as int).count).contains(i2)
            } by {
                let i2 = self.index@[k2];
                if k2 == k {
                    assert(self.bucket((f + 1) as usize)[b1.len() as int] == i);
                } else {
                    assert(i2 != i);
                    let c2 = o.slot(i2 as int).count;
                    let j = choose|j: int| 0 <= j < o.bucket(c2).len() && o.bucket(c2)[j] == i2;
                    if c2 == f {
                        assert(j != idx);
                        if j < idx {
                            assert(self.bucket(f)[j] == i2);
                        } else {
                            assert(self.bucket(f)[j - 1] == i2);
                        }
                    } else if c2 == f + 1 {
                        assert(self.bucket(c2)[j] == i2);
                    } else {
                        assert(self.bucket(c2)[j] == i2);
                    }
                }
            }
            assert forall|j: int| 0 <= j < self.free@.len() implies {
                &&& #[trigger] self.free@[j] < self.slots@.len()
                &&& self.slots@[self.free@[j] as int] is None
            } by {
                assert(o.slots@[o.free@[j] as int] is None);
            }
            assert forall|g: usize, j: int| 0 <= j < self.bucket(g).len() implies {
                let i3 = #[trigger] self.bucket(g)[j];
                &&& i3 < self.slots@.len()
                &&& self.slots@[i3 as int] is Some
                &&& self.slot(i3 as int).count == g
            } by {
                if g == f {
                    if j < idx {
                        assert(o.bucket(f)[j] == self.bucket(g)[j]);
                    } else {
                        assert(o.bucket(f)[j + 1] == self.bucket(g)[j]);
                    }
                } else if g == f + 1 {
                    if j < b1.len() {
                        assert(o.bucket(g)[j] == self.bucket(g)[j]);
                    }
                } else {
                    assert(o.bucket(g)[j] == self.bucket(g)[j]);
                }
            }
            assert forall|g: usize, j1: int, j2: int|
                #![trigger self.bucket(g)[j1], self.bucket(g)[j2]]
                0 <= j1 < j2 < self.bucket(g).len() implies self.stamp(self.bucket(g)[j1])
                < self.stamp(self.bucket(g)[j2]) by {
                let ob = o.bucket(g);
                if g == f {
                    let a1 = if j1 < idx { j1 } else { j1 + 1 };
                    let a2 = if j2 < idx { j2 } else { j2 + 1 };
                    assert(ob[a1] == self.bucket(g)[j1]);
                    assert(ob[a2] == self.bucket(g)[j2]);
                    assert(o.stamp(ob[a1]) < o.stamp(ob[a2]));
                } else if g == f + 1 {
                    assert(ob[j1] == self.bucket(g)[j1]);
                    assert(o.slot(ob[j1] as int).count == g);
                    if j2 < b1.len() {
                        assert(ob[j2] == self.bucket(g)[j2]);
                        assert(o.stamp(ob[j1]) < o.stamp(ob[j2]));
                    } else {
                        assert(o.placed@.contains_key(o.slot(ob[j1] as int).key));
                    }
                } else {
                    assert(ob[j1] == self.bucket(g)[j1]);
                    assert(ob[j2] == self.bucket(g)[j2]);
                    assert(o.stamp(ob[j1]) < o.stamp(ob[j2]));
                }
            }
            assert(self.placed@.dom() =~= self.index@.dom());
            assert forall|k2: K| #[trigger] self.index@.contains_key(k2) implies self.slot(
                self.index@[k2] as int,
            ).count >= self.min_frequency by {
                let i2 = self.index@[k2];
                if k2 != k {
                    let c2 = o.slot(i2 as int).count;
                    if c2 == f && f + 1 == self.min_frequency {
                        let j = choose|j: int| 0 <= j < self.bucket(c2).len() && self.bucket(c2)[j] == i2;
                    }
                }
            }
            if self.min_frequency != f + 1 {
                if self.min_frequency == f {
                    assert(self.bucket(f).len() > 0);
                } else {
                    assert(self.bucket(self.min_frequency) == o.bucket(self.min_frequency));
                }
            } else {
                assert(self.bucket((f + 1) as usize).len() > 0);
            }
            self.lemma_domains();
            assert(self.frequencies() =~= o.frequencies().insert(k, o.frequencies()[k] + 1));
            assert(self@ =~= o@);
        }
    }

    /// The key held in the occupied slot `i`.
    fn key_at(&self, i: usize) -> (r: K)
        requires
            i < self.slots@.len(),
            self.slots@[i as int] is Some,
        ensures
            r == self.slot(i as int).key,
    {
        self.slots[i].as_ref().unwrap().key
    }

    /// Unlinks the present key `k`, held in slot `i`, from the index, its
    /// bucket and its slot, and hands back its entry.
    fn detach(&mut self, i: usize, Ghost(k): Ghost<K>) -> (vc: ValueCounter<K, V>)
        requires
            old(self).wf_core(),
            old(self).min_below(),
            old(self).index@.contains_key(k),
            old(self).index@[k] == i,
        ensures
            final(self).wf_core(),
            final(self).min_below(),
            dropped(*old(self), *final(self), k),
            final(self).min_frequency == old(self).min_frequency,
            final(self).clock == old(self).clock,
            vc == old(self).slot(i as int),
    {
        let ghost o = *self;
        proof {
            o.lemma_domains();
        }
        let vc = self.swap_slot(i, None);
        let vc = vc.unwrap();
        let f = vc.count;
        let ghost b0 = self.bucket(f);
        let ghost idx = b0.index_of(i);
        bucket_remove(&mut self.frequency_bin, f, i);
        proof {
            b0.remove_ensures(idx);
        }
        self.index.remove(&vc.key);
        self.free.push(i);
        proof {
            self.placed@ = self.placed@.remove(k);
        }
        proof {
            assert(o.bucket(f)[idx] == i);
            assert forall|j: usize| j != i && j < o.slots@.len() && o.slots@[j as int] is Some
                implies #[trigger] self.stamp(j) == o.stamp(j) && o.slot(j as int).key != k by {
                assert(o.index@[o.slot(j as int).key] == j);
            }
            assert forall|k2: K| #[trigger] self.index@.contains_key(k2) implies {
                let i2 = self.index@[k2];
                &&& i2 < self.slots@.len()
                &&& self.slots@[i2 as int] is Some
                &&& self.slot(i2 as int).key == k2
                &&& self.slot(i2 as int).count >= 1
                &&& self.bucket(self.slot(i2 as int).count).contains(i2)
            } by {
                let i2 = self.index@[k2];
                assert(i2 != i);
                let c2 = o.slot(i2 as int).count;
                let j = choose|j: int| 0 <= j < o.bucket(c2).len() && o.bucket(c2)[j] == i2;
                if c2 == f {
                    assert(j != idx);
                    if j < idx {
                        assert(self.bucket(f)[j] == i2);
                    } else {
                        assert(self.bucket(f)[j - 1] == i2);
                    }
                } else {
                    assert(self.bucket(c2)[j] == i2);
                }
            }
            assert forall|j: int|
                0 <= j < self.slots@.len() && #[trigger] self.slots@[j] is Some implies {
                &&& self.index@.contains_key(self.slot(j).key)
                &&& self.index@[self.slot(j).key] == j
            } by {
                assert(o.index@[o.slot(j).key] == j);
            }
            assert forall|j: int| 0 <= j < self.free@.len() implies {
                &&& #[trigger] self.free@[j] < self.slots@.len()
                &&& self.slots@[self.free@[j] as int] is None
            } by {
                if j < o.free@.len() {
                    assert(self.free@[j] == o.free@[j]);
                }
            }
            assert(self.free@.no_duplicates()) by {
                assert forall|a: int, b: int| 0 <= a < b < self.free@.len() implies self.free@[a]
                    != self.free@[b] by {
                    if b == o.free@.len() {
                        assert(o.slots@[o.free@[a] as int] is None);
                    } else {
                        assert(self.free@[a] == o.free@[a] && self.free@[b] == o.free@[b]);
                    }
                }
            }
            assert forall|g: usize, j: int| 0 <= j < self.bucket(g).len() implies {
                let i3 = #[trigger] self.bucket(g)[j];
                &&& i3 < self.slots@.len()
                &&& self.slots@[i3 as int] is Some
                &&& self.slot(i3 as int).count == g
            } by {
                if g == f {
                    if j < idx {
                        assert(o.bucket(f)[j] == self.bucket(g)[j]);
                    } else {
                        assert(o.bucket(f)[j + 1] == self.bucket(g)[j]);
                    }
                } else {
                    assert(o.bucket(g)[j] == self.bucket(g)[j]);
                }
            }
            assert forall|g: usize, j1: int, j2: int|
                #![trigger self.bucket(g)[j1], self.bucket(g)[j2]]
                0 <= j1 < j2 < self.bucket(g).len() implies self.stamp(self.bucket(g)[j1])
                < self.stamp(self.bucket(g)[j2]) by {
                let ob = o.bucket(g);
                if g == f {
                    let a1 = if j1 < idx { j1 } else { j1 + 1 };
                    let a2 = if j2 < idx { j2 } else { j2 + 1 };
                    assert(ob[a1] == self.bucket(g)[j1]);
                    assert(ob[a2] == self.bucket(g)[j2]);
                    assert(o.stamp(ob[a1]) < o.stamp(ob[a2]));
                } else {
                    assert(ob[j1] == self.bucket(g)[j1]);
                    assert(ob[j2] == self.bucket(g)[j2]);
                    assert(o.stamp(ob[j1]) < o.stamp(ob[j2]));
                }
            }
            assert(self.placed@.dom() =~= self.index@.dom());
            assert forall|k2: K| #[trigger] self.index@.contains_key(k2) implies self.slot(
                self.index@[k2] as int,
            ).count >= self.min_frequency by {
                assert(o.index@.contains_key(k2));
            }
            self.lemma_domains();
            assert(self@ =~= o@.remove(k));
            assert(self.frequencies() =~= o.frequencies().remove(k));
        }
        vc
    }

    /// Raises the frequency watermark to the lowest non-empty bucket.
    fn restore_min(&mut self)
        requires
            old(self).wf_core(),
            old(self).min_below(),
        ensures
            final(self).wf(),
            unchanged(*old(self), *final(self)),
    {
        if self.index.len() == 0 {
            return;
        }
        proof {
            vstd::set_lib::lemma_set_empty_equivalency_len(self.index@.dom());
        }
        let ghost w = choose|k: K| self.index@.contains_key(k);
        let ghost o = *self;
        while bucket_is_empty(&self.frequency_bin, self.min_frequency)
            invariant
                self.wf_core(),
                self.min_below(),
                self.index@.contains_key(w),
                self.index == o.index,
                self.slots == o.slots,
                self.free == o.free,
                self.frequency_bin == o.frequency_bin,
                self.capacity == o.capacity,
                self.placed == o.placed,
                self.clock == o.clock,
            decreases self.slot(self.index@[w] as int).count - self.min_frequency,
        {
            let ghost m = self.min_frequency;
            assert(self.slot(self.index@[w] as int).count != m);
            assert forall|k2: K| #[trigger] self.index@.contains_key(k2) implies self.slot(
                self.index@[k2] as int,
            ).count > m by {
                if self.slot(self.index@[k2] as int).count == m {
                    let j = choose|j: int|
                        0 <= j < self.bucket(m).len() && self.bucket(m)[j] == self.index@[k2];
                }
            }
            let ghost before = *self;
            self.min_frequency = self.min_frequency + 1;
            proof {
                LFUCache::lemma_core_min_free(before, *self);
            }
        }
        proof {
            self.lemma_domains();
            assert(self.index@.dom().len() > 0);
        }
    }

    /// Removes the entry of the lowest use count that was placed at that count
    /// earliest, leaving the frequency watermark to the caller.
    fn evict_entry(&mut self)
        requires
            old(self).wf(),
            old(self)@.len() > 0,
        ensures
            final(self).wf_core(),
            final(self).min_below(),
            final(self).clock == old(self).clock,
            exists|x: K| #[trigger] evicted(*old(self), *final(self), x),
    {
        let ghost o = *self;
        proof {
            o.lemma_domains();
        }
        let i = bucket_front(&self.frequency_bin, self.min_frequency).unwrap();
        let ghost b = o.bucket(o.min_frequency);
        assert(b[0] == i);
        let k = self.key_at(i);
        proof {
            assert forall|j: K| #[trigger] o@.contains_key(j) implies {
                &&& o.frequencies()[k] <= o.frequencies()[j]
                &&& o.frequencies()[j] == o.frequencies()[k] ==> o.placements()[k] <= o.placements()[j]
            } by {
                assert(o.index@.contains_key(j));
                if o.frequencies()[j] == o.frequencies()[k] {
                    let ij = o.index@[j];
                    let p = choose|p: int| 0 <= p < b.len() && b[p] == ij;
                    if p > 0 {
                        assert(o.stamp(b[0]) < o.stamp(b[p]));
                    }
                }
            }
            assert(is_victim(o, k));
        }
        self.detach(i, Ghost(k));
        assert(evicted(o, *self, k));
    }

    /// Removes the entry of the lowest use count; among several, the one placed
    /// at that count earliest.
    pub fn evict(&mut self)
        requires
            old(self).wf(),
            old(self)@.len() > 0,
        ensures
            final(self).wf(),
            exists|x: K| #[trigger] evicted(*old(self), *final(self), x),
    {
        let ghost o = *self;
        self.evict_entry();
        let ghost m = *self;
        let ghost x = choose|x: K| #[trigger] evicted(o, m, x);
        self.restore_min();
        assert(evicted(o, *self, x));
    }

    /// Removes `key`; true when it was present.
    pub fn remove(&mut self, key: K) -> (r: bool)
        requires
            old(self).wf(),
        ensures
            final(self).wf(),
            r == old(self)@.contains_key(key),
            r ==> dropped(*old(self), *final(self), key),
            !r ==> unchanged(*old(self), *final(self)),
    {
        proof {
            self.lemma_domains();
        }
        match self.index.get(&key) {
            Some(ip) => {
                let i = *ip;
                self.detach(i, Ghost(key));
                self.restore_min();
                true
            },
            None => false,
        }
    }

    /// Stores `value` under `key`. A present key takes the new value and counts
    /// one more use; an absent one enters with a count of one, after the
    /// eviction of one entry when the cache is full.
    pub fn set(&mut self, key: K, value: V)
        requires
            old(self).wf(),
            old(self)@.contains_key(key) ==> old(self).frequencies()[key] < usize::MAX,
        ensures
            final(self).wf(),
            stored(*old(self), *final(self), key, value),
    {
        let ghost o = *self;
        proof {
            o.lemma_domains();
        }
        match self.index.get(&key) {
            Some(ip) => {
                let i = *ip;
                self.update_frequency_bin(i, Ghost(key));
                let ghost b = *self;
                let mut vc = self.swap_slot(i, None).unwrap();
                vc.value = value;
                self.swap_slot(i, Some(vc));
                proof {
                    assert(self.slots@ =~= b.slots@.update(i as int, Some(vc)));
                    assert forall|j: usize| j != i && j < b.slots@.len() && b.slots@[j as int] is Some
                        implies #[trigger] self.stamp(j) == b.stamp(j) by {}
                    LFUCache::lemma_core_values_free(b, *self, i);
                    self.lemma_domains();
                    assert(self@ =~= o@.insert(key, value));
                    assert(self.frequencies() =~= b.frequencies());
                }
                return ;
            },
            None => {},
        }
        if self.index.len() >= self.capacity {
            self.evict_entry();
        }
        let ghost m = *self;
        proof {
            m.lemma_domains();
        }
        let i = match self.free.pop() {
            Some(i) => i,
            None => {
                self.slots.push(None);
                self.slots.len() - 1
            },
        };
        let ghost a = *self;
        assert(i < a.slots@.len() && a.slots@[i as int] is None) by {
            if self.free@.len() < m.free@.len() {
                assert(m.free@[m.free@.len() - 1] == i);
            }
        }
        self.swap_slot(i, Some(ValueCounter { key, value, count: 1 }));
        self.index.insert(key, i);
        proof {
            if bucket_of(self.frequency_bin@, 1).contains(i) {
                let j = bucket_of(self.frequency_bin@, 1).index_of(i);
                assert(m.bucket(1)[j] == i);
            }
        }
        bucket_push(&mut self.frequency_bin, 1, i);
        self.min_frequency = 1;
        proof {
            self.placed@ = self.placed@.insert(key, self.clock@);
            self.clock@ = self.clock@ + 1;
        }
        proof {
            let n = *self;
            assert(!m.index@.contains_key(key));
            assert forall|j: usize| j != i && j < m.slots@.len() implies self.slots@[j as int]
                == m.slots@[j as int] by {
                if self.free@.len() < m.free@.len() {
                    assert(m.free@[m.free@.len() - 1] == i);
                }
            }
            assert forall|j: usize| j != i && j < m.slots@.len() && m.slots@[j as int] is Some
                implies #[trigger] self.stamp(j) == m.stamp(j) && m.slot(j as int).key != key by {
                assert(m.index@.contains_key(m.slot(j as int).key));
            }
            assert(self.stamp(i) == m.clock@);
            assert forall|k2: K| #[trigger] self.index@.contains_key(k2) implies {
                let i2 = self.index@[k2];
                &&& i2 < self.slots@.len()
                &&& self.slots@[i2 as int] is Some
                &&& self.slot(i2 as int).key == k2
                &&& self.slot(i2 as int).count >= 1
                &&& self.bucket(self.slot(i2 as int).count).contains(i2)
            } by {
                let i2 = self.index@[k2];
                if k2 == key {
                    assert(self.bucket(1)[m.bucket(1).len() as int] == i);
                } else {
                    assert(m.index@.contains_key(k2));
                    assert(i2 != i);
                    let c2 = m.slot(i2 as int).count;
                    let j = choose|j: int| 0 <= j < m.bucket(c2).len() && m.bucket(c2)[j] == i2;
                    assert(self.bucket(c2)[j] == i2);
                }
            }
            assert forall|j: int|
                0 <= j < self.slots@.len() && #[trigger] self.slots@[j] is Some implies {
                &&& self.index@.contains_key(self.slot(j).key)
                &&& self.index@[self.slot(j).key] == j
            } by {
                if j != i {
                    assert(m.slots@[j] is Some);
                    assert(m.index@[m.slot(j).key] == j);
                }
            }
            assert(self.free@.no_duplicates() && forall|j: int| 0 <= j < self.free@.len() ==> {
                &&& #[trigger] self.free@[j] < self.slots@.len()
                &&& self.slots@[self.free@[j] as int] is None
            }) by {
                if self.free@.len() < m.free@.len() {
                    assert(self.free@ =~= m.free@.drop_last());
                    assert forall|j: int| 0 <= j < self.free@.len() implies self.free@[j] != i by {
                        assert(m.free@[m.free@.len() - 1] == i);
                    }
                }
                assert forall|j: int| 0 <= j < self.free@.len() implies self.free@[j] == m.free@[j] by {}
            }
            assert forall|g: usize, j: int| 0 <= j < self.bucket(g).len() implies {
                let i3 = #[trigger] self.bucket(g)[j];
                &&& i3 < self.slots@.len()
                &&& self.slots@[i3 as int] is Some
                &&& self.slot(i3 as int).count == g
            } by {
                if g != 1 || j < m.bucket(1).len() {
                    assert(m.bucket(g)[j] == self.bucket(g)[j]);
                }
            }
            assert forall|g: usize, j1: int, j2: int|
                #![trigger self.bucket(g)[j1], self.bucket(g)[j2]]
                0 <= j1 < j2 < self.bucket(g).len() implies self.stamp(self.bucket(g)[j1])
                < self.stamp(self.bucket(g)[j2]) by {
                let mb = m.bucket(g);
                assert(mb[j1] == self.bucket(g)[j1]);
                if g != 1 || j2 < mb.len() {
                    assert(mb[j2] == self.bucket(g)[j2]);
                    assert(m.stamp(mb[j1]) < m.stamp(mb[j2]));
                } else {
                    assert(m.index@.contains_key(m.slot(mb[j1] as int).key));
                }
            }
            assert(self.placed@.dom() =~= self.index@.dom());
            assert(self.bucket(1).len() > 0);
            self.lemma_domains();
            assert(self@ =~= m@.insert(key, value));
            assert(self.frequencies() =~= m.frequencies().insert(key, 1));
            if o@.len() >= o.cap() {
                let x = choose|x: K| #[trigger] evicted(o, m, x);
                assert(self@ == o@.remove(x).insert(key, value));
            }
        }
    }

    /// Looks `key` up. A present key counts one more use and its value is
    /// returned; an absent one gives `None` and changes nothing.
    pub fn get(&mut self, key: &K) -> (r: Option<&V>)
        requires
            old(self).wf(),
            old(self)@.contains_key(*key) ==> old(self).frequencies()[*key] < usize::MAX,
        ensures
            final(self).wf(),
            accessed(*old(self), *final(self), *key),
            r is Some <==> old(self)@.contains_key(*key),
            r matches Some(v) ==> *v == old(self)@[*key],
    {
        proof {
            self.lemma_domains();
        }
        let i = match self.index.get(key) {
            Some(ip) => *ip,
            None => return None,
        };
        self.update_frequency_bin(i, Ghost(*key));
        Some(&self.slots[i].as_ref().unwrap().value)
    }

    /// Looks `key` up for changing its value in place. A present key counts
    /// one more use; an absent one gives `None` and changes nothing.
    pub fn get_mut(&mut self, key: &K) -> (r: Option<&mut V>)
        requires
            old(self).wf(),
            old(self)@.contains_key(*key) ==> old(self).frequencies()[*key] < usize::MAX,
        ensures
            r is Some <==> old(self)@.contains_key(*key),
            r matches Some(v) ==> *v == old(self)@[*key] && final(self).wf() && final(self)@
                == old(self)@.insert(*key, *final(v)) && bumped(*old(self), *final(self), *key),
            r is None ==> final(self).wf() && unchanged(*old(self), *final(self)),
    {
        proof {
            self.lemma_domains();
        }
        let i = match self.index.get(key) {
            Some(ip) => *ip,
            None => return None,
        };
        self.update_frequency_bin(i, Ghost(*key));
        let ghost b = *self;
        proof {
            LFUCache::lemma_values_free_all(b, i);
            self.lemma_domains();
        }
        let vc = self.slots[i].as_mut().unwrap();
        Some(&mut vc.value)
    }

    /// The value of a key known to be present; its use count is left as it is.
    pub fn index(&self, key: K) -> (r: &V)
        requires
            self.wf(),
            self@.contains_key(key),
        ensures
            *r == self@[key],
    {
        let i = *self.index.get(&key).unwrap();
        &self.slots[i].as_ref().unwrap().value
    }

    /// A walk over the entries in slot order, which is unrelated to use counts;
    /// it leaves the counts as they are.
    pub fn iter(&self) -> (r: LfuIterator<'_, K, V>)
        requires
            self.wf(),
        ensures
            r.wf(),
            r.remaining() == self@,
    {
        let r = LfuIterator { cache: self, pos: 0 };
        assert(r.remaining() =~= self@);
        r
    }

    /// Consumes the cache into a walk that hands out its entries by value.
    pub fn into_iter(self) -> (r: LfuConsumer<K, V>)
        requires
            self.wf(),
        ensures
            r.wf(),
            r.remaining() == self@,
    {
        let ghost index = self.index@;
        let r = LfuConsumer { slots: self.slots, index: Ghost(index) };
        assert(r.remaining() =~= self@);
        r
    }

    /// An empty cache that holds at most `capacity` entries; a capacity of
    /// zero is refused.
    pub fn with_capacity(capacity: usize) -> (r: Result<LFUCache<K, V>, CacheError>)
        requires
            obeys_key_model::<K>(),
        ensures
            capacity == 0 ==> r == Err::<LFUCache<K, V>, CacheError>(CacheError::InvalidCapacity),
            capacity > 0 ==> (r matches Ok(c) && c.wf() && c@ == Map::<K, V>::empty() && c.cap()
                == capacity),
    {
        if capacity == 0 {
            return Err(CacheError::InvalidCapacity);
        }
        let c = LFUCache {
            index: HashMap::new(),
            slots: Vec::new(),
            free: Vec::new(),
            frequency_bin: HashMap::new(),
            capacity,
            min_frequency: 0,
            placed: Ghost(Map::empty()),
            clock: Ghost(0),
        };
        assert(c@ =~= Map::<K, V>::empty());
        assert forall|f: usize| #[trigger] bucket_of(c.frequency_bin@, f).no_duplicates() by {}
        Ok(c)
    }

    /// Whether `key` is present; its use count is left as it is.
    pub fn contains(&self, key: &K) -> (r: bool)
        requires
            self.wf(),
        ensures
            r == self@.contains_key(*key),
    {
        self.index.contains_key(key)
    }

    /// The number of entries.
    pub fn len(&self) -> (r: usize)
        requires
            self.wf(),
        ensures
            r == self@.len(),
    {
        proof {
            self.lemma_domains();
        }
        self.index.len()
    }
}

/// A walk over the entries of a cache that leaves the cache as it is.
#[verifier::reject_recursive_types(K)]
pub struct LfuIterator<'a, K, V> {
    cache: &'a LFUCache<K, V>,
    pos: usize,
}

impl<'a, K, V> LfuIterator<'a, K, V> {
    /// The walk's cache is well formed.
    pub closed spec fn wf(&self) -> bool {
        self.cache.wf()
    }

    /// The entries not yet handed out.
    pub closed spec fn remaining(&self) -> Map<K, V> {
        Map::new(
            |k: K| self.cache.index@.contains_key(k) && self.cache.index@[k] >= self.pos,
            |k: K| self.cache@[k],
        )
    }
}

impl<'a, K: Copy, V> LfuIterator<'a, K, V> {
    /// The next entry, or `None` when all have been handed out.
    pub fn next(&mut self) -> (r: Option<(K, &'a V)>)
        requires
            old(self).wf(),
        ensures
            final(self).wf(),
            r is None ==> old(self).remaining() == Map::<K, V>::empty() && final(self).remaining()
                == old(self).remaining(),
            r matches Some(e) ==> old(self).remaining().contains_key(e.0) && old(self).remaining()[e.0]
                == *e.1 && final(self).remaining() == old(self).remaining().remove(e.0),
    {
        let ghost o = *self;
        proof {
            self.cache.lemma_domains();
        }
        while self.pos < self.cache.slots.len()
            invariant
                self.cache == o.cache,
                *old(self) == o,
                self.wf(),
                o.pos <= self.pos,
                forall|j: int| o.pos <= j < self.pos ==> #[trigger] self.cache.slots@[j] is None,
            decreases self.cache.slots@.len() - self.pos,
        {
            let p = self.pos;
            self.pos = self.pos + 1;
            match self.cache.slots[p].as_ref() {
                Some(vc) => {
                    proof {
                        assert(self.cache.index@[vc.key] == p);
                        assert(o.remaining().contains_key(vc.key));
                        assert(o.remaining()[vc.key] == self.cache@[vc.key]);
                        assert(self.remaining() =~= o.remaining().remove(vc.key)) by {
                            assert forall|k: K| self.cache.index@.contains_key(k) && self.cache.index@[k] >= o.pos
                                && k != vc.key implies self.cache.index@[k] >= self.pos by {
                                let q = self.cache.index@[k];
                                if q < p {
                                    assert(self.cache.slots@[q as int] is None);
                                }
                            }
                        }
                    }
                    return Some((vc.key, &vc.value));
                },
                None => {},
            }
        }
        proof {
            assert(o.remaining() =~= Map::<K, V>::empty()) by {
                assert forall|k: K| !o.remaining().contains_key(k) by {
                    if self.cache.index@.contains_key(k) && self.cache.index@[k] >= o.pos {
                        assert(self.cache.slots@[self.cache.index@[k] as int] is None);
                    }
                }
            }
            assert(self.remaining() =~= o.remaining());
        }
        None
    }
}

/// A walk that takes the entries out of a consumed cache.
#[verifier::reject_recursive_types(K)]
pub struct LfuConsumer<K, V> {
    slots: Vec<Option<ValueCounter<K, V>>>,
    index: Ghost<Map<K, usize>>,
}

impl<K, V> LfuConsumer<K, V> {
    /// Each remaining entry sits in the one slot its key names.
    pub closed spec fn wf(&self) -> bool {
        &&& forall|k: K| #[trigger]
            self.index@.contains_key(k) ==> {
                &&& self.index@[k] < self.slots@.len()
                &&& self.slots@[self.index@[k] as int] is Some
                &&& self.slots@[self.index@[k] as int]->Some_0.key == k
            }
        &&& forall|j: int|
            0 <= j < self.slots@.len() && #[trigger] self.slots@[j] is Some ==> {
                &&& self.index@.contains_key(self.slots@[j]->Some_0.key)
                &&& self.index@[self.slots@[j]->Some_0.key] == j
            }
    }

    /// The entries not yet handed out.
    pub closed spec fn remaining(&self) -> Map<K, V> {
        self.index@.map_values(|j: usize| self.slots@[j as int]->Some_0.value)
    }

    /// The next entry, or `None` when all have been handed out.
    pub fn next(&mut self) -> (r: Option<(K, V)>)
        requires
            old(self).wf(),
        ensures
            final(self).wf(),
            r is None ==> old(self).remaining() == Map::<K, V>::empty() && final(self).remaining()
                == old(self).remaining(),
            r matches Some(e) ==> old(self).remaining().contains_key(e.0) && old(self).remaining()[e.0]
                == e.1 && final(self).remaining() == old(self).remaining().remove(e.0),
    {
        let ghost o = *self;
        loop
            invariant
                self.wf(),
                self.remaining() == o.remaining(),
                *old(self) == o,
            decreases self.slots@.len(),
        {
            let ghost before = *self;
            match self.slots.pop() {
                None => {
                    proof {
                        assert(self.remaining() =~= Map::<K, V>::empty()) by {
                            assert forall|k: K| !self.index@.contains_key(k) by {
                                if self.index@.contains_key(k) {
                                    assert(self.index@[k] < self.slots@.len());
                                }
                            }
                        }
                    }
                    return None;
                },
                Some(None) => {
                    proof {
                        assert forall|j: int| 0 <= j < self.slots@.len() implies self.slots@[j]
                            == before.slots@[j] by {}
                        assert(self.remaining() =~= before.remaining());
                    }
                },
                Some(Some(vc)) => {
                    let ghost last = self.slots@.len() as int;
                    proof {
                        assert(before.slots@[last] == Some(vc));
                        assert(before.index@[vc.key] == last);
                        assert(before.remaining().contains_key(vc.key));
                        assert(before.remaining()[vc.key] == vc.value);
                        assert forall|j: int| 0 <= j < self.slots@.len() implies self.slots@[j]
                            == before.slots@[j] by {}
                        self.index@ = self.index@.remove(vc.key);
                        assert(self.remaining() =~= before.remaining().remove(vc.key));
                    }
                    return Some((vc.key, vc.value));
                },
            }
        }
    }
}

} // verus!
