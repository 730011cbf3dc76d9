//! Frequency buckets: ordered sets of slot handles, oldest placement first,
//! held in a map from frequency to bucket.

use linked_hash_set::LinkedHashSet;
use std::collections::HashMap;
use vstd::prelude::*;

verus! {

broadcast use vstd::std_specs::hash::group_hash_axioms;

#[verifier::external_type_specification]
#[verifier::external_body]
#[verifier::reject_recursive_types(T)]
#[verifier::reject_recursive_types(S)]
pub struct ExLinkedHashSet<T, S>(LinkedHashSet<T, S>);

/// The members of a bucket, in the order in which they were placed there.
pub uninterp spec fn set_order(s: LinkedHashSet<usize>) -> Seq<usize>;

/// Relies on `LinkedHashSet::new`: a new set has no members.
#[verifier::external_body]
fn set_new() -> (r: LinkedHashSet<usize>)
    ensures
        set_order(r) == Seq::<usize>::empty(),
{
    LinkedHashSet::new()
}

/// Relies on `LinkedHashSet::insert`: a value that was absent is appended at the
/// end of the ordering; a set never holds a value twice.
#[verifier::external_body]
fn set_insert(s: &mut LinkedHashSet<usize>, v: usize) -> (r: bool)
    ensures
        !set_order(*old(s)).contains(v) ==> r && set_order(*final(s)) == set_order(*old(s)).push(v),
        set_order(*final(s)).no_duplicates(),
{
    s.insert(v)
}

/// Relies on `LinkedHashSet::remove`: the value leaves the set and the order of
/// the others is kept.
#[verifier::external_body]
fn set_remove(s: &mut LinkedHashSet<usize>, v: &usize) -> (r: bool)
    ensures
        r == set_order(*old(s)).contains(*v),
        set_order(*old(s)).contains(*v) ==> set_order(*final(s)) == set_order(*old(s)).remove(
            set_order(*old(s)).index_of(*v),
        ),
        !set_order(*old(s)).contains(*v) ==> set_order(*final(s)) == set_order(*old(s)),
        set_order(*final(s)).no_duplicates(),
{
    s.remove(v)
}

/// Relies on `LinkedHashSet::front`: the oldest member, if there is one.
#[verifier::external_body]
fn set_front(s: &LinkedHashSet<usize>) -> (r: Option<usize>)
    ensures
        set_order(*s).len() == 0 ==> r is None,
        set_order(*s).len() > 0 ==> r == Some(set_order(*s)[0]),
{
    s.front().copied()
}

/// Relies on `LinkedHashSet::is_empty`: true exactly when the set has no members.
#[verifier::external_body]
fn set_is_empty(s: &LinkedHashSet<usize>) -> (r: bool)
    ensures
        r == (set_order(*s).len() == 0),
{
    s.is_empty()
}

/// The members of the bucket for frequency `f`; a frequency without a bucket has none.
pub open spec fn bucket_of(m: Map<usize, LinkedHashSet<usize>>, f: usize) -> Seq<usize> {
    if m.contains_key(f) {
        set_order(m[f])
    } else {
        Seq::empty()
    }
}

/// Every bucket holds each handle at most once.
pub open spec fn buckets_unique(m: Map<usize, LinkedHashSet<usize>>) -> bool {
    forall|f: usize| #[trigger] bucket_of(m, f).no_duplicates()
}

/// Removes `id` from the bucket for `f`, keeping the order of the rest.
pub(crate) fn bucket_remove(bins: &mut HashMap<usize, LinkedHashSet<usize>>, f: usize, id: usize)
    requires
        buckets_unique(old(bins)@),
    ensures
        buckets_unique(final(bins)@),
        bucket_of(old(bins)@, f).contains(id) ==> bucket_of(final(bins)@, f) == bucket_of(
            old(bins)@,
            f,
        ).remove(bucket_of(old(bins)@, f).index_of(id)),
        !bucket_of(old(bins)@, f).contains(id) ==> bucket_of(final(bins)@, f) == bucket_of(
            old(bins)@,
            f,
        ),
        forall|g: usize| g != f ==> bucket_of(final(bins)@, g) == bucket_of(old(bins)@, g),
{
    let mut s = match bins.remove(&f) {
        Some(s) => s,
        None => set_new(),
    };
    set_remove(&mut s, &id);
    bins.insert(f, s);
    assert forall|g: usize| #[trigger] bucket_of(bins@, g).no_duplicates() by {
        if g != f {
            assert(bucket_of(bins@, g) == bucket_of(old(bins)@, g));
        }
    }
}

/// Places `id` at the end of the bucket for `f`, creating the bucket if needed.
pub(crate) fn bucket_push(bins: &mut HashMap<usize, LinkedHashSet<usize>>, f: usize, id: usize)
    requires
        buckets_unique(old(bins)@),
        !bucket_of(old(bins)@, f).contains(id),
    ensures
        buckets_unique(final(bins)@),
        bucket_of(final(bins)@, f) == bucket_of(old(bins)@, f).push(id),
        forall|g: usize| g != f ==> bucket_of(final(bins)@, g) == bucket_of(old(bins)@, g),
{
    let mut s = match bins.remove(&f) {
        Some(s) => s,
        None => set_new(),
    };
    set_insert(&mut s, id);
    bins.insert(f, s);
    assert forall|g: usize| #[trigger] bucket_of(bins@, g).no_duplicates() by {
        if g != f {
            assert(bucket_of(bins@, g) == bucket_of(old(bins)@, g));
        }
    }
}

/// The oldest member of the bucket for `f`, if it has one.
pub(crate) fn bucket_front(bins: &HashMap<usize, LinkedHashSet<usize>>, f: usize) -> (r: Option<usize>)
    ensures
        bucket_of(bins@, f).len() == 0 ==> r is None,
        bucket_of(bins@, f).len() > 0 ==> r == Some(bucket_of(bins@, f)[0]),
{
    match bins.get(&f) {
        Some(s) => set_front(s),
        None => None,
    }
}

/// Whether the bucket for `f` has no members.
pub(crate) fn bucket_is_empty(bins: &HashMap<usize, LinkedHashSet<usize>>, f: usize) -> (r: bool)
    ensures
        r == (bucket_of(bins@, f).len() == 0),
{
    match bins.get(&f) {
        Some(s) => set_is_empty(s),
        None => true,
    }
}

} // verus!
