//! Trusted declarations around `smallvec::SmallVec`.
//!
//! A bucket is the collection of timer ids scheduled at one wheel
//! position. Buckets are expected to stay small, so they are kept in
//! a `smallvec::SmallVec` with inline room for a few ids. The
//! verifier cannot read `SmallVec`'s own declaration, so the
//! collection sits in a private field of an opaque struct;
//! `bucket_ids` names what it holds, and the wrappers state how each
//! call moves those contents.

use vstd::prelude::*;

verus! {

/// A bucket of timer ids, in insertion order.
///
/// Opaque to the verifier: the field holds the outside collection.
#[verifier::external_body]
pub struct Bucket {
    inner: smallvec::SmallVec<[usize; 8]>,
}

/// The timer ids a bucket holds, front to back.
pub uninterp spec fn bucket_ids(b: Bucket) -> Seq<usize>;

/// Relies on `SmallVec::new`: constructs an empty vector.
#[verifier::external_body]
pub(crate) fn bucket_new() -> (b: Bucket)
    ensures
        bucket_ids(b) == Seq::<usize>::empty(),
{
    Bucket { inner: smallvec::SmallVec::new() }
}

/// Relies on `SmallVec::push`: appends one item at the back.
#[verifier::external_body]
pub(crate) fn bucket_push(b: &mut Bucket, id: usize)
    ensures
        bucket_ids(*final(b)) == bucket_ids(*old(b)).push(id),
{
    b.inner.push(id)
}

/// Relies on `SmallVec::drain` over the full range: removes every
/// item, front to back, leaving the vector empty.
#[verifier::external_body]
pub(crate) fn bucket_drain(b: &mut Bucket) -> (ids: Vec<usize>)
    ensures
        ids@ == bucket_ids(*old(b)),
        bucket_ids(*final(b)) == Seq::<usize>::empty(),
{
    b.inner.drain(..).collect()
}

} // verus!
