//! Trusted declarations around `std::task::Waker`.
//!
//! A waker is the opaque continuation handle the async adapter hands
//! in at registration and poll time. The core only ever clones it,
//! compares it with `will_wake`, and notifies it with `wake_by_ref`;
//! each of those calls goes through exactly one wrapper here.

use std::task::Waker;
use vstd::prelude::*;

verus! {

#[verifier::external_type_specification]
#[verifier::external_body]
pub struct ExWaker(Waker);

/// Relies on `Waker::clone`: returns a waker that awakes the same
/// task as `w`. Which abstract value the clone is cannot be promised,
/// so nothing is stated of the result.
#[verifier::external_body]
pub(crate) fn clone_waker(w: &Waker) -> Waker {
    w.clone()
}

/// Relies on `Waker::will_wake`: a best-effort check whether `a` and
/// `b` would awake the same task. The documentation allows false
/// negatives, so nothing is stated of the result.
#[verifier::external_body]
pub(crate) fn wakers_will_wake(a: &Waker, b: &Waker) -> bool {
    a.will_wake(b)
}

/// Relies on `Waker::wake_by_ref`: notifies the waker's task without
/// consuming the handle. A pure side effect on the async runtime;
/// nothing is stated of it.
#[verifier::external_body]
pub(crate) fn notify_waker(w: &Waker) {
    w.wake_by_ref()
}

} // verus!
