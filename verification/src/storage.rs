//! Timer slot storage.
//!
//! Each registered timer owns one slot, identified by a dense index
//! that stays stable until the slot is reclaimed. A slot walks the
//! lifecycle `Waiting -> Done` (the driver fired it) or
//! `Waiting -> Cancelled` (the user abandoned it) and is reclaimed to
//! `Free` exactly once.
//!
//! Alongside the slots a ghost log records, per slot, every
//! continuation notified on behalf of the current occupant. The
//! storage invariant ties the log to the lifecycle state: a `Done`
//! slot was notified exactly once, a `Waiting` or `Cancelled` slot
//! never.

use crate::counting::{lemma_seq_count_head, seq_count};
use crate::waker::{clone_waker, notify_waker, wakers_will_wake};
use std::task::Waker;
use vstd::prelude::*;

verus! {

/// The lifecycle state of one timer slot.
pub enum Slot {
    /// No timer occupies the slot; it may be reused.
    Free,
    /// A continuation is held; the timer has neither fired nor been
    /// cancelled.
    Waiting(Waker),
    /// The timer fired and its continuation was notified; the slot
    /// awaits a final poll or drop.
    Done,
    /// The user abandoned the timer before it fired; the slot awaits
    /// reclamation by the driver.
    Cancelled,
}

/// What one poll of a timer reports.
#[derive(Clone, Copy, Debug, PartialEq, Eq, Structural)]
pub enum PollStatus {
    /// The timer has not fired yet.
    Pending,
    /// The timer has fired or was cancelled.
    Ready,
}

/// The mathematical content of the storage: the slot states and, per
/// slot, the log of continuations notified for the current occupant.
pub ghost struct StorageModel {
    pub slots: Seq<Slot>,
    pub fired: Seq<Seq<Waker>>,
}

/// How a slot's lifecycle state constrains its notification log.
pub open spec fn slot_log_ok(s: Slot, log: Seq<Waker>) -> bool {
    match s {
        Slot::Free => log.len() <= 1,
        Slot::Waiting(_) => log.len() == 0,
        Slot::Done => log.len() == 1,
        Slot::Cancelled => log.len() == 0,
    }
}

impl StorageModel {
    /// The storage invariant: one log per slot, each consistent with
    /// the slot's state. In particular no occupant is ever notified
    /// more than once.
    pub open spec fn wf(self) -> bool {
        &&& self.fired.len() == self.slots.len()
        &&& forall|i: int|
            0 <= i < self.slots.len() ==> #[trigger] slot_log_ok(self.slots[i], self.fired[i])
    }

    /// The slot is allocated to some timer.
    pub open spec fn live(self, id: int) -> bool {
        0 <= id < self.slots.len() && !(self.slots[id] is Free)
    }

    /// Dropping a timer: a waiting one becomes cancelled, a fired one
    /// is reclaimed, a cancelled one is left alone.
    pub open spec fn spec_drop(self, id: int) -> StorageModel {
        if self.slots[id] is Waiting {
            StorageModel { slots: self.slots.update(id, Slot::Cancelled), fired: self.fired }
        } else if self.slots[id] is Done {
            StorageModel { slots: self.slots.update(id, Slot::Free), fired: self.fired }
        } else {
            self
        }
    }

    /// Polling replaces the stored continuation of a waiting timer.
    pub open spec fn spec_replace(self, id: int, w: Waker) -> StorageModel {
        StorageModel { slots: self.slots.update(id, Slot::Waiting(w)), fired: self.fired }
    }

    /// Polling a fired timer reclaims its slot.
    pub open spec fn spec_reclaim(self, id: int) -> StorageModel {
        StorageModel { slots: self.slots.update(id, Slot::Free), fired: self.fired }
    }

    /// Firing a timer: a waiting one has its stored continuation
    /// notified, which the log records; a cancelled one is reclaimed
    /// without any notification.
    pub open spec fn spec_wake(self, id: int) -> StorageModel {
        if self.slots[id] is Waiting {
            StorageModel {
                slots: self.slots.update(id, Slot::Done),
                fired: self.fired.update(id, self.fired[id].push(self.slots[id]->Waiting_0)),
            }
        } else if self.slots[id] is Cancelled {
            StorageModel { slots: self.slots.update(id, Slot::Free), fired: self.fired }
        } else {
            self
        }
    }
}

/// The invariant survives any change confined to one slot that keeps
/// that slot's state and log consistent.
proof fn lemma_wf_update(pre: StorageModel, post: StorageModel, id: int)
    requires
        pre.wf(),
        post.slots.len() == pre.slots.len(),
        post.fired.len() == pre.fired.len(),
        forall|j: int|
            0 <= j < pre.slots.len() && j != id ==> (#[trigger] post.slots[j]) == pre.slots[j]
                && post.fired[j] == pre.fired[j],
        0 <= id < pre.slots.len() ==> slot_log_ok(post.slots[id], post.fired[id]),
    ensures
        post.wf(),
{
    assert forall|i: int|
        0 <= i < post.slots.len() implies #[trigger] slot_log_ok(post.slots[i], post.fired[i]) by {
        if i != id {
            assert(post.slots[i] == pre.slots[i]);
            assert(slot_log_ok(pre.slots[i], pre.fired[i]));
        }
    }
}

/// The storage after firing every id of `ids`, front to back: what
/// draining one bucket does to the slots.
pub open spec fn spec_fire_list(st: StorageModel, ids: Seq<usize>) -> StorageModel
    decreases ids.len(),
{
    if ids.len() == 0 {
        st
    } else {
        spec_fire_list(st.spec_wake(ids[0] as int), ids.subrange(1, ids.len() as int))
    }
}

/// Firing one slot preserves the storage invariant.
pub proof fn lemma_wake_wf(st: StorageModel, id: int)
    requires
        st.wf(),
        0 <= id < st.slots.len(),
    ensures
        st.spec_wake(id).wf(),
        st.spec_wake(id).slots.len() == st.slots.len(),
        st.spec_wake(id).fired.len() == st.fired.len(),
{
    assert(slot_log_ok(st.slots[id], st.fired[id]));
    lemma_wf_update(st, st.spec_wake(id), id);
}

/// Firing a whole list preserves the invariant and the lengths.
pub proof fn lemma_fire_list_wf(st: StorageModel, ids: Seq<usize>)
    requires
        st.wf(),
        forall|k: int| 0 <= k < ids.len() ==> (#[trigger] ids[k]) < st.slots.len(),
    ensures
        spec_fire_list(st, ids).wf(),
        spec_fire_list(st, ids).slots.len() == st.slots.len(),
    decreases ids.len(),
{
    if ids.len() > 0 {
        let st1 = st.spec_wake(ids[0] as int);
        lemma_wake_wf(st, ids[0] as int);
        let rest = ids.subrange(1, ids.len() as int);
        assert forall|k: int| 0 <= k < rest.len() implies (#[trigger] rest[k])
            < st1.slots.len() by {
            assert(rest[k] == ids[k + 1]);
        }
        lemma_fire_list_wf(st1, rest);
    }
}

/// A slot whose id the list does not name is untouched by the drain.
pub proof fn lemma_fire_list_frame(st: StorageModel, ids: Seq<usize>, x: usize)
    requires
        forall|k: int| 0 <= k < ids.len() ==> (#[trigger] ids[k]) < st.slots.len(),
        st.fired.len() == st.slots.len(),
        (x as int) < st.slots.len(),
        seq_count(ids, x) == 0,
    ensures
        spec_fire_list(st, ids).slots.len() == st.slots.len(),
        spec_fire_list(st, ids).fired.len() == st.fired.len(),
        spec_fire_list(st, ids).slots[x as int] == st.slots[x as int],
        spec_fire_list(st, ids).fired[x as int] == st.fired[x as int],
    decreases ids.len(),
{
    if ids.len() > 0 {
        lemma_seq_count_head(ids, x);
        let st1 = st.spec_wake(ids[0] as int);
        let rest = ids.subrange(1, ids.len() as int);
        assert forall|k: int| 0 <= k < rest.len() implies (#[trigger] rest[k])
            < st1.slots.len() by {
            assert(rest[k] == ids[k + 1]);
        }
        lemma_fire_list_frame(st1, rest, x);
    }
}

/// A slot whose id the list names exactly once is fired exactly as
/// `spec_wake` says: a waiting one ends done with its continuation
/// logged once, a cancelled one ends free with its log still empty.
pub proof fn lemma_fire_list_once(st: StorageModel, ids: Seq<usize>, x: usize)
    requires
        forall|k: int| 0 <= k < ids.len() ==> (#[trigger] ids[k]) < st.slots.len(),
        st.fired.len() == st.slots.len(),
        (x as int) < st.slots.len(),
        seq_count(ids, x) == 1,
    ensures
        st.slots[x as int] is Waiting ==> spec_fire_list(st, ids).slots[x as int] is Done
            && spec_fire_list(st, ids).fired[x as int] == st.fired[x as int].push(
            st.slots[x as int]->Waiting_0,
        ),
        st.slots[x as int] is Cancelled ==> spec_fire_list(st, ids).slots[x as int] is Free
            && spec_fire_list(st, ids).fired[x as int] == st.fired[x as int],
        !(st.slots[x as int] is Waiting || st.slots[x as int] is Cancelled) ==> spec_fire_list(
            st,
            ids,
        ).slots[x as int] == st.slots[x as int] && spec_fire_list(st, ids).fired[x as int]
            == st.fired[x as int],
    decreases ids.len(),
{
    assert(ids.len() > 0);
    lemma_seq_count_head(ids, x);
    let st1 = st.spec_wake(ids[0] as int);
    let rest = ids.subrange(1, ids.len() as int);
    assert forall|k: int| 0 <= k < rest.len() implies (#[trigger] rest[k]) < st1.slots.len() by {
        assert(rest[k] == ids[k + 1]);
    }
    if ids[0] == x {
        lemma_fire_list_frame(st1, rest, x);
    } else {
        lemma_fire_list_once(st1, rest, x);
    }
}

/// Firing a longer list is firing the shorter list, then the last id.
pub proof fn lemma_fire_list_snoc(st: StorageModel, ids: Seq<usize>, y: usize)
    ensures
        spec_fire_list(st, ids.push(y)) == spec_fire_list(st, ids).spec_wake(y as int),
    decreases ids.len(),
{
    let p = ids.push(y);
    if ids.len() == 0 {
        assert(p[0] == y);
        assert(p.subrange(1, p.len() as int) =~= Seq::<usize>::empty());
        assert(spec_fire_list(st.spec_wake(y as int), p.subrange(1, p.len() as int))
            == st.spec_wake(y as int));
    } else {
        assert(p[0] == ids[0]);
        assert(p.subrange(1, p.len() as int) =~= ids.subrange(1, ids.len() as int).push(y));
        lemma_fire_list_snoc(st.spec_wake(ids[0] as int), ids.subrange(1, ids.len() as int), y);
    }
}

/// Slot storage for timers, keyed by a dense small-integer id.
pub struct TimerStorage {
    slots: Vec<Slot>,
    fired: Ghost<Seq<Seq<Waker>>>,
}

impl View for TimerStorage {
    type V = StorageModel;

    closed spec fn view(&self) -> StorageModel {
        StorageModel { slots: self.slots@, fired: self.fired@ }
    }
}

impl TimerStorage {
    /// An empty storage with no slots.
    pub fn new() -> (s: TimerStorage)
        ensures
            s@.wf(),
            s@.slots.len() == 0,
    {
        TimerStorage { slots: Vec::new(), fired: Ghost(Seq::empty()) }
    }

    /// The index of the first free slot, or the slot count when every
    /// slot is occupied.
    fn find_free(&self) -> (r: usize)
        ensures
            r <= self@.slots.len(),
            forall|j: int| 0 <= j < r ==> !(#[trigger] self@.slots[j] is Free),
            r < self@.slots.len() ==> self@.slots[r as int] is Free,
    {
        let n = self.slots.len();
        let mut i: usize = 0;
        while i < n
            invariant
                i <= n,
                n == self@.slots.len(),
                forall|j: int| 0 <= j < i ==> !(#[trigger] self@.slots[j] is Free),
            decreases n - i,
        {
            let s = &self.slots[i];
            match s {
                Slot::Free => {
                    return i;
                },
                _ => {},
            }
            i = i + 1;
        }
        n
    }

    /// Allocates the first free slot (appending a fresh one if none
    /// is free) to a new waiting timer holding a clone of `waker`,
    /// and returns its id.
    pub fn create(&mut self, waker: &Waker) -> (id: usize)
        requires
            old(self)@.wf(),
        ensures
            final(self)@.wf(),
            id as int <= old(self)@.slots.len(),
            forall|j: int| 0 <= j < id ==> !(#[trigger] old(self)@.slots[j] is Free),
            (id as int) < old(self)@.slots.len() ==> old(self)@.slots[id as int] is Free,
            final(self)@.slots.len() == if id as int == old(self)@.slots.len() {
                old(self)@.slots.len() + 1
            } else {
                old(self)@.slots.len()
            },
            final(self)@.slots[id as int] is Waiting,
            forall|j: int|
                0 <= j < old(self)@.slots.len() && j != id ==> #[trigger] final(self)@.slots[j]
                    == old(self)@.slots[j],
            final(self)@.fired[id as int] == Seq::<Waker>::empty(),
            forall|j: int|
                0 <= j < old(self)@.slots.len() && j != id ==> #[trigger] final(self)@.fired[j]
                    == old(self)@.fired[j],
    {
        let stored = clone_waker(waker);
        let id = self.find_free();
        if id == self.slots.len() {
            self.slots.push(Slot::Waiting(stored));
            self.fired = Ghost(self.fired@.push(Seq::empty()));
        } else {
            self.slots[id] = Slot::Waiting(stored);
            self.fired = Ghost(self.fired@.update(id as int, Seq::empty()));
        }
        id
    }

    /// Drops (cancels) the timer in slot `id`: a waiting timer is
    /// marked cancelled, a fired one is reclaimed, a cancelled one is
    /// left alone, so repeating the call changes nothing.
    pub fn drop(&mut self, id: usize)
        requires
            old(self)@.wf(),
            old(self)@.live(id as int),
        ensures
            final(self)@.wf(),
            final(self)@ == old(self)@.spec_drop(id as int),
    {
        match &self.slots[id] {
            Slot::Waiting(_) => {
                self.slots[id] = Slot::Cancelled;
            },
            Slot::Done => {
                self.slots[id] = Slot::Free;
            },
            _ => {},
        }
        proof {
            assert(slot_log_ok(old(self)@.slots[id as int], old(self)@.fired[id as int]));
            lemma_wf_update(old(self)@, self@, id as int);
        }
    }

    /// Polls the timer in slot `id`. A waiting timer keeps its stored
    /// continuation if it already wakes the same task as `waker`,
    /// otherwise it stores a clone of `waker`; either way the poll is
    /// pending. A fired timer reports ready and its slot is
    /// reclaimed; a cancelled one reports ready and is left for the
    /// driver to reclaim. No poll notifies anyone.
    pub fn poll(&mut self, id: usize, waker: &Waker) -> (r: PollStatus)
        requires
            old(self)@.wf(),
            old(self)@.live(id as int),
        ensures
            final(self)@.wf(),
            final(self)@.fired == old(self)@.fired,
            old(self)@.slots[id as int] is Waiting ==> {
                &&& r == PollStatus::Pending
                &&& (final(self)@ == old(self)@ || exists|w: Waker|
                    final(self)@ == old(self)@.spec_replace(id as int, w))
                &&& final(self)@.slots[id as int] is Waiting
            },
            old(self)@.slots[id as int] is Done ==> r == PollStatus::Ready && final(self)@
                == old(self)@.spec_reclaim(id as int),
            old(self)@.slots[id as int] is Cancelled ==> r == PollStatus::Ready && final(self)@
                == old(self)@,
    {
        match &self.slots[id] {
            Slot::Waiting(stored) => {
                let same = wakers_will_wake(stored, waker);
                if !same {
                    let nw = clone_waker(waker);
                    self.slots[id] = Slot::Waiting(nw);
                    proof {
                        let m = StorageModel { slots: self.slots@, fired: self.fired@ };
                        assert(m == old(self)@.spec_replace(id as int, nw));
                    }
                }
                proof {
                    assert(slot_log_ok(old(self)@.slots[id as int], old(self)@.fired[id as int]));
                    lemma_wf_update(old(self)@, self@, id as int);
                }
                PollStatus::Pending
            },
            Slot::Done => {
                self.slots[id] = Slot::Free;
                proof {
                    assert(slot_log_ok(old(self)@.slots[id as int], old(self)@.fired[id as int]));
                    lemma_wf_update(old(self)@, self@, id as int);
                }
                PollStatus::Ready
            },
            _ => PollStatus::Ready,
        }
    }

    /// Fires the timer in slot `id`, on behalf of the driver draining
    /// a due bucket: a waiting timer's stored continuation is
    /// notified (once; the log records it) and the slot moves to
    /// done; a cancelled timer is reclaimed without notification.
    pub(crate) fn wake(&mut self, id: usize)
        requires
            old(self)@.wf(),
            0 <= id < old(self)@.slots.len(),
            old(self)@.slots[id as int] is Waiting || old(self)@.slots[id as int] is Cancelled,
        ensures
            final(self)@.wf(),
            final(self)@ == old(self)@.spec_wake(id as int),
    {
        let ghost prev = self@.slots[id as int];
        let mut is_waiting = false;
        match &self.slots[id] {
            Slot::Waiting(w) => {
                notify_waker(w);
                is_waiting = true;
            },
            _ => {},
        }
        if is_waiting {
            self.slots[id] = Slot::Done;
            self.fired = Ghost(
                self.fired@.update(id as int, self.fired@[id as int].push(prev->Waiting_0)),
            );
        } else {
            self.slots[id] = Slot::Free;
        }
        proof {
            assert(slot_log_ok(old(self)@.slots[id as int], old(self)@.fired[id as int]));
            lemma_wf_update(old(self)@, self@, id as int);
        }
    }

    /// How many slots exist (free ones included).
    pub fn slot_count(&self) -> (n: usize)
        ensures
            n == self@.slots.len(),
    {
        self.slots.len()
    }
}

} // verus!
