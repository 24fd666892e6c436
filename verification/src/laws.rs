//! Laws of the timer core, stated over the wheel model and proved
//! from the contracts of the operations.
//!
//! Each law here is a public proof function; its statement is what
//! the library promises across calls, beyond the per-call contracts.

use crate::bits::bit16;
use crate::counting::{lemma_seq_count_contains, seq_count};
use crate::storage::{
    lemma_fire_list_frame, lemma_fire_list_once, slot_log_ok, Slot, StorageModel,
};
use crate::wheel::{
    lemma_advance_shift, lemma_drain_bucket_ids, lemma_drain_wf, lemma_scan_props,
    lemma_single_step_wf, scan_from, WheelModel, H_BUCKETS, MS_BUCKETS, MS_TICK, S_BUCKETS,
};
use std::task::Waker;
use vstd::arithmetic::div_mod::lemma_add_mod_noop_right;
use vstd::prelude::*;

verus! {

/// Uniqueness: a registered timer that has neither been reclaimed
/// nor fired sits in exactly one bucket across every level; any
/// other id sits in none.
pub proof fn lemma_live_timer_in_one_bucket(m: WheelModel, id: usize)
    requires
        m.wf(),
    ensures
        ((id as int) < m.slots.len() && (m.slots[id as int] is Waiting || m.slots[id as int]
            is Cancelled)) ==> m.appearances(id) == 1,
        !((id as int) < m.slots.len() && (m.slots[id as int] is Waiting || m.slots[id as int]
            is Cancelled)) ==> m.appearances(id) == 0,
{
    assert(m.appearances(id) == m.expected_count(id));
}

/// At-most-once fire: no slot's continuation is ever notified more
/// than once in its lifetime, and a slot that reached `Done` was
/// notified exactly once.
pub proof fn lemma_at_most_once_fire(m: WheelModel, id: int)
    requires
        m.wf(),
        0 <= id < m.slots.len(),
    ensures
        m.fired[id].len() <= 1,
        m.slots[id] is Done ==> m.fired[id].len() == 1,
        m.slots[id] is Waiting || m.slots[id] is Cancelled ==> m.fired[id].len() == 0,
{
    assert(slot_log_ok(m.slots[id], m.fired[id]));
}

/// One tick step keeps a cancelled (or already reclaimed) slot
/// unnotified: its log stays empty and it never returns to a state
/// from which it could fire.
proof fn lemma_step_keeps_cancelled_silent(m: WheelModel, id: usize)
    requires
        m.wf(),
        (id as int) < m.slots.len(),
        m.slots[id as int] is Cancelled || m.slots[id as int] is Free,
        m.fired[id as int].len() == 0,
    ensures
        m.spec_single_step().wf(),
        m.spec_single_step().slots.len() == m.slots.len(),
        m.spec_single_step().slots[id as int] is Cancelled || m.spec_single_step().slots[id
            as int] is Free,
        m.spec_single_step().fired[id as int].len() == 0,
{
    lemma_single_step_wf(m);
    lemma_drain_wf(m);
    if bit16(m.ms_bits, m.ms_cur) {
        let ids = m.ms[m.ms_cur];
        lemma_drain_bucket_ids(m);
        assert forall|k: int| 0 <= k < ids.len() implies (#[trigger] ids[k])
            < m.slots.len() by {}
        if seq_count(ids, id) == 0 {
            lemma_fire_list_frame(m.storage(), ids, id);
        } else {
            lemma_seq_count_contains(ids, id);
            let k = choose|k: int| 0 <= k < ids.len() && ids[k] == id;
            assert(seq_count(ids, ids[k]) == 1);
            lemma_fire_list_once(m.storage(), ids, id);
        }
    }
}

/// No fire after cancel: once a timer is cancelled, no number of
/// tick steps ever notifies its continuation -- its notification log
/// stays empty until (and through) reclamation.
pub proof fn lemma_cancelled_never_notified(m: WheelModel, id: usize, k: nat)
    requires
        m.wf(),
        (id as int) < m.slots.len(),
        m.slots[id as int] is Cancelled,
    ensures
        m.spec_advance(k).wf(),
        (id as int) < m.spec_advance(k).slots.len(),
        m.spec_advance(k).fired[id as int].len() == 0,
        m.spec_advance(k).slots[id as int] is Cancelled || m.spec_advance(k).slots[id as int]
            is Free,
{
    assert(slot_log_ok(m.slots[id as int], m.fired[id as int]));
    lemma_cancelled_stays_silent(m, id, k);
}

/// The inductive core of `lemma_cancelled_never_notified`.
proof fn lemma_cancelled_stays_silent(m: WheelModel, id: usize, k: nat)
    requires
        m.wf(),
        (id as int) < m.slots.len(),
        m.slots[id as int] is Cancelled || m.slots[id as int] is Free,
        m.fired[id as int].len() == 0,
    ensures
        m.spec_advance(k).wf(),
        m.spec_advance(k).slots.len() == m.slots.len(),
        m.spec_advance(k).fired[id as int].len() == 0,
        m.spec_advance(k).slots[id as int] is Cancelled || m.spec_advance(k).slots[id as int]
            is Free,
    decreases k,
{
    if k > 0 {
        lemma_cancelled_stays_silent(m, id, (k - 1) as nat);
        lemma_step_keeps_cancelled_silent(m.spec_advance((k - 1) as nat), id);
    }
}

/// Idempotent drop: dropping a timer twice is the same as dropping
/// it once, whatever state the slot was in.
pub proof fn lemma_drop_idempotent(st: StorageModel, id: int)
    requires
        0 <= id < st.slots.len(),
    ensures
        st.spec_drop(id).spec_drop(id) == st.spec_drop(id),
{
    if st.slots[id] is Waiting {
        assert(st.spec_drop(id).slots[id] is Cancelled);
    } else if st.slots[id] is Done {
        assert(st.spec_drop(id).slots[id] is Free);
    }
}

/// Poll after fire: the tick step that drains the bucket holding a
/// waiting timer leaves its slot `Done` with its continuation
/// notified exactly once; a poll of a `Done` slot reports ready and
/// reclaims it (that is `poll`'s own contract).
pub proof fn lemma_current_bucket_fires(m: WheelModel, id: usize)
    requires
        m.wf(),
        (id as int) < m.slots.len(),
        m.slots[id as int] is Waiting,
        seq_count(m.ms[m.ms_cur], id) >= 1,
    ensures
        m.spec_single_step().wf(),
        (id as int) < m.spec_single_step().slots.len(),
        m.spec_single_step().slots[id as int] is Done,
        m.spec_single_step().fired[id as int].len() == 1,
{
    lemma_single_step_wf(m);
    lemma_drain_wf(m);
    let ids = m.ms[m.ms_cur];
    if ids.len() == 0 {
        assert(seq_count(ids, id) == 0);
    }
    assert(ids.len() != 0);
    assert(bit16(m.ms_bits, m.ms_cur));
    lemma_drain_bucket_ids(m);
    assert forall|k: int| 0 <= k < ids.len() implies (#[trigger] ids[k]) < m.slots.len() by {}
    lemma_seq_count_contains(ids, id);
    let k = choose|k: int| 0 <= k < ids.len() && ids[k] == id;
    assert(seq_count(ids, ids[k]) == 1);
    lemma_fire_list_once(m.storage(), ids, id);
    assert(slot_log_ok(m.slots[id as int], m.fired[id as int]));
}

/// Waker update: after a poll replaced the stored continuation of a
/// waiting timer, the firing notifies exactly the replacement --
/// once, and nothing else.
pub proof fn lemma_replacement_receives_notification(st: StorageModel, id: int, w: Waker)
    requires
        st.wf(),
        0 <= id < st.slots.len(),
        st.slots[id] is Waiting,
    ensures
        st.spec_replace(id, w).spec_wake(id).slots[id] is Done,
        st.spec_replace(id, w).spec_wake(id).fired[id].len() == 1,
        st.spec_replace(id, w).spec_wake(id).fired[id][0] == w,
{
    assert(slot_log_ok(st.slots[id], st.fired[id]));
    assert(st.spec_replace(id, w).slots[id] == Slot::Waiting(w));
}

/// Monotone deadline, tick level, unconditionally: whenever any
/// timer occupies a tick-level bucket `o` positions ahead of the
/// cursor (`o >= 1`), a deadline is reported and it is at most
/// `o` ticks away. The scan can only answer with an earlier or equal
/// position, never a later one.
pub proof fn lemma_deadline_le_tick_timer(m: WheelModel, o: int)
    requires
        m.wf(),
        1 <= o < MS_BUCKETS,
        m.ms[(m.ms_cur + o) % (MS_BUCKETS as int)].len() > 0,
    ensures
        m.spec_next_deadline() matches Some(d) && d <= o * MS_TICK,
{
    let idx = (m.ms_cur + o) % (MS_BUCKETS as int);
    assert(m.ms[idx].len() != 0 ==> bit16(m.ms_bits, idx));
    assert(m.ms_scan()[o]);
    lemma_scan_props(m.ms_scan(), 1);
    let i = scan_from(m.ms_scan(), 1);
    assert(i <= o);
    assert(m.spec_next_deadline() == Some((i * (MS_TICK as int)) as u64));
}

/// One tick step of a wheel whose coarse and coarsest buckets are
/// all empty, and whose current tick bucket is empty, notifies
/// nobody and moves no bucket contents.
proof fn lemma_quiet_step(m: WheelModel)
    requires
        m.ms.len() == MS_BUCKETS,
        m.s.len() == S_BUCKETS,
        m.h.len() == H_BUCKETS,
        0 <= m.ms_cur < MS_BUCKETS,
        0 <= m.s_cur < S_BUCKETS,
        0 <= m.h_cur < H_BUCKETS,
        forall|i: int| 0 <= i < S_BUCKETS ==> (#[trigger] m.s[i]).len() == 0,
        forall|i: int| 0 <= i < H_BUCKETS ==> (#[trigger] m.h[i]).len() == 0,
        m.ms[m.ms_cur].len() == 0,
    ensures
        m.spec_single_step().fired == m.fired,
        m.spec_single_step().slots == m.slots,
        m.spec_single_step().ms.len() == MS_BUCKETS,
        m.spec_single_step().s.len() == S_BUCKETS,
        m.spec_single_step().h.len() == H_BUCKETS,
        m.spec_single_step().ms_cur == (m.ms_cur + 1) % (MS_BUCKETS as int),
        0 <= m.spec_single_step().s_cur < S_BUCKETS,
        0 <= m.spec_single_step().h_cur < H_BUCKETS,
        forall|i: int| 0 <= i < S_BUCKETS ==> (#[trigger] m.spec_single_step().s[i]).len() == 0,
        forall|i: int| 0 <= i < H_BUCKETS ==> (#[trigger] m.spec_single_step().h[i]).len() == 0,
        forall|i: int|
            0 <= i < MS_BUCKETS ==> (#[trigger] m.spec_single_step().ms[i]).len() == m.ms[i].len(),
{
    let a = m.spec_drain_ms();
    if bit16(m.ms_bits, m.ms_cur) {
        assert(crate::storage::spec_fire_list(m.storage(), m.ms[m.ms_cur]) == m.storage());
    }
    assert forall|i: int| 0 <= i < MS_BUCKETS implies (#[trigger] a.ms[i]).len()
        == m.ms[i].len() by {}
    let b = WheelModel { ms_cur: (a.ms_cur + 1) % (MS_BUCKETS as int), ..a };
    if b.ms_cur == 0 {
        let c = b.spec_cascade_s();
        assert forall|i: int| 0 <= i < MS_BUCKETS implies (#[trigger] c.ms[i]).len()
            == m.ms[i].len() by {
            assert(b.s[b.s_cur].len() == 0);
        }
        assert forall|i: int| 0 <= i < S_BUCKETS implies (#[trigger] c.s[i]).len() == 0 by {}
        let d = WheelModel { s_cur: (c.s_cur + 1) % (S_BUCKETS as int), ..c };
        if d.s_cur == 0 {
            let e = d.spec_cascade_h();
            assert forall|i: int| 0 <= i < S_BUCKETS implies (#[trigger] e.s[i]).len() == 0 by {
                assert(d.h[d.h_cur].len() == 0);
                assert(d.s[d.s_cur].len() == 0);
            }
            assert forall|i: int| 0 <= i < H_BUCKETS implies (#[trigger] e.h[i]).len() == 0 by {}
        }
    }
}

/// Any number of quiet steps (each draining an empty bucket, with
/// the coarse and coarsest levels empty) notifies nobody.
proof fn lemma_quiet_advance(m: WheelModel, k: nat)
    requires
        m.ms.len() == MS_BUCKETS,
        m.s.len() == S_BUCKETS,
        m.h.len() == H_BUCKETS,
        0 <= m.ms_cur < MS_BUCKETS,
        0 <= m.s_cur < S_BUCKETS,
        0 <= m.h_cur < H_BUCKETS,
        forall|i: int| 0 <= i < S_BUCKETS ==> (#[trigger] m.s[i]).len() == 0,
        forall|i: int| 0 <= i < H_BUCKETS ==> (#[trigger] m.h[i]).len() == 0,
        forall|o: int|
            0 <= o < k ==> (#[trigger] m.ms[(m.ms_cur + o) % (MS_BUCKETS as int)]).len() == 0,
    ensures
        m.spec_advance(k).fired == m.fired,
        m.spec_advance(k).slots == m.slots,
    decreases k,
{
    if k > 0 {
        lemma_advance_shift(m, k);
        assert(m.ms[(m.ms_cur + 0) % (MS_BUCKETS as int)].len() == 0);
        assert((m.ms_cur + 0) % (MS_BUCKETS as int) == m.ms_cur);
        lemma_quiet_step(m);
        let m1 = m.spec_single_step();
        assert forall|o: int|
            0 <= o < k - 1 implies (#[trigger] m1.ms[(m1.ms_cur + o) % (MS_BUCKETS
            as int)]).len() == 0 by {
            lemma_add_mod_noop_right(o, m.ms_cur + 1, MS_BUCKETS as int);
            assert((o + (m.ms_cur + 1) % (MS_BUCKETS as int)) % (MS_BUCKETS as int) == (o
                + m.ms_cur + 1) % (MS_BUCKETS as int));
            assert((m1.ms_cur + o) % (MS_BUCKETS as int) == (m.ms_cur + (o + 1)) % (MS_BUCKETS
                as int));
            assert(m.ms[(m.ms_cur + (o + 1)) % (MS_BUCKETS as int)].len() == 0);
            assert(m1.ms[(m1.ms_cur + o) % (MS_BUCKETS as int)].len() == m.ms[(m1.ms_cur + o) % (
            MS_BUCKETS as int)].len());
        }
        lemma_quiet_advance(m1, (k - 1) as nat);
    }
}

/// Monotone deadline, on the wheels where the scan's answer is a
/// true bound: while the coarse and coarsest levels hold no timers
/// and the current tick bucket is empty, advancing the wheel by any
/// number of steps whose total span does not exceed the reported
/// deadline notifies nobody. (A wheel with occupants in a coarser
/// level can fire them earlier than the scan formula suggests, once
/// a cascade re-buckets them; there the bound does not hold.)
pub proof fn lemma_next_deadline_no_early_fire(m: WheelModel, k: nat)
    requires
        m.wf(),
        forall|i: int| 0 <= i < S_BUCKETS ==> (#[trigger] m.s[i]).len() == 0,
        forall|i: int| 0 <= i < H_BUCKETS ==> (#[trigger] m.h[i]).len() == 0,
        m.ms[m.ms_cur].len() == 0,
        m.spec_next_deadline() matches Some(d) ==> k * (MS_TICK as nat) <= d,
    ensures
        m.spec_advance(k).fired == m.fired,
        m.spec_advance(k).slots == m.slots,
{
    lemma_scan_props(m.ms_scan(), 1);
    let imin = scan_from(m.ms_scan(), 1);
    assert forall|o: int|
        0 <= o < k implies (#[trigger] m.ms[(m.ms_cur + o) % (MS_BUCKETS as int)]).len()
        == 0 by {
        if imin < MS_BUCKETS {
            assert(m.spec_next_deadline() == Some((imin * (MS_TICK as int)) as u64));
            assert(k <= imin);
            if o != 0 {
                assert(!m.ms_scan()[o]);
                assert(!bit16(m.ms_bits, (m.ms_cur + o) % (MS_BUCKETS as int)));
                let idx = (m.ms_cur + o) % (MS_BUCKETS as int);
                assert(m.ms[idx].len() != 0 ==> bit16(m.ms_bits, idx));
            } else {
                assert((m.ms_cur + 0) % (MS_BUCKETS as int) == m.ms_cur);
            }
        } else {
            let idx = (m.ms_cur + o) % (MS_BUCKETS as int);
            if idx == m.ms_cur {
                assert(m.ms[idx].len() == 0);
            } else {
                let o2: int = if idx >= m.ms_cur {
                    idx - m.ms_cur
                } else {
                    idx + (MS_BUCKETS as int) - m.ms_cur
                };
                assert(1 <= o2 < MS_BUCKETS);
                assert((m.ms_cur + o2) % (MS_BUCKETS as int) == idx);
                assert(!m.ms_scan()[o2]);
                assert(!bit16(m.ms_bits, idx));
                assert(m.ms[idx].len() != 0 ==> bit16(m.ms_bits, idx));
            }
        }
    }
    lemma_quiet_advance(m, k);
}

} // verus!
