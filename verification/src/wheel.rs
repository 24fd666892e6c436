//! The timing wheel.
//!
//! Three levels of buckets hold timer ids: ten 10 ms buckets, sixty
//! 1 s buckets and twenty-four 1 h buckets. A registration is placed
//! by its duration; the driver advances a rotating cursor per level,
//! drains the due tick-level bucket, and cascades a higher-level
//! bucket down whenever the cursor below wraps around.
//!
//! The wheel's model ties the bucket contents to the slot storage:
//! every waiting or cancelled timer id sits in exactly one bucket
//! across all levels, and every occupied bucket has its occupancy bit
//! set (bits may go stale the other way, which only makes
//! `next_deadline` conservative).

use crate::bits::{
    bit16, bit32, bit64, clear16, clear32, clear64, lemma_clear16_bit, lemma_clear32_bit,
    lemma_clear64_bit, lemma_set16_bit, lemma_set32_bit, lemma_set64_bit, set16, set32, set64,
    Bitset,
};
use crate::bucket::{bucket_drain, bucket_ids, bucket_new, bucket_push, Bucket};
use crate::clock::{duration_between, duration_to_millis, instant_now};
use crate::counting::{
    lemma_level_count_all_empty, lemma_level_count_member, lemma_level_count_update,
    lemma_seq_count_concat, lemma_seq_count_contains, lemma_seq_count_index, lemma_seq_count_push,
    level_count, seq_count,
};
use crate::storage::{
    lemma_fire_list_frame, lemma_fire_list_once, lemma_fire_list_snoc, lemma_fire_list_wf,
    spec_fire_list, PollStatus, Slot, StorageModel, TimerStorage,
};
use std::task::Waker;
use std::time::Instant;
use vstd::prelude::*;

verus! {

/// A registration of a day or more is refused.
#[derive(Debug, Clone, Copy, PartialEq, Eq, Structural)]
pub struct DurationTooLong;

/// Width of one tick-level bucket, in milliseconds.
pub const MS_TICK: u64 = 10;

/// Number of tick-level buckets.
pub const MS_BUCKETS: usize = 10;

/// Number of coarse (second) level buckets.
pub const S_BUCKETS: usize = 60;

/// Number of coarsest (hour) level buckets.
pub const H_BUCKETS: usize = 24;

/// Span of the tick level: durations below this go there.
pub const MS_SPAN: u64 = 100;

/// Span of the coarse level: durations below this (and not below the
/// tick span) go there.
pub const S_SPAN: u64 = 60_000;

/// The longest accepted duration: one day, exclusive.
pub const MAX_DURATION_MS: u64 = 86_400_000;

/// The smaller of two integers.
pub open spec fn cap_at(a: int, b: int) -> int {
    if a < b {
        a
    } else {
        b
    }
}

/// The mathematical content of the wheel: the storage model, the
/// bucket contents per level, the occupancy words and the cursors.
pub ghost struct WheelModel {
    pub slots: Seq<Slot>,
    pub fired: Seq<Seq<Waker>>,
    pub ms: Seq<Seq<usize>>,
    pub s: Seq<Seq<usize>>,
    pub h: Seq<Seq<usize>>,
    pub ms_bits: u16,
    pub s_bits: u64,
    pub h_bits: u32,
    pub ms_cur: int,
    pub s_cur: int,
    pub h_cur: int,
}

impl WheelModel {
    /// The storage part of the model.
    pub open spec fn storage(self) -> StorageModel {
        StorageModel { slots: self.slots, fired: self.fired }
    }

    /// How often id `x` occurs across every bucket of every level.
    pub open spec fn appearances(self, x: usize) -> nat {
        level_count(self.ms, x) + level_count(self.s, x) + level_count(self.h, x)
    }

    /// How often id `x` must occur: exactly once while its slot waits
    /// or is cancelled, never otherwise.
    pub open spec fn expected_count(self, x: usize) -> nat {
        if (x as int) < self.slots.len() && (self.slots[x as int] is Waiting || self.slots[x
            as int] is Cancelled) {
            1nat
        } else {
            0nat
        }
    }

    /// Every id occurs in the buckets exactly as often as its slot
    /// state demands.
    pub open spec fn counts_ok(self) -> bool {
        forall|x: usize| #[trigger] self.appearances(x) == self.expected_count(x)
    }

    /// Every non-empty bucket has its occupancy bit set. (A set bit
    /// over an empty bucket is allowed: bits go stale when a bucket
    /// is drained by a cascade or a cancellation is reclaimed.)
    pub open spec fn occupancy_ok(self) -> bool {
        &&& forall|i: int|
            0 <= i < MS_BUCKETS ==> ((#[trigger] self.ms[i]).len() != 0 ==> bit16(self.ms_bits, i))
        &&& forall|i: int|
            0 <= i < S_BUCKETS ==> ((#[trigger] self.s[i]).len() != 0 ==> bit64(self.s_bits, i))
        &&& forall|i: int|
            0 <= i < H_BUCKETS ==> ((#[trigger] self.h[i]).len() != 0 ==> bit32(self.h_bits, i))
    }

    /// The wheel invariant.
    pub open spec fn wf(self) -> bool {
        &&& self.storage().wf()
        &&& self.ms.len() == MS_BUCKETS
        &&& self.s.len() == S_BUCKETS
        &&& self.h.len() == H_BUCKETS
        &&& 0 <= self.ms_cur < MS_BUCKETS
        &&& 0 <= self.s_cur < S_BUCKETS
        &&& 0 <= self.h_cur < H_BUCKETS
        &&& self.counts_ok()
        &&& self.occupancy_ok()
    }

    /// The model of a freshly created wheel.
    pub open spec fn initial() -> WheelModel {
        WheelModel {
            slots: Seq::empty(),
            fired: Seq::empty(),
            ms: Seq::new(MS_BUCKETS as nat, |i: int| Seq::empty()),
            s: Seq::new(S_BUCKETS as nat, |i: int| Seq::empty()),
            h: Seq::new(H_BUCKETS as nat, |i: int| Seq::empty()),
            ms_bits: 0,
            s_bits: 0,
            h_bits: 0,
            ms_cur: 0,
            s_cur: 0,
            h_cur: 0,
        }
    }

    /// The tick-level bucket a duration is placed in.
    pub open spec fn spec_ms_bucket(self, ms: u64) -> int {
        (self.ms_cur + cap_at(ms as int / MS_TICK as int, MS_BUCKETS - 1)) % (MS_BUCKETS as int)
    }

    /// The coarse-level bucket a duration is placed in.
    pub open spec fn spec_s_bucket(self, ms: u64) -> int {
        (self.s_cur + cap_at(ms as int / 1000, S_BUCKETS - 1)) % (S_BUCKETS as int)
    }

    /// The coarsest-level bucket a duration is placed in.
    pub open spec fn spec_h_bucket(self, ms: u64) -> int {
        (self.h_cur + cap_at(ms as int / 3_600_000, H_BUCKETS - 1)) % (H_BUCKETS as int)
    }

    /// The bucket hierarchy and cursors are untouched.
    pub open spec fn same_buckets(self, post: WheelModel) -> bool {
        &&& post.ms == self.ms
        &&& post.s == self.s
        &&& post.h == self.h
        &&& post.ms_bits == self.ms_bits
        &&& post.s_bits == self.s_bits
        &&& post.h_bits == self.h_bits
        &&& post.ms_cur == self.ms_cur
        &&& post.s_cur == self.s_cur
        &&& post.h_cur == self.h_cur
    }
}

impl WheelModel {
    /// Draining the current tick bucket: if its occupancy bit is set,
    /// clear it, empty the bucket, and fire every id it held, in
    /// order.
    pub open spec fn spec_drain_ms(self) -> WheelModel {
        if bit16(self.ms_bits, self.ms_cur) {
            let st = spec_fire_list(self.storage(), self.ms[self.ms_cur]);
            WheelModel {
                slots: st.slots,
                fired: st.fired,
                ms: self.ms.update(self.ms_cur, Seq::empty()),
                ms_bits: clear16(self.ms_bits, self.ms_cur),
                ..self
            }
        } else {
            self
        }
    }

    /// Coarse cascade: if the current coarse bucket's bit is set,
    /// move its contents into the current tick bucket and mark that
    /// bucket occupied.
    pub open spec fn spec_cascade_s(self) -> WheelModel {
        if bit64(self.s_bits, self.s_cur) {
            WheelModel {
                ms: self.ms.update(self.ms_cur, self.ms[self.ms_cur] + self.s[self.s_cur]),
                ms_bits: set16(self.ms_bits, self.ms_cur),
                s: self.s.update(self.s_cur, Seq::empty()),
                s_bits: clear64(self.s_bits, self.s_cur),
                ..self
            }
        } else {
            self
        }
    }

    /// Coarsest cascade: if the current coarsest bucket's bit is set,
    /// move its contents into the current coarse bucket and mark that
    /// bucket occupied.
    pub open spec fn spec_cascade_h(self) -> WheelModel {
        if bit32(self.h_bits, self.h_cur) {
            WheelModel {
                s: self.s.update(self.s_cur, self.s[self.s_cur] + self.h[self.h_cur]),
                s_bits: set64(self.s_bits, self.s_cur),
                h: self.h.update(self.h_cur, Seq::empty()),
                h_bits: clear32(self.h_bits, self.h_cur),
                ..self
            }
        } else {
            self
        }
    }

    /// One tick step: drain the current tick bucket, advance the tick
    /// cursor, and cascade one level down each time a cursor wraps to
    /// zero.
    pub open spec fn spec_single_step(self) -> WheelModel {
        let a = self.spec_drain_ms();
        let b = WheelModel { ms_cur: (a.ms_cur + 1) % (MS_BUCKETS as int), ..a };
        if b.ms_cur == 0 {
            let c = b.spec_cascade_s();
            let d = WheelModel { s_cur: (c.s_cur + 1) % (S_BUCKETS as int), ..c };
            if d.s_cur == 0 {
                let e = d.spec_cascade_h();
                WheelModel { h_cur: (e.h_cur + 1) % (H_BUCKETS as int), ..e }
            } else {
                d
            }
        } else {
            b
        }
    }

    /// The wheel after `k` tick steps.
    pub open spec fn spec_advance(self, k: nat) -> WheelModel
        decreases k,
    {
        if k == 0 {
            self
        } else {
            self.spec_advance((k - 1) as nat).spec_single_step()
        }
    }

    /// The tick-level occupancy bits in scan order from the cursor.
    pub open spec fn ms_scan(self) -> Seq<bool> {
        Seq::new(
            MS_BUCKETS as nat,
            |i: int| bit16(self.ms_bits, (self.ms_cur + i) % (MS_BUCKETS as int)),
        )
    }

    /// The coarse-level occupancy bits in scan order from the cursor.
    pub open spec fn s_scan(self) -> Seq<bool> {
        Seq::new(
            S_BUCKETS as nat,
            |i: int| bit64(self.s_bits, (self.s_cur + i) % (S_BUCKETS as int)),
        )
    }

    /// The coarsest-level occupancy bits in scan order from the
    /// cursor.
    pub open spec fn h_scan(self) -> Seq<bool> {
        Seq::new(
            H_BUCKETS as nat,
            |i: int| bit32(self.h_bits, (self.h_cur + i) % (H_BUCKETS as int)),
        )
    }

    /// What `next_deadline` answers: the first occupied position in
    /// scan order, skipping the current tick bucket, turned into a
    /// conservative park time. `None` when no bit at all is found.
    pub open spec fn spec_next_deadline(self) -> Option<u64> {
        let i = scan_from(self.ms_scan(), 1);
        let j = scan_from(self.s_scan(), 0);
        let k = scan_from(self.h_scan(), 0);
        if i < MS_BUCKETS {
            Some((i * (MS_TICK as int)) as u64)
        } else if j < S_BUCKETS {
            Some(((MS_BUCKETS - self.ms_cur) * (MS_TICK as int) + j * 1000) as u64)
        } else if k < H_BUCKETS {
            Some(
                ((MS_BUCKETS - self.ms_cur) * (MS_TICK as int) + (S_BUCKETS - self.s_cur - 1)
                    * 1000 + k * 3_600_000) as u64,
            )
        } else {
            None
        }
    }
}

/// The first index at or after `i` whose entry is true, or the
/// length when there is none.
pub open spec fn scan_from(bs: Seq<bool>, i: int) -> int
    decreases bs.len() - i,
{
    if i < 0 || i >= bs.len() {
        bs.len() as int
    } else if bs[i] {
        i
    } else {
        scan_from(bs, i + 1)
    }
}

/// What a scan result means: nothing is set before it, and it points
/// at a set entry unless it ran off the end.
pub proof fn lemma_scan_props(bs: Seq<bool>, lo: int)
    requires
        0 <= lo <= bs.len(),
    ensures
        lo <= scan_from(bs, lo) <= bs.len(),
        forall|j: int| lo <= j < scan_from(bs, lo) ==> !(#[trigger] bs[j]),
        scan_from(bs, lo) < bs.len() ==> bs[scan_from(bs, lo)],
    decreases bs.len() - lo,
{
    if lo < bs.len() && !bs[lo] {
        lemma_scan_props(bs, lo + 1);
    }
}

proof fn lemma_scan_hit(bs: Seq<bool>, lo: int, i: int)
    requires
        0 <= lo <= i < bs.len(),
        forall|j: int| lo <= j < i ==> !(#[trigger] bs[j]),
        bs[i],
    ensures
        scan_from(bs, lo) == i,
    decreases i - lo,
{
    if lo < i {
        assert(!bs[lo]);
        lemma_scan_hit(bs, lo + 1, i);
    }
}

proof fn lemma_scan_none(bs: Seq<bool>, lo: int)
    requires
        0 <= lo <= bs.len(),
        forall|j: int| lo <= j < bs.len() ==> !(#[trigger] bs[j]),
    ensures
        scan_from(bs, lo) == bs.len(),
    decreases bs.len() - lo,
{
    if lo < bs.len() {
        assert(!bs[lo]);
        lemma_scan_none(bs, lo + 1);
    }
}

/// The invariant survives a change of the cursors alone.
proof fn lemma_wf_cursors(a: WheelModel, b: WheelModel)
    requires
        a.wf(),
        b.slots == a.slots,
        b.fired == a.fired,
        b.ms == a.ms,
        b.s == a.s,
        b.h == a.h,
        b.ms_bits == a.ms_bits,
        b.s_bits == a.s_bits,
        b.h_bits == a.h_bits,
        0 <= b.ms_cur < MS_BUCKETS,
        0 <= b.s_cur < S_BUCKETS,
        0 <= b.h_cur < H_BUCKETS,
    ensures
        b.wf(),
{
    assert forall|x: usize| #[trigger] b.appearances(x) == b.expected_count(x) by {
        assert(a.appearances(x) == a.expected_count(x));
    }
    assert forall|i: int|
        0 <= i < MS_BUCKETS implies ((#[trigger] b.ms[i]).len() != 0 ==> bit16(b.ms_bits, i)) by {
        assert(a.ms[i].len() != 0 ==> bit16(a.ms_bits, i));
    }
    assert forall|i: int|
        0 <= i < S_BUCKETS implies ((#[trigger] b.s[i]).len() != 0 ==> bit64(b.s_bits, i)) by {
        assert(a.s[i].len() != 0 ==> bit64(a.s_bits, i));
    }
    assert forall|i: int|
        0 <= i < H_BUCKETS implies ((#[trigger] b.h[i]).len() != 0 ==> bit32(b.h_bits, i)) by {
        assert(a.h[i].len() != 0 ==> bit32(a.h_bits, i));
    }
}

/// Each id in the current tick bucket is a live waiting-or-cancelled
/// slot and occurs there exactly once: what the invariant guarantees
/// the drain.
pub proof fn lemma_drain_bucket_ids(m: WheelModel)
    requires
        m.wf(),
    ensures
        forall|k: int|
            0 <= k < m.ms[m.ms_cur].len() ==> {
                let x = #[trigger] m.ms[m.ms_cur][k];
                &&& (x as int) < m.slots.len()
                &&& (m.slots[x as int] is Waiting || m.slots[x as int] is Cancelled)
                &&& seq_count(m.ms[m.ms_cur], x) == 1
            },
{
    let ids = m.ms[m.ms_cur];
    assert forall|k: int|
        0 <= k < ids.len() implies {
            let x = #[trigger] ids[k];
            &&& (x as int) < m.slots.len()
            &&& (m.slots[x as int] is Waiting || m.slots[x as int] is Cancelled)
            &&& seq_count(ids, x) == 1
        } by {
        let x = ids[k];
        lemma_seq_count_index(ids, k);
        lemma_level_count_member(m.ms, m.ms_cur, x);
        assert(m.appearances(x) == m.expected_count(x));
    }
}

/// Draining the current tick bucket preserves the invariant: the
/// drained ids leave done or free and are counted in no bucket any
/// more; everyone else is untouched.
pub proof fn lemma_drain_wf(m: WheelModel)
    requires
        m.wf(),
    ensures
        m.spec_drain_ms().wf(),
        m.spec_drain_ms().slots.len() == m.slots.len(),
{
    if bit16(m.ms_bits, m.ms_cur) {
        let ids = m.ms[m.ms_cur];
        let st0 = m.storage();
        let post = m.spec_drain_ms();
        lemma_drain_bucket_ids(m);
        lemma_fire_list_wf(st0, ids);
        assert(post.storage() == spec_fire_list(st0, ids));
        assert forall|x: usize| #[trigger] post.appearances(x) == post.expected_count(x) by {
            assert(m.appearances(x) == m.expected_count(x));
            lemma_level_count_update(m.ms, m.ms_cur, Seq::empty(), x);
            assert(seq_count(Seq::<usize>::empty(), x) == 0);
            if seq_count(ids, x) == 0 {
                if (x as int) < m.slots.len() {
                    lemma_fire_list_frame(st0, ids, x);
                }
            } else {
                lemma_seq_count_contains(ids, x);
                let k = choose|k: int| 0 <= k < ids.len() && ids[k] == x;
                assert(seq_count(ids, ids[k]) == 1);
                lemma_fire_list_once(st0, ids, x);
            }
        }
        assert forall|i2: int|
            0 <= i2 < MS_BUCKETS implies ((#[trigger] post.ms[i2]).len() != 0 ==> bit16(
            post.ms_bits,
            i2,
        )) by {
            lemma_clear16_bit(m.ms_bits, m.ms_cur);
            if i2 != m.ms_cur {
                assert(post.ms[i2] == m.ms[i2]);
                assert(m.ms[i2].len() != 0 ==> bit16(m.ms_bits, i2));
            }
        }
        assert forall|i2: int|
            0 <= i2 < S_BUCKETS implies ((#[trigger] post.s[i2]).len() != 0 ==> bit64(
            post.s_bits,
            i2,
        )) by {
            assert(m.s[i2].len() != 0 ==> bit64(m.s_bits, i2));
        }
        assert forall|i2: int|
            0 <= i2 < H_BUCKETS implies ((#[trigger] post.h[i2]).len() != 0 ==> bit32(
            post.h_bits,
            i2,
        )) by {
            assert(m.h[i2].len() != 0 ==> bit32(m.h_bits, i2));
        }
    }
}

/// The coarse cascade preserves the invariant: every count it takes
/// out of the coarse bucket reappears in the tick bucket.
pub proof fn lemma_cascade_s_wf(m: WheelModel)
    requires
        m.wf(),
    ensures
        m.spec_cascade_s().wf(),
{
    if bit64(m.s_bits, m.s_cur) {
        let post = m.spec_cascade_s();
        assert forall|x: usize| #[trigger] post.appearances(x) == post.expected_count(x) by {
            assert(m.appearances(x) == m.expected_count(x));
            lemma_level_count_update(m.ms, m.ms_cur, m.ms[m.ms_cur] + m.s[m.s_cur], x);
            lemma_seq_count_concat(m.ms[m.ms_cur], m.s[m.s_cur], x);
            lemma_level_count_update(m.s, m.s_cur, Seq::empty(), x);
            assert(seq_count(Seq::<usize>::empty(), x) == 0);
        }
        assert forall|i2: int|
            0 <= i2 < MS_BUCKETS implies ((#[trigger] post.ms[i2]).len() != 0 ==> bit16(
            post.ms_bits,
            i2,
        )) by {
            lemma_set16_bit(m.ms_bits, m.ms_cur);
            if i2 != m.ms_cur {
                assert(post.ms[i2] == m.ms[i2]);
                assert(m.ms[i2].len() != 0 ==> bit16(m.ms_bits, i2));
            }
        }
        assert forall|i2: int|
            0 <= i2 < S_BUCKETS implies ((#[trigger] post.s[i2]).len() != 0 ==> bit64(
            post.s_bits,
            i2,
        )) by {
            lemma_clear64_bit(m.s_bits, m.s_cur);
            if i2 != m.s_cur {
                assert(post.s[i2] == m.s[i2]);
                assert(m.s[i2].len() != 0 ==> bit64(m.s_bits, i2));
            }
        }
        assert forall|i2: int|
            0 <= i2 < H_BUCKETS implies ((#[trigger] post.h[i2]).len() != 0 ==> bit32(
            post.h_bits,
            i2,
        )) by {
            assert(m.h[i2].len() != 0 ==> bit32(m.h_bits, i2));
        }
    }
}

/// The coarsest cascade preserves the invariant in the same way.
pub proof fn lemma_cascade_h_wf(m: WheelModel)
    requires
        m.wf(),
    ensures
        m.spec_cascade_h().wf(),
{
    if bit32(m.h_bits, m.h_cur) {
        let post = m.spec_cascade_h();
        assert forall|x: usize| #[trigger] post.appearances(x) == post.expected_count(x) by {
            assert(m.appearances(x) == m.expected_count(x));
            lemma_level_count_update(m.s, m.s_cur, m.s[m.s_cur] + m.h[m.h_cur], x);
            lemma_seq_count_concat(m.s[m.s_cur], m.h[m.h_cur], x);
            lemma_level_count_update(m.h, m.h_cur, Seq::empty(), x);
            assert(seq_count(Seq::<usize>::empty(), x) == 0);
        }
        assert forall|i2: int|
            0 <= i2 < S_BUCKETS implies ((#[trigger] post.s[i2]).len() != 0 ==> bit64(
            post.s_bits,
            i2,
        )) by {
            lemma_set64_bit(m.s_bits, m.s_cur);
            if i2 != m.s_cur {
                assert(post.s[i2] == m.s[i2]);
                assert(m.s[i2].len() != 0 ==> bit64(m.s_bits, i2));
            }
        }
        assert forall|i2: int|
            0 <= i2 < H_BUCKETS implies ((#[trigger] post.h[i2]).len() != 0 ==> bit32(
            post.h_bits,
            i2,
        )) by {
            lemma_clear32_bit(m.h_bits, m.h_cur);
            if i2 != m.h_cur {
                assert(post.h[i2] == m.h[i2]);
                assert(m.h[i2].len() != 0 ==> bit32(m.h_bits, i2));
            }
        }
        assert forall|i2: int|
            0 <= i2 < MS_BUCKETS implies ((#[trigger] post.ms[i2]).len() != 0 ==> bit16(
            post.ms_bits,
            i2,
        )) by {
            assert(m.ms[i2].len() != 0 ==> bit16(m.ms_bits, i2));
        }
    }
}

/// One tick step preserves the invariant.
pub proof fn lemma_single_step_wf(m: WheelModel)
    requires
        m.wf(),
    ensures
        m.spec_single_step().wf(),
{
    let a = m.spec_drain_ms();
    lemma_drain_wf(m);
    let b = WheelModel { ms_cur: (a.ms_cur + 1) % (MS_BUCKETS as int), ..a };
    lemma_wf_cursors(a, b);
    if b.ms_cur == 0 {
        let c = b.spec_cascade_s();
        lemma_cascade_s_wf(b);
        let d = WheelModel { s_cur: (c.s_cur + 1) % (S_BUCKETS as int), ..c };
        lemma_wf_cursors(c, d);
        if d.s_cur == 0 {
            let e = d.spec_cascade_h();
            lemma_cascade_h_wf(d);
            lemma_wf_cursors(e, WheelModel { h_cur: (e.h_cur + 1) % (H_BUCKETS as int), ..e });
        }
    }
}

/// Any number of tick steps preserves the invariant.
pub proof fn lemma_advance_wf(m: WheelModel, k: nat)
    requires
        m.wf(),
    ensures
        m.spec_advance(k).wf(),
    decreases k,
{
    if k > 0 {
        lemma_advance_wf(m, (k - 1) as nat);
        lemma_single_step_wf(m.spec_advance((k - 1) as nat));
    }
}

/// Stepping `k` times is one step, then `k - 1` more.
pub proof fn lemma_advance_shift(m: WheelModel, k: nat)
    requires
        k >= 1,
    ensures
        m.spec_advance(k) == m.spec_single_step().spec_advance((k - 1) as nat),
    decreases k,
{
    if k == 1 {
        assert(m.spec_advance(0) == m);
        assert(m.spec_single_step().spec_advance(0) == m.spec_single_step());
    } else {
        lemma_advance_shift(m, (k - 1) as nat);
        assert(m.spec_advance(k) == m.spec_advance((k - 1) as nat).spec_single_step());
        assert(m.spec_single_step().spec_advance((k - 1) as nat) == m.spec_single_step()
            .spec_advance((k - 2) as nat).spec_single_step());
    }
}

/// What `register`/`init_timer` promises on success: `id` is the
/// first free slot of the old storage (or a fresh one), now waiting
/// with an empty notification log, and the id was appended to exactly
/// the bucket that the duration selects, whose occupancy bit is now
/// set; everything else is untouched.
pub open spec fn register_post(pre: WheelModel, post: WheelModel, id: usize, dur: u64) -> bool {
    &&& id <= pre.slots.len()
    &&& forall|j: int| 0 <= j < id ==> !((#[trigger] pre.slots[j]) is Free)
    &&& (id as int) < pre.slots.len() ==> pre.slots[id as int] is Free
    &&& post.slots.len() == (if id == pre.slots.len() {
        pre.slots.len() + 1
    } else {
        pre.slots.len()
    })
    &&& post.fired.len() == post.slots.len()
    &&& post.slots[id as int] is Waiting
    &&& post.fired[id as int] == Seq::<Waker>::empty()
    &&& forall|j: int|
        0 <= j < pre.slots.len() && j != id ==> (#[trigger] post.slots[j]) == pre.slots[j]
    &&& forall|j: int|
        0 <= j < pre.slots.len() && j != id ==> (#[trigger] post.fired[j]) == pre.fired[j]
    &&& post.ms_cur == pre.ms_cur
    &&& post.s_cur == pre.s_cur
    &&& post.h_cur == pre.h_cur
    &&& if dur < MS_SPAN {
        let idx = pre.spec_ms_bucket(dur);
        {
            &&& post.ms == pre.ms.update(idx, pre.ms[idx].push(id))
            &&& post.ms_bits == set16(pre.ms_bits, idx)
            &&& post.s == pre.s
            &&& post.h == pre.h
            &&& post.s_bits == pre.s_bits
            &&& post.h_bits == pre.h_bits
        }
    } else if dur < S_SPAN {
        let idx = pre.spec_s_bucket(dur);
        {
            &&& post.s == pre.s.update(idx, pre.s[idx].push(id))
            &&& post.s_bits == set64(pre.s_bits, idx)
            &&& post.ms == pre.ms
            &&& post.h == pre.h
            &&& post.ms_bits == pre.ms_bits
            &&& post.h_bits == pre.h_bits
        }
    } else {
        let idx = pre.spec_h_bucket(dur);
        {
            &&& post.h == pre.h.update(idx, pre.h[idx].push(id))
            &&& post.h_bits == set32(pre.h_bits, idx)
            &&& post.ms == pre.ms
            &&& post.s == pre.s
            &&& post.ms_bits == pre.ms_bits
            &&& post.s_bits == pre.s_bits
        }
    }
}

/// The invariant survives a storage-only change that keeps every
/// slot's liveness class (waiting-or-cancelled versus done-or-free).
proof fn lemma_wf_slots_change(a: WheelModel, b: WheelModel)
    requires
        a.wf(),
        b.storage().wf(),
        a.same_buckets(b),
        b.slots.len() == a.slots.len(),
        forall|j: int|
            0 <= j < a.slots.len() ==> ((#[trigger] b.slots[j]) is Waiting || b.slots[j]
                is Cancelled) == (a.slots[j] is Waiting || a.slots[j] is Cancelled),
    ensures
        b.wf(),
{
    assert forall|x: usize| #[trigger] b.appearances(x) == b.expected_count(x) by {
        assert(a.appearances(x) == a.expected_count(x));
        if (x as int) < a.slots.len() {
            assert((b.slots[x as int] is Waiting || b.slots[x as int] is Cancelled) == (a.slots[x
                as int] is Waiting || a.slots[x as int] is Cancelled));
        }
    }
}

/// The three bucket levels and their occupancy bitsets.
struct BucketLevels {
    ms_level: Vec<Bucket>,
    s_level: Vec<Bucket>,
    h_level: Vec<Bucket>,
    ms_occupied: Bitset<u16>,
    s_occupied: Bitset<u64>,
    h_occupied: Bitset<u32>,
}

/// A hierarchical timing wheel: timer storage, three bucket levels,
/// and the instant of the last processed tick.
pub struct TimeWheel {
    storage: TimerStorage,
    buckets: BucketLevels,
    last_tick: Instant,
    current_ms_idx: usize,
    current_s_idx: usize,
    current_h_idx: usize,
}

impl View for TimeWheel {
    type V = WheelModel;

    closed spec fn view(&self) -> WheelModel {
        WheelModel {
            slots: self.storage@.slots,
            fired: self.storage@.fired,
            ms: self.buckets.ms_level@.map_values(|b: Bucket| bucket_ids(b)),
            s: self.buckets.s_level@.map_values(|b: Bucket| bucket_ids(b)),
            h: self.buckets.h_level@.map_values(|b: Bucket| bucket_ids(b)),
            ms_bits: self.buckets.ms_occupied.0,
            s_bits: self.buckets.s_occupied.0,
            h_bits: self.buckets.h_occupied.0,
            ms_cur: self.current_ms_idx as int,
            s_cur: self.current_s_idx as int,
            h_cur: self.current_h_idx as int,
        }
    }
}

/// A vector of `n` empty buckets.
fn empty_level(n: usize) -> (v: Vec<Bucket>)
    ensures
        v@.len() == n,
        forall|j: int| 0 <= j < n ==> bucket_ids(#[trigger] v@[j]) == Seq::<usize>::empty(),
{
    let mut v: Vec<Bucket> = Vec::new();
    let mut i: usize = 0;
    while i < n
        invariant
            i <= n,
            v@.len() == i,
            forall|j: int| 0 <= j < i ==> bucket_ids(#[trigger] v@[j]) == Seq::<usize>::empty(),
        decreases n - i,
    {
        v.push(bucket_new());
        i = i + 1;
    }
    v
}

impl TimeWheel {
    /// A fresh wheel with no timers, all cursors at zero, and the
    /// clock read just now.
    pub fn new() -> (w: TimeWheel)
        ensures
            w@.wf(),
            w@ == WheelModel::initial(),
    {
        let w = TimeWheel {
            storage: TimerStorage::new(),
            buckets: BucketLevels {
                ms_level: empty_level(MS_BUCKETS),
                s_level: empty_level(S_BUCKETS),
                h_level: empty_level(H_BUCKETS),
                ms_occupied: Bitset(0u16),
                s_occupied: Bitset(0u64),
                h_occupied: Bitset(0u32),
            },
            last_tick: instant_now(),
            current_ms_idx: 0,
            current_s_idx: 0,
            current_h_idx: 0,
        };
        proof {
            assert(w@.ms =~= WheelModel::initial().ms);
            assert(w@.s =~= WheelModel::initial().s);
            assert(w@.h =~= WheelModel::initial().h);
            assert(w@.slots =~= WheelModel::initial().slots);
            assert(w@.fired =~= WheelModel::initial().fired);
            assert(w@ == WheelModel::initial());
            assert forall|x: usize| #[trigger] w@.appearances(x) == w@.expected_count(x) by {
                lemma_level_count_all_empty(w@.ms, x);
                lemma_level_count_all_empty(w@.s, x);
                lemma_level_count_all_empty(w@.h, x);
            }
        }
        w
    }

    /// The tick-level bucket for a duration below the tick span.
    fn compute_ms_bucket_from_ms(&self, ms: u64) -> (r: usize)
        requires
            0 <= self@.ms_cur < MS_BUCKETS,
            ms < MS_SPAN,
        ensures
            r < MS_BUCKETS,
            r as int == self@.spec_ms_bucket(ms),
    {
        let bucket_offset = (ms / MS_TICK) as usize;
        let capped = if bucket_offset > MS_BUCKETS - 1 {
            MS_BUCKETS - 1
        } else {
            bucket_offset
        };
        (self.current_ms_idx + capped) % MS_BUCKETS
    }

    /// The coarse-level bucket for a duration below the coarse span.
    fn compute_s_bucket_from_ms(&self, ms: u64) -> (r: usize)
        requires
            0 <= self@.s_cur < S_BUCKETS,
            ms < S_SPAN,
        ensures
            r < S_BUCKETS,
            r as int == self@.spec_s_bucket(ms),
    {
        let secs = (ms / 1000) as usize;
        let capped = if secs > S_BUCKETS - 1 {
            S_BUCKETS - 1
        } else {
            secs
        };
        (self.current_s_idx + capped) % S_BUCKETS
    }

    /// The coarsest-level bucket for a duration below a day.
    fn compute_h_bucket_from_ms(&self, ms: u64) -> (r: usize)
        requires
            0 <= self@.h_cur < H_BUCKETS,
            ms < MAX_DURATION_MS,
        ensures
            r < H_BUCKETS,
            r as int == self@.spec_h_bucket(ms),
    {
        let hours = (ms / 3_600_000) as usize;
        let capped = if hours > H_BUCKETS - 1 {
            H_BUCKETS - 1
        } else {
            hours
        };
        (self.current_h_idx + capped) % H_BUCKETS
    }

    /// Registers a timer that is due `duration_ms` milliseconds from
    /// now, holding a clone of `waker` to notify when it fires.
    /// Durations of a day or more are refused, and then nothing
    /// changes; any shorter duration (zero included) is accepted and
    /// the new timer's id is returned.
    pub fn init_timer(&mut self, duration_ms: u64, waker: &Waker) -> (r: Result<
        usize,
        DurationTooLong,
    >)
        requires
            old(self)@.wf(),
        ensures
            final(self)@.wf(),
            duration_ms >= MAX_DURATION_MS ==> r == Err::<usize, DurationTooLong>(DurationTooLong)
                && final(self)@ == old(self)@,
            duration_ms < MAX_DURATION_MS ==> (r matches Ok(id) && register_post(
                old(self)@,
                final(self)@,
                id,
                duration_ms,
            )),
    {
        if duration_ms >= MAX_DURATION_MS {
            return Err(DurationTooLong);
        }
        let timer_id = self.storage.create(waker);
        let ghost mid = self@;
        if duration_ms < MS_SPAN {
            let idx = self.compute_ms_bucket_from_ms(duration_ms);
            self.buckets.ms_occupied.set(idx);
            bucket_push(&mut self.buckets.ms_level[idx], timer_id);
            proof {
                assert(self@.ms =~= old(self)@.ms.update(
                    idx as int,
                    old(self)@.ms[idx as int].push(timer_id),
                ));
                self.lemma_register_wf(old(self)@, mid, timer_id, idx as int, 0);
            }
        } else if duration_ms < S_SPAN {
            let idx = self.compute_s_bucket_from_ms(duration_ms);
            self.buckets.s_occupied.set(idx);
            bucket_push(&mut self.buckets.s_level[idx], timer_id);
            proof {
                assert(self@.s =~= old(self)@.s.update(
                    idx as int,
                    old(self)@.s[idx as int].push(timer_id),
                ));
                self.lemma_register_wf(old(self)@, mid, timer_id, idx as int, 1);
            }
        } else {
            let idx = self.compute_h_bucket_from_ms(duration_ms);
            self.buckets.h_occupied.set(idx);
            bucket_push(&mut self.buckets.h_level[idx], timer_id);
            proof {
                assert(self@.h =~= old(self)@.h.update(
                    idx as int,
                    old(self)@.h[idx as int].push(timer_id),
                ));
                self.lemma_register_wf(old(self)@, mid, timer_id, idx as int, 2);
            }
        }
        Ok(timer_id)
    }

    /// After allocation placed the id in one bucket, the invariant
    /// holds again: the count of the new id rose from zero to one,
    /// every other count is untouched, and the chosen bucket's bit is
    /// set. `level` says which level received the id.
    proof fn lemma_register_wf(&self, pre: WheelModel, mid: WheelModel, id: usize, idx: int, level: int)
        requires
            pre.wf(),
            mid.storage().wf(),
            self@.storage() == mid.storage(),
            id <= pre.slots.len(),
            mid.slots.len() == (if id == pre.slots.len() {
                pre.slots.len() + 1
            } else {
                pre.slots.len()
            }),
            (id as int) < pre.slots.len() ==> pre.slots[id as int] is Free,
            mid.slots[id as int] is Waiting,
            forall|j: int|
                0 <= j < pre.slots.len() && j != id ==> (#[trigger] mid.slots[j]) == pre.slots[j],
            pre.same_buckets(mid),
            self@.ms_cur == pre.ms_cur && self@.s_cur == pre.s_cur && self@.h_cur == pre.h_cur,
            level == 0 || level == 1 || level == 2,
            level == 0 ==> {
                &&& 0 <= idx < MS_BUCKETS
                &&& self@.ms == pre.ms.update(idx, pre.ms[idx].push(id))
                &&& self@.ms_bits == set16(pre.ms_bits, idx)
                &&& self@.s == pre.s
                &&& self@.h == pre.h
                &&& self@.s_bits == pre.s_bits
                &&& self@.h_bits == pre.h_bits
            },
            level == 1 ==> {
                &&& 0 <= idx < S_BUCKETS
                &&& self@.s == pre.s.update(idx, pre.s[idx].push(id))
                &&& self@.s_bits == set64(pre.s_bits, idx)
                &&& self@.ms == pre.ms
                &&& self@.h == pre.h
                &&& self@.ms_bits == pre.ms_bits
                &&& self@.h_bits == pre.h_bits
            },
            level == 2 ==> {
                &&& 0 <= idx < H_BUCKETS
                &&& self@.h == pre.h.update(idx, pre.h[idx].push(id))
                &&& self@.h_bits == set32(pre.h_bits, idx)
                &&& self@.ms == pre.ms
                &&& self@.s == pre.s
                &&& self@.ms_bits == pre.ms_bits
                &&& self@.s_bits == pre.s_bits
            },
        ensures
            self@.wf(),
    {
        let post = self@;
        assert(post.slots == mid.slots);
        assert forall|x: usize| #[trigger] post.appearances(x) == post.expected_count(x) by {
            assert(pre.appearances(x) == pre.expected_count(x));
            assert(pre.appearances(id) == pre.expected_count(id));
            assert(pre.appearances(id) == 0);
            if level == 0 {
                lemma_level_count_update(pre.ms, idx, pre.ms[idx].push(id), x);
                lemma_seq_count_push(pre.ms[idx], id, x);
            } else if level == 1 {
                lemma_level_count_update(pre.s, idx, pre.s[idx].push(id), x);
                lemma_seq_count_push(pre.s[idx], id, x);
            } else {
                lemma_level_count_update(pre.h, idx, pre.h[idx].push(id), x);
                lemma_seq_count_push(pre.h[idx], id, x);
            }
            if x == id {
                assert(post.appearances(x) == pre.appearances(x) + 1);
                assert(post.expected_count(x) == 1);
            } else {
                assert(post.appearances(x) == pre.appearances(x));
                if (x as int) < pre.slots.len() {
                    assert(mid.slots[x as int] == pre.slots[x as int]);
                }
                assert(post.expected_count(x) == pre.expected_count(x));
            }
        }
        if level == 0 {
            lemma_set16_bit(pre.ms_bits, idx);
        } else if level == 1 {
            lemma_set64_bit(pre.s_bits, idx);
        } else {
            lemma_set32_bit(pre.h_bits, idx);
        }
    }

    /// Polls the timer `id`, which must still be allocated. A waiting
    /// timer stays pending, storing `waker` (or keeping the old
    /// continuation if it already wakes the same task); a fired timer
    /// reports ready and its slot is reclaimed; a cancelled timer
    /// reports ready and is left for the driver to reclaim. The
    /// buckets and notification logs are untouched.
    pub fn poll(&mut self, id: usize, waker: &Waker) -> (r: PollStatus)
        requires
            old(self)@.wf(),
            old(self)@.storage().live(id as int),
        ensures
            final(self)@.wf(),
            old(self)@.same_buckets(final(self)@),
            final(self)@.fired == old(self)@.fired,
            final(self)@.slots.len() == old(self)@.slots.len(),
            old(self)@.slots[id as int] is Waiting ==> {
                &&& r == PollStatus::Pending
                &&& final(self)@.slots[id as int] is Waiting
                &&& (final(self)@.storage() == old(self)@.storage() || exists|w: Waker|
                    final(self)@.storage() == old(self)@.storage().spec_replace(id as int, w))
            },
            old(self)@.slots[id as int] is Done ==> r == PollStatus::Ready
                && final(self)@.storage() == old(self)@.storage().spec_reclaim(id as int),
            old(self)@.slots[id as int] is Cancelled ==> r == PollStatus::Ready && final(self)@
                == old(self)@,
    {
        let r = self.storage.poll(id, waker);
        proof {
            lemma_wf_slots_change(old(self)@, self@);
        }
        r
    }

    /// Drops (cancels) the timer `id`, which must still be
    /// allocated. A waiting timer becomes cancelled and will never be
    /// notified; a fired timer's slot is reclaimed; dropping a
    /// cancelled timer again changes nothing.
    pub fn drop(&mut self, id: usize)
        requires
            old(self)@.wf(),
            old(self)@.storage().live(id as int),
        ensures
            final(self)@.wf(),
            old(self)@.same_buckets(final(self)@),
            final(self)@.storage() == old(self)@.storage().spec_drop(id as int),
    {
        self.storage.drop(id);
        proof {
            lemma_wf_slots_change(old(self)@, self@);
        }
    }

    /// How many storage slots exist (free ones included).
    pub fn slot_count(&self) -> (n: usize)
        ensures
            n == self@.slots.len(),
    {
        self.storage.slot_count()
    }
}

impl TimeWheel {
    /// Drains the current tick-level bucket: clears its occupancy
    /// bit, empties it, and fires every timer id it held, in order.
    #[verifier::loop_isolation(false)]
    fn drain_current_ms(&mut self)
        requires
            old(self)@.wf(),
        ensures
            final(self)@ == old(self)@.spec_drain_ms(),
            final(self)@.wf(),
    {
        let cur = self.current_ms_idx;
        if !self.buckets.ms_occupied.is_set(cur) {
            return ;
        }
        self.buckets.ms_occupied.clear(cur);
        let ids: Vec<usize> = bucket_drain(&mut self.buckets.ms_level[cur]);
        let ghost m0 = old(self)@;
        let ghost idseq = ids@;
        let ghost st0 = m0.storage();
        proof {
            assert(idseq == m0.ms[cur as int]);
            assert(self@.ms =~= m0.ms.update(cur as int, Seq::<usize>::empty()));
            lemma_drain_bucket_ids(m0);
        }
        let mut i: usize = 0;
        while i < ids.len()
            invariant
                i <= ids.len(),
                self@.ms == m0.ms.update(cur as int, Seq::<usize>::empty()),
                self@.s == m0.s,
                self@.h == m0.h,
                self@.ms_bits == clear16(m0.ms_bits, cur as int),
                self@.s_bits == m0.s_bits,
                self@.h_bits == m0.h_bits,
                self@.ms_cur == m0.ms_cur,
                self@.s_cur == m0.s_cur,
                self@.h_cur == m0.h_cur,
                self@.storage() == spec_fire_list(st0, idseq.subrange(0, i as int)),
                self@.storage().wf(),
                self@.slots.len() == m0.slots.len(),
            decreases ids.len() - i,
        {
            let id = ids[i];
            proof {
                let prefix = idseq.subrange(0, i as int);
                let suffix = idseq.subrange(i as int, idseq.len() as int);
                assert(idseq =~= prefix + suffix);
                lemma_seq_count_concat(prefix, suffix, id);
                assert(suffix[0] == id);
                lemma_seq_count_index(suffix, 0);
                assert(seq_count(idseq, id) == 1);
                assert(seq_count(prefix, id) == 0);
                assert forall|k: int|
                    0 <= k < prefix.len() implies (#[trigger] prefix[k]) < st0.slots.len() by {
                    assert(prefix[k] == idseq[k]);
                }
                lemma_fire_list_frame(st0, prefix, id);
                assert(self@.storage().slots[id as int] == st0.slots[id as int]);
            }
            self.storage.wake(id);
            proof {
                assert(idseq.subrange(0, (i + 1) as int) =~= idseq.subrange(0, i as int).push(id));
                lemma_fire_list_snoc(st0, idseq.subrange(0, i as int), id);
            }
            i = i + 1;
        }
        proof {
            assert(idseq.subrange(0, idseq.len() as int) =~= idseq);
            let post = self@;
            assert(post.storage() == spec_fire_list(st0, idseq));
            assert(post == m0.spec_drain_ms());
            lemma_drain_wf(m0);
        }
    }

    /// Coarse cascade: empties the current coarse bucket into the
    /// current tick bucket and marks that bucket occupied.
    #[verifier::loop_isolation(false)]
    fn cascade_from_seconds(&mut self)
        requires
            old(self)@.wf(),
        ensures
            final(self)@ == old(self)@.spec_cascade_s(),
            final(self)@.wf(),
    {
        let scur = self.current_s_idx;
        if !self.buckets.s_occupied.is_set(scur) {
            return ;
        }
        self.buckets.s_occupied.clear(scur);
        let ids: Vec<usize> = bucket_drain(&mut self.buckets.s_level[scur]);
        let mcur = self.current_ms_idx;
        self.buckets.ms_occupied.set(mcur);
        let ghost m0 = old(self)@;
        let ghost idseq = ids@;
        proof {
            assert(idseq == m0.s[scur as int]);
            assert(self@.s =~= m0.s.update(scur as int, Seq::<usize>::empty()));
            assert(m0.ms[mcur as int] + idseq.subrange(0, 0) =~= m0.ms[mcur as int]);
            assert(self@.ms =~= m0.ms.update(
                mcur as int,
                m0.ms[mcur as int] + idseq.subrange(0, 0),
            ));
        }
        let mut i: usize = 0;
        while i < ids.len()
            invariant
                i <= ids.len(),
                self@.ms == m0.ms.update(
                    mcur as int,
                    m0.ms[mcur as int] + idseq.subrange(0, i as int),
                ),
                self@.s == m0.s.update(scur as int, Seq::<usize>::empty()),
                self@.h == m0.h,
                self@.ms_bits == set16(m0.ms_bits, mcur as int),
                self@.s_bits == clear64(m0.s_bits, scur as int),
                self@.h_bits == m0.h_bits,
                self@.ms_cur == m0.ms_cur,
                self@.s_cur == m0.s_cur,
                self@.h_cur == m0.h_cur,
                self@.slots == m0.slots,
                self@.fired == m0.fired,
            decreases ids.len() - i,
        {
            let id = ids[i];
            let ghost msprev = self@.ms;
            bucket_push(&mut self.buckets.ms_level[mcur], id);
            proof {
                assert(self@.ms =~= msprev.update(
                    mcur as int,
                    msprev[mcur as int].push(id),
                ));
                assert(msprev[mcur as int] == m0.ms[mcur as int] + idseq.subrange(0, i as int));
                assert((m0.ms[mcur as int] + idseq.subrange(0, i as int)).push(id) =~= m0.ms[mcur
                    as int] + idseq.subrange(0, (i + 1) as int));
                assert(self@.ms =~= m0.ms.update(
                    mcur as int,
                    m0.ms[mcur as int] + idseq.subrange(0, (i + 1) as int),
                ));
            }
            i = i + 1;
        }
        proof {
            assert(idseq.subrange(0, idseq.len() as int) =~= idseq);
            assert(self@ == m0.spec_cascade_s());
            lemma_cascade_s_wf(m0);
        }
    }

    /// Coarsest cascade: empties the current coarsest bucket into the
    /// current coarse bucket and marks that bucket occupied.
    #[verifier::loop_isolation(false)]
    fn cascade_from_hours(&mut self)
        requires
            old(self)@.wf(),
        ensures
            final(self)@ == old(self)@.spec_cascade_h(),
            final(self)@.wf(),
    {
        let hcur = self.current_h_idx;
        if !self.buckets.h_occupied.is_set(hcur) {
            return ;
        }
        self.buckets.h_occupied.clear(hcur);
        let ids: Vec<usize> = bucket_drain(&mut self.buckets.h_level[hcur]);
        let scur = self.current_s_idx;
        self.buckets.s_occupied.set(scur);
        let ghost m0 = old(self)@;
        let ghost idseq = ids@;
        proof {
            assert(idseq == m0.h[hcur as int]);
            assert(self@.h =~= m0.h.update(hcur as int, Seq::<usize>::empty()));
            assert(m0.s[scur as int] + idseq.subrange(0, 0) =~= m0.s[scur as int]);
            assert(self@.s =~= m0.s.update(scur as int, m0.s[scur as int] + idseq.subrange(0, 0)));
        }
        let mut i: usize = 0;
        while i < ids.len()
            invariant
                i <= ids.len(),
                self@.s == m0.s.update(scur as int, m0.s[scur as int] + idseq.subrange(0, i as int)),
                self@.h == m0.h.update(hcur as int, Seq::<usize>::empty()),
                self@.ms == m0.ms,
                self@.s_bits == set64(m0.s_bits, scur as int),
                self@.h_bits == clear32(m0.h_bits, hcur as int),
                self@.ms_bits == m0.ms_bits,
                self@.ms_cur == m0.ms_cur,
                self@.s_cur == m0.s_cur,
                self@.h_cur == m0.h_cur,
                self@.slots == m0.slots,
                self@.fired == m0.fired,
            decreases ids.len() - i,
        {
            let id = ids[i];
            let ghost sprev = self@.s;
            bucket_push(&mut self.buckets.s_level[scur], id);
            proof {
                assert(self@.s =~= sprev.update(
                    scur as int,
                    sprev[scur as int].push(id),
                ));
                assert(sprev[scur as int] == m0.s[scur as int] + idseq.subrange(0, i as int));
                assert((m0.s[scur as int] + idseq.subrange(0, i as int)).push(id) =~= m0.s[scur
                    as int] + idseq.subrange(0, (i + 1) as int));
                assert(self@.s =~= m0.s.update(
                    scur as int,
                    m0.s[scur as int] + idseq.subrange(0, (i + 1) as int),
                ));
            }
            i = i + 1;
        }
        proof {
            assert(idseq.subrange(0, idseq.len() as int) =~= idseq);
            assert(self@ == m0.spec_cascade_h());
            lemma_cascade_h_wf(m0);
        }
    }

    /// One tick step of the wheel, exactly as `spec_single_step`
    /// describes: drain the due bucket, rotate the tick cursor, and
    /// cascade on wrap-around.
    fn process_single_tick(&mut self)
        requires
            old(self)@.wf(),
        ensures
            final(self)@ == old(self)@.spec_single_step(),
            final(self)@.wf(),
    {
        self.drain_current_ms();
        let ghost a = self@;
        self.current_ms_idx = (self.current_ms_idx + 1) % MS_BUCKETS;
        let ghost b = self@;
        proof {
            assert(b == (WheelModel { ms_cur: (a.ms_cur + 1) % (MS_BUCKETS as int), ..a }));
            lemma_wf_cursors(a, b);
        }
        if self.current_ms_idx == 0 {
            self.cascade_from_seconds();
            let ghost c = self@;
            self.current_s_idx = (self.current_s_idx + 1) % S_BUCKETS;
            let ghost d = self@;
            proof {
                assert(d == (WheelModel { s_cur: (c.s_cur + 1) % (S_BUCKETS as int), ..c }));
                lemma_wf_cursors(c, d);
            }
            if self.current_s_idx == 0 {
                self.cascade_from_hours();
                let ghost e = self@;
                self.current_h_idx = (self.current_h_idx + 1) % H_BUCKETS;
                proof {
                    assert(self@ == (WheelModel {
                        h_cur: (e.h_cur + 1) % (H_BUCKETS as int),
                        ..e
                    }));
                    lemma_wf_cursors(e, self@);
                }
            }
        }
        proof {
            assert(self@ == old(self)@.spec_single_step());
        }
    }

    /// Advances the wheel by exactly `steps` tick steps.
    pub fn advance(&mut self, steps: u64)
        requires
            old(self)@.wf(),
        ensures
            final(self)@.wf(),
            final(self)@ == old(self)@.spec_advance(steps as nat),
    {
        let mut i: u64 = 0;
        while i < steps
            invariant
                i <= steps,
                self@.wf(),
                self@ == old(self)@.spec_advance(i as nat),
            decreases steps - i,
        {
            self.process_single_tick();
            i = i + 1;
        }
    }

    /// Reads the clock and advances the wheel by one step per full
    /// 10 ms elapsed since the last call; the sub-tick remainder is
    /// discarded. How many steps that is depends on the clock, so
    /// only their existence is promised; `advance` carries the exact
    /// per-step contract.
    pub fn tick(&mut self)
        requires
            old(self)@.wf(),
        ensures
            final(self)@.wf(),
            exists|k: nat| final(self)@ == old(self)@.spec_advance(k),
    {
        let now = instant_now();
        let elapsed = duration_between(&self.last_tick, &now);
        self.last_tick = now;
        let ms = duration_to_millis(&elapsed);
        let steps = ms / MS_TICK;
        proof {
            assert(self@ == old(self)@);
        }
        self.advance(steps);
        proof {
            assert(self@ == old(self)@.spec_advance(steps as nat));
        }
    }

    /// A conservative park time: the first occupied bucket position
    /// in scan order (tick level first, skipping the current tick
    /// bucket), or `None` when every bit is clear. Because bits may
    /// be stale, the answer may under-estimate but never names a
    /// later time than the first set bit allows.
    #[verifier::loop_isolation(false)]
    pub fn next_deadline(&self) -> (r: Option<u64>)
        requires
            self@.wf(),
        ensures
            r == self@.spec_next_deadline(),
    {
        let mut i: usize = 1;
        while i < MS_BUCKETS
            invariant
                1 <= i <= MS_BUCKETS,
                forall|j: int| 1 <= j < i ==> !(#[trigger] self@.ms_scan()[j]),
            decreases MS_BUCKETS - i,
        {
            let idx = (self.current_ms_idx + i) % MS_BUCKETS;
            if self.buckets.ms_occupied.is_set(idx) {
                proof {
                    assert(self@.ms_scan()[i as int]);
                    lemma_scan_hit(self@.ms_scan(), 1, i as int);
                }
                return Some((i as u64) * MS_TICK);
            }
            proof {
                assert(!self@.ms_scan()[i as int]);
            }
            i = i + 1;
        }
        proof {
            lemma_scan_none(self@.ms_scan(), 1);
        }
        let mut j: usize = 0;
        while j < S_BUCKETS
            invariant
                j <= S_BUCKETS,
                forall|j2: int| 0 <= j2 < j ==> !(#[trigger] self@.s_scan()[j2]),
            decreases S_BUCKETS - j,
        {
            let idx = (self.current_s_idx + j) % S_BUCKETS;
            if self.buckets.s_occupied.is_set(idx) {
                proof {
                    assert(self@.s_scan()[j as int]);
                    lemma_scan_hit(self@.s_scan(), 0, j as int);
                }
                let ms_remaining = ((MS_BUCKETS - self.current_ms_idx) as u64) * MS_TICK;
                return Some(ms_remaining + (j as u64) * 1000);
            }
            proof {
                assert(!self@.s_scan()[j as int]);
            }
            j = j + 1;
        }
        proof {
            lemma_scan_none(self@.s_scan(), 0);
        }
        let mut k: usize = 0;
        while k < H_BUCKETS
            invariant
                k <= H_BUCKETS,
                forall|k2: int| 0 <= k2 < k ==> !(#[trigger] self@.h_scan()[k2]),
            decreases H_BUCKETS - k,
        {
            let idx = (self.current_h_idx + k) % H_BUCKETS;
            if self.buckets.h_occupied.is_set(idx) {
                proof {
                    assert(self@.h_scan()[k as int]);
                    lemma_scan_hit(self@.h_scan(), 0, k as int);
                }
                let ms_remaining = ((MS_BUCKETS - self.current_ms_idx) as u64) * MS_TICK;
                let s_remaining = ((S_BUCKETS - self.current_s_idx - 1) as u64) * 1000;
                return Some(ms_remaining + s_remaining + (k as u64) * 3_600_000);
            }
            proof {
                assert(!self@.h_scan()[k as int]);
            }
            k = k + 1;
        }
        proof {
            lemma_scan_none(self@.h_scan(), 0);
        }
        None
    }
}

impl Default for TimeWheel {
    /// Same as `new`.
    fn default() -> (w: TimeWheel)
        ensures
            w@.wf(),
            w@ == WheelModel::initial(),
    {
        TimeWheel::new()
    }
}

} // verus!
