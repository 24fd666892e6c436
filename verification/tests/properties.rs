//! End-to-end scenarios of the wheel, driven by explicit step counts
//! (one step per 10 ms of elapsed time).

use async_timers::{DurationTooLong, PollStatus, TimeWheel};
use std::sync::atomic::{AtomicUsize, Ordering};
use std::sync::Arc;
use std::task::{Wake, Waker};

struct CountingWaker(AtomicUsize);

impl CountingWaker {
    fn count(&self) -> usize {
        self.0.load(Ordering::SeqCst)
    }
}

impl Wake for CountingWaker {
    fn wake(self: Arc<Self>) {
        self.0.fetch_add(1, Ordering::SeqCst);
    }
}

fn make_waker() -> (Arc<CountingWaker>, Waker) {
    let counter = Arc::new(CountingWaker(AtomicUsize::new(0)));
    let waker = Waker::from(counter.clone());
    (counter, waker)
}

#[test]
fn scenario_short_timer_fires_once() {
    // register(20 ms); 35 ms pass; the waker is notified once and the
    // poll reports ready.
    let mut wheel = TimeWheel::new();
    let (counter, waker) = make_waker();

    let id = wheel.init_timer(20, &waker).unwrap();
    wheel.advance(3);

    assert_eq!(counter.count(), 1);
    assert_eq!(wheel.poll(id, &waker), PollStatus::Ready);
}

#[test]
fn scenario_dropped_timer_never_fires() {
    // register(50 ms); drop; 60 ms pass; the waker is not notified,
    // and the poll reports ready.
    let mut wheel = TimeWheel::new();
    let (counter, waker) = make_waker();

    let id = wheel.init_timer(50, &waker).unwrap();
    wheel.drop(id);
    wheel.advance(6);

    assert_eq!(counter.count(), 0);
    assert_eq!(wheel.poll(id, &waker), PollStatus::Ready);
}

#[test]
fn scenario_zero_duration_timer() {
    // register(0); no deadline is reported (current bucket is
    // skipped); 15 ms pass; notified; poll is ready.
    let mut wheel = TimeWheel::new();
    let (counter, waker) = make_waker();

    let id = wheel.init_timer(0, &waker).unwrap();
    assert_eq!(wheel.next_deadline(), None);

    wheel.advance(1);
    assert_eq!(counter.count(), 1);
    assert_eq!(wheel.poll(id, &waker), PollStatus::Ready);
}

#[test]
fn scenario_coarse_timer_cascades_and_fires() {
    // register(150 ms); the deadline is at least 100 ms; 200 ms pass;
    // the timer cascades down, is notified, and polls ready.
    let mut wheel = TimeWheel::new();
    let (counter, waker) = make_waker();

    let id = wheel.init_timer(150, &waker).unwrap();
    assert!(wheel.next_deadline().unwrap() >= 100);

    wheel.advance(20);
    assert_eq!(counter.count(), 1);
    assert_eq!(wheel.poll(id, &waker), PollStatus::Ready);
}

#[test]
fn scenario_hour_level_placement() {
    // register(7200 s); the deadline is at least 60 s.
    let mut wheel = TimeWheel::new();
    let (_, waker) = make_waker();

    wheel.init_timer(7200 * 1000, &waker).unwrap();
    assert!(wheel.next_deadline().unwrap() >= 60 * 1000);
}

#[test]
fn scenario_twenty_timers_fire_exactly_once() {
    // 20 timers of 20 ms each; 35 ms pass; every waker is notified
    // exactly once and every poll is ready.
    let mut wheel = TimeWheel::new();
    let wakers: Vec<_> = (0..20).map(|_| make_waker()).collect();
    let ids: Vec<_> = wakers
        .iter()
        .map(|(_, w)| wheel.init_timer(20, w).unwrap())
        .collect();

    wheel.advance(3);

    for (i, (counter, waker)) in wakers.iter().enumerate() {
        assert_eq!(counter.count(), 1, "timer {} fired {} times", i, counter.count());
        assert_eq!(wheel.poll(ids[i], waker), PollStatus::Ready);
    }
}

#[test]
fn deadline_is_a_lower_bound_on_firing() {
    // The reported deadline never exceeds the time to the first fire:
    // advancing by exactly the deadline's worth of steps notifies
    // nobody yet; the next step fires.
    let mut wheel = TimeWheel::new();
    let (counter, waker) = make_waker();

    wheel.init_timer(40, &waker).unwrap();
    let deadline = wheel.next_deadline().unwrap();
    assert_eq!(deadline, 40);

    wheel.advance(deadline / 10);
    assert_eq!(counter.count(), 0);

    wheel.advance(1);
    assert_eq!(counter.count(), 1);
}

#[test]
fn rejected_registration_allocates_nothing() {
    // A rejected duration leaves the wheel untouched: no slot is
    // allocated, and the next registration still gets the first id.
    let mut wheel = TimeWheel::new();
    let (_, waker) = make_waker();

    assert_eq!(wheel.init_timer(86_400_000, &waker), Err(DurationTooLong));
    assert_eq!(wheel.slot_count(), 0);
    assert_eq!(wheel.next_deadline(), None);

    let id = wheel.init_timer(10, &waker).unwrap();
    assert_eq!(id, 0);
}

#[test]
fn duration_just_below_limit_accepted() {
    let mut wheel = TimeWheel::new();
    let (_, waker) = make_waker();

    assert!(wheel.init_timer(86_399_999, &waker).is_ok());
    assert_eq!(wheel.init_timer(86_400_001, &waker), Err(DurationTooLong));
}

#[test]
fn cascaded_timer_fires_exactly_once_over_long_run() {
    // A coarse-level timer crosses a cascade and several cursor
    // wrap-arounds; its waker is still notified exactly once.
    let mut wheel = TimeWheel::new();
    let (counter, waker) = make_waker();

    wheel.init_timer(150, &waker).unwrap();
    wheel.advance(200);

    assert_eq!(counter.count(), 1);
}

#[test]
fn cancelled_coarse_timer_stays_silent_through_cascades() {
    // Cancelling a coarse-level timer keeps it silent even after its
    // bucket cascades down and is drained.
    let mut wheel = TimeWheel::new();
    let (counter, waker) = make_waker();

    let id = wheel.init_timer(500, &waker).unwrap();
    wheel.drop(id);
    wheel.advance(100);

    assert_eq!(counter.count(), 0);
}

#[test]
fn only_latest_continuation_is_notified() {
    // Re-polling installs a new continuation; only the most recently
    // installed one receives the notification.
    let mut wheel = TimeWheel::new();
    let (counter1, waker1) = make_waker();
    let (counter2, waker2) = make_waker();
    let (counter3, waker3) = make_waker();

    let id = wheel.init_timer(30, &waker1).unwrap();
    assert_eq!(wheel.poll(id, &waker2), PollStatus::Pending);
    assert_eq!(wheel.poll(id, &waker3), PollStatus::Pending);

    wheel.advance(4);

    assert_eq!(counter1.count(), 0);
    assert_eq!(counter2.count(), 0);
    assert_eq!(counter3.count(), 1);
}

#[test]
fn repeated_drop_is_harmless() {
    let mut wheel = TimeWheel::new();
    let (counter, waker) = make_waker();

    let id = wheel.init_timer(70, &waker).unwrap();
    wheel.drop(id);
    wheel.drop(id);
    wheel.drop(id);

    wheel.advance(10);
    assert_eq!(counter.count(), 0);
    assert_eq!(wheel.poll(id, &waker), PollStatus::Ready);
}

#[test]
fn freed_slot_is_reused_first() {
    // After a timer is fully resolved its slot is reused by the next
    // registration; untouched timers keep their ids.
    let mut wheel = TimeWheel::new();
    let (_, waker) = make_waker();

    let id0 = wheel.init_timer(20, &waker).unwrap();
    let id1 = wheel.init_timer(900, &waker).unwrap();
    assert_eq!(id0, 0);
    assert_eq!(id1, 1);

    wheel.advance(3);
    assert_eq!(wheel.poll(id0, &waker), PollStatus::Ready);

    // Slot 0 was reclaimed by the poll; the next registration gets it.
    let id2 = wheel.init_timer(20, &waker).unwrap();
    assert_eq!(id2, 0);
    // And the one after that opens a fresh slot.
    let id3 = wheel.init_timer(20, &waker).unwrap();
    assert_eq!(id3, 2);
}
