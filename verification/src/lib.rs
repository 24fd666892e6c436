//! A hierarchical timing-wheel timer core.
//!
//! Registrations of the form "notify this continuation after `D`
//! milliseconds" are placed into one of three bucket levels (10 ms,
//! 1 s, 1 h resolution). An external driver advances the wheel by
//! calling `tick`; due buckets are drained and their continuations
//! notified exactly once, cancelled timers never. `next_deadline`
//! answers how long the driver may park.

pub mod bits;
pub mod bucket;
pub mod clock;
pub mod counting;
pub mod laws;
pub mod storage;
pub mod waker;
pub mod wheel;

pub use storage::PollStatus;
pub use storage::TimerStorage;
pub use wheel::DurationTooLong;
pub use wheel::TimeWheel;
