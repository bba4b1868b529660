//! The frame clock: a sleep-based rate limiter, modeled in microseconds.
//!
//! The clock itself never reads the time or sleeps; the caller passes in
//! a monotonic now and performs the sleep the clock asks for.  On fast
//! frames the returned delta is clamped up to exactly the target frame
//! duration, never less.

use vstd::prelude::*;

verus! {

/// One second, in microseconds.
pub const MICROS_PER_SECOND: u64 = 1_000_000;

/// The frame clock: the instant of the last tick and the target frame
/// duration, both in microseconds on the caller's monotonic clock.
#[derive(Clone, Copy, Debug)]
pub struct Clock {
    last_tick_us: u64,
    target_frame_us: u64,
}

impl Clock {
    /// The instant of the last tick, in microseconds.
    pub closed spec fn last_tick(self) -> u64 {
        self.last_tick_us
    }

    /// The target frame duration, in microseconds.
    pub closed spec fn target(self) -> u64 {
        self.target_frame_us
    }

    /// A clock aiming at `target_fps` frames per second, starting its
    /// pacing from the instant `now_us`.
    pub fn new(target_fps: u32, now_us: u64) -> (c: Clock)
        requires
            target_fps >= 1,
        ensures
            c.target() == MICROS_PER_SECOND as int / target_fps as int,
            c.last_tick() == now_us,
    {
        Clock { last_tick_us: now_us, target_frame_us: MICROS_PER_SECOND / (target_fps as u64) }
    }

    /// Paces one frame.  `now_us` is the current instant on the same
    /// monotonic clock `new` was given.  Returns `(delta_us, sleep_us)`:
    /// the caller sleeps `sleep_us` and treats `delta_us` as the frame's
    /// elapsed time.  A frame faster than the target is padded: its delta
    /// is exactly the target duration, never less, and the sleep makes up
    /// the difference.  A slow frame sleeps nothing and reports its true
    /// elapsed time.
    pub fn tick(&mut self, now_us: u64) -> (r: (u64, u64))
        requires
            old(self).last_tick() <= now_us,
            now_us + old(self).target() <= u64::MAX,
        ensures
            r.0 == if now_us - old(self).last_tick() < old(self).target() {
                old(self).target() as int
            } else {
                now_us - old(self).last_tick()
            },
            r.1 == r.0 - (now_us - old(self).last_tick()),
            r.0 >= old(self).target(),
            final(self).target() == old(self).target(),
            final(self).last_tick() == now_us + r.1,
    {
        let elapsed: u64 = now_us - self.last_tick_us;
        let (delta, sleep): (u64, u64) = if elapsed < self.target_frame_us {
            (self.target_frame_us, self.target_frame_us - elapsed)
        } else {
            (elapsed, 0)
        };
        self.last_tick_us = now_us + sleep;
        (delta, sleep)
    }
}

} // verus!
