use vstd::prelude::*;

use crate::formatter::{format_time, time_text};

verus! {

/// `a - b`, or zero where `b` is the larger.
pub open spec fn sat_sub(a: u64, b: u64) -> u64 {
    if a >= b { (a - b) as u64 } else { 0 }
}

/// A stopwatch over readings of a monotonic clock in nanoseconds: each
/// method that needs the time now takes the reading `now`.
pub struct TimerModule {
    pub is_running: bool,
    /// Reading at which the running stopwatch would have shown zero.
    pub start_time: u64,
    /// Time shown when last updated, in nanoseconds.
    pub duration: u64,
}

/// The time the stopwatch shows at reading `now`.
pub open spec fn shown(t: TimerModule, now: u64) -> u64 {
    if t.is_running { sat_sub(now, t.start_time) } else { t.duration }
}

impl TimerModule {
    /// A stopped stopwatch that shows zero.
    pub fn new(now: u64) -> (r: TimerModule)
        ensures
            r == (TimerModule { is_running: false, start_time: now, duration: 0 }),
    {
        TimerModule { is_running: false, start_time: now, duration: 0 }
    }

    /// Runs the stopwatch on from the time it shows.
    pub fn start(&mut self, now: u64)
        ensures
            final(self).is_running,
            final(self).duration == old(self).duration,
            final(self).start_time == if old(self).is_running {
                old(self).start_time
            } else {
                sat_sub(now, old(self).duration)
            },
    {
        self.update_start_time(now);
        self.is_running = true;
    }

    /// Stops the stopwatch; it keeps showing the time it reached.
    pub fn pause(&mut self, now: u64)
        ensures
            !final(self).is_running,
            final(self).duration == shown(*old(self), now),
            final(self).start_time == old(self).start_time,
    {
        self.update_duration(now);
        self.is_running = false;
    }

    /// Stops the stopwatch and sets it back to zero.
    pub fn reset(&mut self, now: u64)
        ensures
            *final(self) == (TimerModule { is_running: false, start_time: now, duration: 0 }),
    {
        self.start_time = now;
        self.duration = 0;
        self.is_running = false;
    }

    /// Sets the stopwatch back to zero and runs it.
    pub fn refresh(&mut self, now: u64)
        ensures
            *final(self) == (TimerModule { is_running: true, start_time: now, duration: 0 }),
    {
        self.reset(now);
        self.start(now);
    }

    /// Makes the stopwatch show `time_seconds` seconds (saturating at
    /// `u64::MAX` nanoseconds), running or not as it was.
    pub fn set_time(&mut self, now: u64, time_seconds: u64)
        ensures
            final(self).is_running == old(self).is_running,
            final(self).duration as int == if time_seconds * 1_000_000_000 > u64::MAX {
                u64::MAX as int
            } else {
                time_seconds * 1_000_000_000
            },
            final(self).start_time == sat_sub(now, final(self).duration),
    {
        self.duration = if time_seconds <= u64::MAX / 1_000_000_000 {
            time_seconds * 1_000_000_000
        } else {
            u64::MAX
        };
        self.start_time = now.saturating_sub(self.duration);
    }

    /// The time shown at reading `now`, in whole milliseconds.
    pub fn get_time_ms(&mut self, now: u64) -> (r: u64)
        ensures
            r == shown(*old(self), now) / 1_000_000,
            final(self).duration == shown(*old(self), now),
            final(self).is_running == old(self).is_running,
            final(self).start_time == old(self).start_time,
    {
        self.update_duration(now);
        self.duration / 1_000_000
    }

    /// The time shown at reading `now`, in nanoseconds.
    pub fn get_time_ns(&mut self, now: u64) -> (r: u64)
        ensures
            r == shown(*old(self), now),
            final(self).duration == shown(*old(self), now),
            final(self).is_running == old(self).is_running,
            final(self).start_time == old(self).start_time,
    {
        self.update_duration(now);
        self.duration
    }

    /// The time shown at reading `now`, in the largest unit that it reaches.
    pub fn get_string(&mut self, now: u64) -> (r: String)
        ensures
            r@ == time_text(shown(*old(self), now) as nat),
            final(self).duration == shown(*old(self), now),
            final(self).is_running == old(self).is_running,
            final(self).start_time == old(self).start_time,
    {
        self.update_duration(now);
        format_time(self.duration)
    }

    fn update_start_time(&mut self, now: u64)
        ensures
            final(self).is_running == old(self).is_running,
            final(self).duration == old(self).duration,
            final(self).start_time == if old(self).is_running {
                old(self).start_time
            } else {
                sat_sub(now, old(self).duration)
            },
    {
        if !self.is_running {
            self.start_time = now.saturating_sub(self.duration);
        }
    }

    fn update_duration(&mut self, now: u64)
        ensures
            final(self).is_running == old(self).is_running,
            final(self).start_time == old(self).start_time,
            final(self).duration == shown(*old(self), now),
    {
        if self.is_running {
            self.duration = now.saturating_sub(self.start_time);
        }
    }
}

/// The time that `time_module` shows at reading `now`, without updating it.
pub fn get_duration(time_module: &TimerModule, now: u64) -> (r: u64)
    ensures
        r == shown(*time_module, now),
{
    if time_module.is_running {
        now.saturating_sub(time_module.start_time)
    } else {
        time_module.duration
    }
}

} // verus!
