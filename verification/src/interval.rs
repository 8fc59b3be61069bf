//! The ticks of the worker: when the next one is due.
//!
//! Times are milliseconds on a monotonic clock of low resolution. The
//! caller reads the clock and waits; this module decides. Ticks lie on the
//! grid of the start and the period. A caller that was busy past one or
//! several ticks gets a single tick at once, and the next one on the grid
//! again: missed ticks are not dropped, and do not pile up beyond one.

use vstd::prelude::*;

verus! {

/// The first time after `now` on the grid of `next` and `period`, for a tick
/// that was due at `next` and is delivered at `now`. With a period of zero a
/// tick is due at all times from `next` on.
pub open spec fn next_due(next: u64, period: u64, now: u64) -> int {
    if period == 0 {
        next as int
    } else {
        now - (now - next) % (period as int) + period
    }
}

/// A time as far as the clock can show it.
pub open spec fn clamped(time: int) -> u64 {
    if time <= u64::MAX {
        time as u64
    } else {
        u64::MAX
    }
}

/// A source of ticks.
#[derive(Clone, Copy, Debug, PartialEq, Eq)]
pub struct Interval {
    next: u64,
    period: u64,
}

/// Time between two publications of the local addresses, in milliseconds.
pub const PUBLISH_INTERVAL: u64 = 10 * 60 * 1000;

/// Time between two refills of the queue of lookups, in milliseconds.
pub const REFILL_INTERVAL: u64 = 10 * 60 * 1000;

/// Time that the node is given to find its place in the DHT before the
/// first tick, in milliseconds.
pub const INITIAL_DELAY: u64 = 30 * 1000;

/// A source of ticks that fires at `start` for the first time, and then once
/// in every `period`.
pub fn interval_at(start: u64, period: u64) -> (r: Interval)
    ensures
        r.next() == start,
        r.period() == period,
{
    Interval { next: start, period }
}

/// The ticks on which a worker that starts at the time `now` publishes: the
/// first after `INITIAL_DELAY`, then one in every `PUBLISH_INTERVAL`.
pub fn publish_interval(now: u64) -> (r: Interval)
    ensures
        r.next() == clamped(now + INITIAL_DELAY),
        r.period() == PUBLISH_INTERVAL,
{
    interval_at(delayed(now), PUBLISH_INTERVAL)
}

/// The ticks on which a worker that starts at the time `now` refills its
/// queue of lookups: the first after `INITIAL_DELAY`, then one in every
/// `REFILL_INTERVAL`.
pub fn refill_interval(now: u64) -> (r: Interval)
    ensures
        r.next() == clamped(now + INITIAL_DELAY),
        r.period() == REFILL_INTERVAL,
{
    interval_at(delayed(now), REFILL_INTERVAL)
}

/// The time `INITIAL_DELAY` after `now`, as far as the clock can show it.
fn delayed(now: u64) -> (r: u64)
    ensures
        r == clamped(now + INITIAL_DELAY),
{
    if now <= u64::MAX - INITIAL_DELAY {
        now + INITIAL_DELAY
    } else {
        u64::MAX
    }
}

impl Interval {
    /// The time at which the next tick is due.
    pub closed spec fn next(&self) -> u64 {
        self.next
    }

    /// The time between two ticks.
    pub closed spec fn period(&self) -> u64 {
        self.period
    }

    /// How long to wait at the time `now` for the next tick: nothing where it
    /// is due.
    pub fn time_until_next(&self, now: u64) -> (wait: u64)
        ensures
            wait == if now >= self.next() {
                0
            } else {
                self.next() - now
            },
    {
        if now >= self.next {
            0
        } else {
            self.next - now
        }
    }

    /// Asks at the time `now` for a tick. Gives `true` where one is due, and
    /// then expects the next tick at the first time of the grid after `now`.
    /// Gives `false` where none is due, and changes nothing.
    pub fn poll(&mut self, now: u64) -> (fired: bool)
        ensures
            fired == (now >= old(self).next()),
            final(self).period() == old(self).period(),
            fired ==> final(self).next() == clamped(
                next_due(old(self).next(), old(self).period(), now),
            ),
            !fired ==> final(self).next() == old(self).next(),
            fired && old(self).period() > 0 ==> now < next_due(
                old(self).next(),
                old(self).period(),
                now,
            ) <= now + old(self).period(),
    {
        if now < self.next {
            return false;
        }
        if self.period > 0 {
            let late: u64 = (now - self.next) % self.period;
            assert(late <= now - self.next && late < self.period) by (nonlinear_arith)
                requires
                    late == (now - self.next) % (self.period as int),
                    self.period > 0,
                    now >= self.next,
            ;
            let on_grid: u64 = now - late;
            self.next = if on_grid <= u64::MAX - self.period {
                on_grid + self.period
            } else {
                u64::MAX
            };
        }
        true
    }
}

} // verus!
