//! When heartbeats are due.
//!
//! A client may ask for a heartbeat every so many deciseconds.  The
//! scheduler is told the time, in milliseconds on any clock that does not
//! run backwards, and answers how many heartbeats have become due and when
//! the next one will be.  It never looks at a clock itself: waiting is the
//! caller's business.
//!
//! The `k`-th heartbeat is due `k` periods after the scheduler was started;
//! an interval of zero asks for none.

use vstd::prelude::*;

verus! {

/// The number of milliseconds in a decisecond.
pub const MILLIS_PER_DECISECOND: u64 = 100;

/// The number of milliseconds between two heartbeats that are asked for at
/// an interval of `interval` deciseconds.
pub open spec fn period_millis(interval: u32) -> u64 {
    (interval * 100) as u64
}

/// The number of heartbeats that are due by `now` for a timer of period
/// `period` that was started at `started_at`, all in milliseconds.
pub open spec fn beats_due_by(period: u64, started_at: u64, now: u64) -> int {
    if period == 0 || now < started_at {
        0
    } else {
        (now - started_at) / (period as int)
    }
}

/// The mathematical value of a [`HeartbeatScheduler`].
pub struct Schedule {
    /// Milliseconds between heartbeats; zero when none are sent.
    pub period: u64,
    /// When the timer was started.
    pub started_at: u64,
    /// How many heartbeats have been reported as due.
    pub reported: u64,
}

/// The heartbeat timer of one connection.
#[derive(Debug, Clone, Copy, PartialEq, Eq)]
pub struct HeartbeatScheduler {
    period: u64,
    started_at: u64,
    reported: u64,
}

impl View for HeartbeatScheduler {
    type V = Schedule;

    closed spec fn view(&self) -> Schedule {
        Schedule { period: self.period, started_at: self.started_at, reported: self.reported }
    }
}

/// The period, in milliseconds, of the timer for an interval given in
/// deciseconds, or nothing when the interval asks for no heartbeats.
pub fn heartbeat_period(interval: u32) -> (period: Option<u64>)
    ensures
        interval == 0 ==> period is None,
        interval > 0 ==> period == Some(period_millis(interval)),
{
    if interval == 0 {
        None
    } else {
        Some(interval as u64 * MILLIS_PER_DECISECOND)
    }
}

impl HeartbeatScheduler {
    /// A timer for heartbeats every `interval` deciseconds, started at
    /// `now`.
    pub fn new(interval: u32, now: u64) -> (scheduler: HeartbeatScheduler)
        ensures
            scheduler@ == (Schedule {
                period: period_millis(interval),
                started_at: now,
                reported: 0,
            }),
    {
        HeartbeatScheduler {
            period: interval as u64 * MILLIS_PER_DECISECOND,
            started_at: now,
            reported: 0,
        }
    }

    /// A timer for heartbeats every `period` milliseconds, started at `now`;
    /// a period of zero gives a timer that is stopped.
    pub fn with_period(period: u64, now: u64) -> (scheduler: HeartbeatScheduler)
        ensures
            scheduler@ == (Schedule { period, started_at: now, reported: 0 }),
    {
        HeartbeatScheduler { period, started_at: now, reported: 0 }
    }

    /// Whether the timer will ever report a heartbeat.
    pub fn is_active(&self) -> (active: bool)
        ensures
            active == (self@.period > 0),
    {
        self.period > 0
    }

    /// The number of heartbeats that have become due since the last call,
    /// which the caller now has to send.
    pub fn poll(&mut self, now: u64) -> (due: u64)
        ensures
            final(self)@.period == old(self)@.period,
            final(self)@.started_at == old(self)@.started_at,
            beats_due_by(old(self)@.period, old(self)@.started_at, now) > old(self)@.reported ==> {
                &&& due == beats_due_by(old(self)@.period, old(self)@.started_at, now) - old(
                    self,
                )@.reported
                &&& final(self)@.reported == beats_due_by(
                    old(self)@.period,
                    old(self)@.started_at,
                    now,
                )
            },
            beats_due_by(old(self)@.period, old(self)@.started_at, now) <= old(self)@.reported ==> {
                &&& due == 0
                &&& final(self)@.reported == old(self)@.reported
            },
    {
        if self.period == 0 || now < self.started_at {
            return 0;
        }
        let total: u64 = (now - self.started_at) / self.period;
        if total > self.reported {
            let due: u64 = total - self.reported;
            self.reported = total;
            due
        } else {
            0
        }
    }

    /// When the next heartbeat is due, or nothing when none ever is: the
    /// timer is stopped, or the time is beyond what 64 bits can say.
    pub fn next_deadline(&self) -> (deadline: Option<u64>)
        ensures
            self@.period == 0 || self@.started_at + (self@.reported + 1) * self@.period > u64::MAX
                ==> deadline is None,
            self@.period > 0 && self@.started_at + (self@.reported + 1) * self@.period <= u64::MAX
                ==> deadline == Some(
                (self@.started_at + (self@.reported + 1) * self@.period) as u64,
            ),
    {
        if self.period == 0 {
            return None;
        }
        let count: u64 = match self.reported.checked_add(1) {
            Some(count) => count,
            None => {
                proof {
                    assert((self.reported + 1) * self.period >= self.reported + 1)
                        by (nonlinear_arith)
                        requires
                            self.period >= 1,
                            self.reported >= 0,
                    ;
                }
                return None;
            },
        };
        let offset: u64 = match count.checked_mul(self.period) {
            Some(offset) => offset,
            None => {
                return None;
            },
        };
        self.started_at.checked_add(offset)
    }

    /// Stops the timer: no heartbeat is due from now on.
    pub fn cancel(&mut self)
        ensures
            final(self)@ == (Schedule { period: 0, ..old(self)@ }),
    {
        self.period = 0;
    }
}

/// An interval of zero asks for no heartbeats: whatever the time, none is
/// due, and there is no next deadline.
pub proof fn lemma_no_beats_at_interval_zero(started_at: u64, now: u64)
    ensures
        beats_due_by(0, started_at, now) == 0,
{
}

/// Heartbeats come one period apart: by the time the `k`-th deadline has
/// passed, and the next one has not, exactly `k` heartbeats are due.
pub proof fn lemma_one_beat_per_period(period: u64, started_at: u64, now: u64, k: int)
    requires
        period > 0,
        0 <= k,
        started_at + k * period <= now < started_at + (k + 1) * period,
    ensures
        beats_due_by(period, started_at, now) == k,
{
    let elapsed: int = now - started_at;
    let p: int = period as int;
    assert(k * p <= elapsed < (k + 1) * p) by (nonlinear_arith)
        requires
            started_at + k * period <= now < started_at + (k + 1) * period,
            elapsed == now - started_at,
            p == period,
    ;
    assert(elapsed / p == k) by (nonlinear_arith)
        requires
            p > 0,
            k * p <= elapsed < (k + 1) * p,
    ;
}

} // verus!
