//! Timeouts. Moments and durations are in nanoseconds; what the time is, the caller says.

use vstd::prelude::*;

verus! {

/// The longest duration: the largest number of seconds in 64 bits, and the nanoseconds of one
/// second less one.
pub const MAX_DURATION: u128 = 18446744073709551615999999999;

/// Whether a timeout is running.
#[derive(Clone, Copy, Debug, PartialEq, Eq, Structural)]
pub enum TimeoutState {
    Inactive,
    Active,
    Expired,
}

/// A timer that runs for a duration once it was started.
#[derive(Clone, Copy, Debug, PartialEq, Eq, Structural)]
pub struct Timeout {
    /// Whether the timeout is running
    pub state: TimeoutState,
    /// How long it runs
    pub duration: u128,
    /// When it was last started
    pub started: u128,
}

impl Timeout {
    /// A timeout that has not been started.
    pub open spec fn fresh(duration: u128) -> Timeout {
        Timeout { state: TimeoutState::Inactive, duration, started: 0 }
    }

    /// The timeout, started at the given moment.
    pub open spec fn started_at(self, now: u128) -> Timeout {
        Timeout { state: TimeoutState::Active, duration: self.duration, started: now }
    }

    /// The timeout, stopped.
    pub open spec fn stopped(self) -> Timeout {
        Timeout { state: TimeoutState::Inactive, duration: self.duration, started: self.started }
    }

    /// Whether the timeout has run out by the given moment: it had run out before, or it is running
    /// and more time than its duration has passed.
    pub open spec fn run_out(self, now: u128) -> bool {
        self.state == TimeoutState::Expired || (self.state == TimeoutState::Active && now
            - self.started > self.duration)
    }

    /// The timeout, looked at at the given moment.
    pub open spec fn checked_at(self, now: u128) -> Timeout {
        if self.run_out(now) {
            Timeout {
                state: TimeoutState::Expired,
                duration: self.duration,
                started: self.started,
            }
        } else {
            self
        }
    }

    /// Makes a timeout that is not running.
    pub fn new(duration: u128) -> (timeout: Timeout)
        ensures
            timeout == Timeout::fresh(duration),
    {
        Timeout { state: TimeoutState::Inactive, duration, started: 0 }
    }

    /// Checks whether the timeout has run out; once it has, it stays so until it is started or
    /// stopped.
    pub fn check_expired(&mut self, now: u128) -> (expired: bool)
        ensures
            *final(self) == old(self).checked_at(now),
            expired == old(self).run_out(now),
    {
        if let TimeoutState::Active = self.state {
            if now > self.started && now - self.started > self.duration {
                self.state = TimeoutState::Expired;
            }
        }
        match self.state {
            TimeoutState::Expired => true,
            _ => false,
        }
    }

    /// Starts the timeout, from the beginning.
    pub fn start(&mut self, now: u128)
        ensures
            *final(self) == old(self).started_at(now),
    {
        self.state = TimeoutState::Active;
        self.started = now;
    }

    /// Stops the timeout.
    pub fn stop(&mut self)
        ensures
            *final(self) == old(self).stopped(),
    {
        self.state = TimeoutState::Inactive;
    }
}

/// How long a view change may take that skips the given number of views: the duration for one,
/// times the lowest 32 bits of that number. `None` where that is longer than the longest duration.
pub open spec fn scaled_duration(duration: u128, skipped: u64) -> Option<u128> {
    let length = duration * (skipped % 0x1_0000_0000);
    if length <= MAX_DURATION {
        Some(length as u128)
    } else {
        None
    }
}

/// Computes how long a view change may take.
pub fn scale_duration(duration: u128, skipped: u64) -> (r: Option<u128>)
    requires
        duration <= MAX_DURATION,
    ensures
        r == scaled_duration(duration, skipped),
{
    let factor: u64 = skipped % 0x1_0000_0000;
    assert(duration * factor <= 18446744073709551615999999999 * 0x1_0000_0000)
        by (nonlinear_arith)
        requires
            0 <= duration <= 18446744073709551615999999999,
            0 <= factor < 0x1_0000_0000,
    ;
    let length: u128 = duration * (factor as u128);
    if length <= MAX_DURATION {
        Some(length)
    } else {
        None
    }
}

/// The pause after the given one, between tries of a request: twice as long, but no longer than the
/// longest.
pub open spec fn longer_pause(pause: u128, longest: u128) -> u128 {
    if pause >= longest {
        pause
    } else if 2 * pause > longest {
        longest
    } else {
        (2 * pause) as u128
    }
}

/// Computes the pause after the given one, between tries of a request.
pub fn next_pause(pause: u128, longest: u128) -> (next: u128)
    ensures
        next == longer_pause(pause, longest),
{
    if pause >= longest {
        pause
    } else if pause > longest - pause {
        longest
    } else {
        2 * pause
    }
}

} // verus!
