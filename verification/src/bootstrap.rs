//! When to bootstrap without being asked.
//!
//! A bootstrap is due at a regular interval, and a short while after a new
//! peer has entered the routing table. While a bootstrap is under way none
//! is due.

use crate::candidates::{deadline, deadline_after};
use vstd::prelude::*;

verus! {

/// The schedule of the bootstraps that the behaviour starts on its own.
#[derive(Clone, Copy, Debug, PartialEq, Eq)]
pub struct BootstrapStatus {
    /// The interval of the periodic bootstrap; none switches it off.
    pub interval: Option<u64>,
    /// The time to wait after a new peer before a bootstrap; none switches
    /// these bootstraps off.
    pub throttle: Option<u64>,
    /// The time at which the periodic bootstrap is due next.
    pub next_periodic: Option<u64>,
    /// The time at which the bootstrap for new peers is due, if one is.
    pub throttled: Option<u64>,
    /// The number of bootstraps under way.
    pub in_progress: usize,
}

/// A time that was set has come.
pub open spec fn is_due(at: Option<u64>, now: u64) -> bool {
    at is Some && now >= at->0
}

/// The time that lies `after` behind `now`, if there is such a span.
pub open spec fn scheduled(after: Option<u64>, now: u64) -> Option<u64> {
    match after {
        Some(span) => Some(deadline_after(now, span)),
        None => None,
    }
}

/// The time that lies `after` behind `now`, if there is such a span.
pub fn schedule(after: Option<u64>, now: u64) -> (r: Option<u64>)
    ensures
        r == scheduled(after, now),
{
    match after {
        Some(span) => Some(deadline(now, span)),
        None => None,
    }
}

/// The schedule after a new peer has entered the routing table at `now`: a
/// bootstrap is due after the throttle time, unless one is under way.
pub open spec fn after_new_peer(s: BootstrapStatus, now: u64) -> BootstrapStatus {
    if s.in_progress > 0 || s.throttle is None {
        s
    } else {
        BootstrapStatus { throttled: scheduled(s.throttle, now), ..s }
    }
}

/// The schedule after a bootstrap has ended.
pub open spec fn after_finish(s: BootstrapStatus) -> BootstrapStatus {
    BootstrapStatus {
        in_progress: if s.in_progress > 0 {
            (s.in_progress - 1) as usize
        } else {
            0
        },
        ..s
    }
}

/// The schedule after a bootstrap has started at `now`.
pub open spec fn after_start(s: BootstrapStatus, now: u64) -> BootstrapStatus {
    BootstrapStatus {
        in_progress: if s.in_progress < usize::MAX {
            (s.in_progress + 1) as usize
        } else {
            usize::MAX
        },
        next_periodic: scheduled(s.interval, now),
        ..s
    }
}

/// Whether a bootstrap is due at `now`: none is under way, and the time of
/// the bootstrap for new peers or of the periodic bootstrap has come.
pub open spec fn due(s: BootstrapStatus, now: u64) -> bool {
    s.in_progress == 0 && (is_due(s.throttled, now) || is_due(s.next_periodic, now))
}

/// The schedule after it was asked at `now` whether a bootstrap is due: the
/// bootstrap for new peers is due once, and the periodic bootstrap is due
/// again after its interval.
pub open spec fn after_poll(s: BootstrapStatus, now: u64) -> BootstrapStatus {
    if s.in_progress > 0 {
        s
    } else if is_due(s.throttled, now) {
        BootstrapStatus { throttled: None, ..s }
    } else if is_due(s.next_periodic, now) {
        BootstrapStatus { next_periodic: scheduled(s.interval, now), ..s }
    } else {
        s
    }
}

impl BootstrapStatus {
    /// A schedule that starts at `now`: the periodic bootstrap is due after
    /// its interval.
    pub fn new(interval: Option<u64>, throttle: Option<u64>, now: u64) -> (s: Self)
        ensures
            s == (BootstrapStatus {
                interval,
                throttle,
                next_periodic: scheduled(interval, now),
                throttled: None,
                in_progress: 0,
            }),
    {
        BootstrapStatus {
            interval,
            throttle,
            next_periodic: schedule(interval, now),
            throttled: None,
            in_progress: 0,
        }
    }

    /// Takes note that a new peer has entered the routing table at `now`: a
    /// bootstrap is due after the throttle time, counted anew from now,
    /// unless a bootstrap is under way.
    pub fn on_new_peer(&mut self, now: u64)
        ensures
            *final(self) == after_new_peer(*old(self), now),
    {
        if self.in_progress == 0 && self.throttle.is_some() {
            self.throttled = schedule(self.throttle, now);
        }
    }

    /// Takes note that a bootstrap has started at `now`: the periodic
    /// bootstrap is due after its interval from now.
    pub fn on_started(&mut self, now: u64)
        ensures
            *final(self) == after_start(*old(self), now),
    {
        self.in_progress = self.in_progress.saturating_add(1);
        self.next_periodic = schedule(self.interval, now);
    }

    /// Takes note that a bootstrap has ended.
    pub fn on_finish(&mut self)
        ensures
            *final(self) == after_finish(*old(self)),
    {
        self.in_progress = self.in_progress.saturating_sub(1);
    }

    /// Whether a bootstrap is due at `now`. While a bootstrap is under way
    /// none is due. The bootstrap for new peers is due once when its time
    /// has come. The periodic bootstrap is due when its time has come, and
    /// then again after its interval.
    pub fn poll(&mut self, now: u64) -> (r: bool)
        ensures
            r == due(*old(self), now),
            *final(self) == after_poll(*old(self), now),
    {
        if self.in_progress > 0 {
            return false;
        }
        let throttled = match self.throttled {
            Some(t) => now >= t,
            None => false,
        };
        if throttled {
            self.throttled = None;
            return true;
        }
        let periodic = match self.next_periodic {
            Some(t) => now >= t,
            None => false,
        };
        if periodic {
            self.next_periodic = schedule(self.interval, now);
            return true;
        }
        false
    }
}

} // verus!
