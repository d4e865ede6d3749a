//! What a query reports about itself: its identifier, the step of its
//! progress, its statistics, and the quorum it needs.

use vstd::prelude::*;

verus! {

/// The identifier of a query, unique within a pool.
#[derive(Clone, Copy, Debug, PartialEq, Eq, Hash, PartialOrd, Ord)]
pub struct QueryId(pub usize);

/// Where an event stands in the progress of its query.
#[derive(Clone, Copy, Debug, PartialEq, Eq)]
pub struct ProgressStep {
    /// The number of the event within its query, counted from one.
    pub count: usize,
    /// Whether this is the last event of the query.
    pub last: bool,
}

impl ProgressStep {
    /// The first step of a query that reports more.
    pub fn first() -> (s: Self)
        ensures
            s == (ProgressStep { count: 1, last: false }),
    {
        ProgressStep { count: 1, last: false }
    }

    /// The only step of a query that reports once.
    pub fn first_and_last() -> (s: Self)
        ensures
            s == (ProgressStep { count: 1, last: true }),
    {
        ProgressStep { count: 1, last: true }
    }

    /// The step after this one, not marked as last. The count stops at the
    /// largest number that fits.
    pub fn next(&self) -> (s: Self)
        ensures
            !s.last,
            s.count == if self.count < usize::MAX {
                (self.count + 1) as usize
            } else {
                usize::MAX
            },
    {
        let count = if self.count < usize::MAX {
            self.count + 1
        } else {
            usize::MAX
        };
        ProgressStep { count, last: false }
    }

    /// This step, marked as the last of its query.
    pub fn terminal(&self) -> (s: Self)
        ensures
            s == (ProgressStep { count: self.count, last: true }),
    {
        ProgressStep { count: self.count, last: true }
    }
}

/// The sum of two counts, held at the largest count that fits.
pub open spec fn capped_sum(a: u32, b: u32) -> u32 {
    if a + b > u32::MAX {
        u32::MAX
    } else {
        (a + b) as u32
    }
}

/// The execution statistics of a query.
#[derive(Clone, Copy, Debug, PartialEq, Eq)]
pub struct QueryStats {
    pub requests: u32,
    pub success: u32,
    pub failure: u32,
    pub start: Option<u64>,
    pub end: Option<u64>,
}

/// The earlier of two optional times; a missing time does not count.
pub open spec fn earlier(a: Option<u64>, b: Option<u64>) -> Option<u64> {
    match (a, b) {
        (Some(x), Some(y)) => Some(if x <= y { x } else { y }),
        (Some(x), None) => Some(x),
        (None, y) => y,
    }
}

/// The later of two optional times; a missing time does not count.
pub open spec fn later(a: Option<u64>, b: Option<u64>) -> Option<u64> {
    match (a, b) {
        (Some(x), Some(y)) => Some(if x >= y { x } else { y }),
        (Some(x), None) => Some(x),
        (None, y) => y,
    }
}

/// The statistics of two phases of a query taken together: the counts are
/// added, and the time runs from the earlier start to the later end.
pub open spec fn merged(a: QueryStats, b: QueryStats) -> QueryStats {
    QueryStats {
        requests: capped_sum(a.requests, b.requests),
        success: capped_sum(a.success, b.success),
        failure: capped_sum(a.failure, b.failure),
        start: earlier(a.start, b.start),
        end: later(a.end, b.end),
    }
}

/// The statistics of a query that has not started.
pub open spec fn no_stats() -> QueryStats {
    QueryStats { requests: 0, success: 0, failure: 0, start: None, end: None }
}

impl QueryStats {
    /// The statistics of a query that has not started.
    pub fn empty() -> (s: Self)
        ensures
            s == no_stats(),
    {
        QueryStats { requests: 0, success: 0, failure: 0, start: None, end: None }
    }

    /// The number of requests that the query has sent.
    pub fn num_requests(&self) -> (n: u32)
        ensures
            n == self.requests,
    {
        self.requests
    }

    /// The number of requests that were answered.
    pub fn num_successes(&self) -> (n: u32)
        ensures
            n == self.success,
    {
        self.success
    }

    /// The number of requests that failed.
    pub fn num_failures(&self) -> (n: u32)
        ensures
            n == self.failure,
    {
        self.failure
    }

    /// The number of requests without an outcome yet; zero where more
    /// outcomes than requests were counted.
    pub fn num_pending(&self) -> (n: u32)
        ensures
            n == if self.requests >= capped_sum(self.success, self.failure) {
                self.requests - capped_sum(self.success, self.failure)
            } else {
                0
            },
    {
        let done = self.success.saturating_add(self.failure);
        self.requests.saturating_sub(done)
    }

    /// The time from the start to the end of the query, once it has ended.
    pub fn duration(&self) -> (d: Option<u64>)
        ensures
            d is Some <==> self.start is Some && self.end is Some,
            d is Some ==> d->0 == if self.end->0 >= self.start->0 {
                self.end->0 - self.start->0
            } else {
                0
            },
    {
        match (self.start, self.end) {
            (Some(s), Some(e)) => Some(e.saturating_sub(s)),
            _ => None,
        }
    }

    /// Takes note of one more request.
    pub fn on_request(&mut self)
        ensures
            *final(self) == (QueryStats {
                requests: capped_sum(old(self).requests, 1),
                ..*old(self)
            }),
    {
        self.requests = self.requests.saturating_add(1);
    }

    /// Takes note of one more answer.
    pub fn on_success(&mut self)
        ensures
            *final(self) == (QueryStats {
                success: capped_sum(old(self).success, 1),
                ..*old(self)
            }),
    {
        self.success = self.success.saturating_add(1);
    }

    /// Takes note of one more failure.
    pub fn on_failure(&mut self)
        ensures
            *final(self) == (QueryStats {
                failure: capped_sum(old(self).failure, 1),
                ..*old(self)
            }),
    {
        self.failure = self.failure.saturating_add(1);
    }

    /// The statistics of two phases of a query taken together: the counts
    /// add up, and the time runs from the earlier start to the later end.
    pub fn merge(self, other: QueryStats) -> (s: QueryStats)
        ensures
            s == merged(self, other),
    {
        let start = match (self.start, other.start) {
            (Some(a), Some(b)) => Some(if a <= b { a } else { b }),
            (Some(a), None) => Some(a),
            (None, b) => b,
        };
        let end = match (self.end, other.end) {
            (Some(a), Some(b)) => Some(if a >= b { a } else { b }),
            (Some(a), None) => Some(a),
            (None, b) => b,
        };
        QueryStats {
            requests: self.requests.saturating_add(other.requests),
            success: self.success.saturating_add(other.success),
            failure: self.failure.saturating_add(other.failure),
            start,
            end,
        }
    }
}

/// The number of answers that a query needs to succeed.
#[derive(Clone, Copy, Debug, PartialEq, Eq)]
pub enum Quorum {
    /// One answer.
    One,
    /// More than half of the peers asked.
    Majority,
    /// All peers asked.
    All,
    /// The given number, or all peers asked if they are fewer.
    N(usize),
}

/// The number of answers that `quorum` asks of `total` peers.
pub open spec fn quorum_of(quorum: Quorum, total: usize) -> int {
    match quorum {
        Quorum::One => 1,
        Quorum::Majority => total / 2 + 1,
        Quorum::All => total as int,
        Quorum::N(n) => if n <= total { n as int } else { total as int },
    }
}

impl Quorum {
    /// The number of answers that the quorum asks of `total` peers.
    pub fn eval(&self, total: usize) -> (n: usize)
        requires
            total >= 1,
        ensures
            n == quorum_of(*self, total),
    {
        match self {
            Quorum::One => 1,
            Quorum::Majority => total / 2 + 1,
            Quorum::All => total,
            Quorum::N(n) => if *n <= total { *n } else { total },
        }
    }
}

/// A quorum of at least one answer never asks for more answers than peers,
/// and never for none.
pub proof fn lemma_quorum_in_range(quorum: Quorum, total: usize)
    requires
        total >= 1,
        quorum matches Quorum::N(n) ==> n >= 1,
    ensures
        1 <= quorum_of(quorum, total) <= total,
{
}

} // verus!
