//! Queries and the pool that drives them.
//!
//! A query couples a peer iterator with what its owner records about it and
//! with its statistics. The pool holds the queries that are under way, gives
//! each a fresh identifier, and on each poll advances them in turn until one
//! has a request to send, is done, or has run out of time.

use crate::candidates::{
    candidate_keys, peer_keys, succeeded, waiting_at, with_state, PeerState, PeersIterState,
};
use crate::closest_peers::{after_success, ClosestPeersIter, IterState};
use crate::disjoint_peers::{
    any_waiting, disjoint_step, distributed, path_step, quiet, resolved, ClosestDisjointPeersIter,
};
use crate::fixed_peers::{fixed_step, FixedPeersIter};
use crate::key::Key;
use crate::nearest::{is_closest, Peer};
use crate::query::{capped_sum, no_stats, QueryId, QueryStats};
use vstd::prelude::*;

verus! {

/// The peer iterator of a query.
pub enum QueryPeerIter {
    /// Towards the peers closest to a key.
    Closest(ClosestPeersIter),
    /// Towards the peers closest to a key, over disjoint paths.
    ClosestDisjoint(ClosestDisjointPeersIter),
    /// Over a fixed list of peers.
    Fixed(FixedPeersIter),
}

impl QueryPeerIter {
    /// The iterator is in order.
    pub open spec fn wf(self) -> bool {
        match self {
            QueryPeerIter::Closest(it) => it.wf(),
            QueryPeerIter::ClosestDisjoint(it) => it.wf(),
            QueryPeerIter::Fixed(it) => it.wf(),
        }
    }

    /// Whether the iterator is done.
    pub open spec fn finished(self) -> bool {
        match self {
            QueryPeerIter::Closest(it) => crate::closest_peers::is_done(it.spec_state()),
            QueryPeerIter::ClosestDisjoint(it) => it.all_finished(),
            QueryPeerIter::Fixed(it) => it.finished(),
        }
    }

    /// Whether the iterator waits for the answer of the peer at `key`.
    pub open spec fn waits_for(self, key: Key) -> bool {
        match self {
            QueryPeerIter::Closest(it) => it.spec_state() != IterState::Finished && exists|i: int|
                waiting_at(it.candidates(), key, i),
            QueryPeerIter::ClosestDisjoint(it) => any_waiting(it.paths(), key),
            QueryPeerIter::Fixed(it) => !it.finished() && exists|i: int|
                waiting_at(it.candidates(), key, i),
        }
    }

    /// One step at time `now` leads from this iterator to `after` with result `r`.
    pub open spec fn step(self, now: u64, after: Self, r: PeersIterState) -> bool {
        match (self, after) {
            (QueryPeerIter::Closest(a), QueryPeerIter::Closest(b)) => path_step(a, now, b, r),
            (QueryPeerIter::ClosestDisjoint(a), QueryPeerIter::ClosestDisjoint(b)) => {
                &&& disjoint_step(a.paths(), now, b.paths(), r)
                &&& b.seen() == a.seen()
                &&& b.cursor() == a.cursor()
                &&& b.spec_target() == a.spec_target()
                &&& b.spec_config() == a.spec_config()
            },
            (QueryPeerIter::Fixed(a), QueryPeerIter::Fixed(b)) => {
                &&& fixed_step(
                    a.candidates(),
                    a.parallelism(),
                    a.peer_timeout(),
                    a.finished(),
                    now,
                    b.candidates(),
                    b.finished(),
                    r,
                )
                &&& b.parallelism() == a.parallelism()
                &&& b.peer_timeout() == a.peer_timeout()
            },
            _ => false,
        }
    }

    /// The answer of the peer at `key`, which reports `closer`, leads from
    /// this iterator, which waits for it, to `after`.
    pub open spec fn succeeds(self, key: Key, closer: Seq<Peer>, after: Self) -> bool {
        match (self, after) {
            (QueryPeerIter::Closest(a), QueryPeerIter::Closest(b)) => {
                &&& is_closest(
                    b.candidates(),
                    candidate_keys(a.candidates()).union(peer_keys(closer)),
                    a.spec_target(),
                    a.spec_config().num_results as nat,
                )
                &&& forall|x: int|
                    0 <= x < b.candidates().len() ==> after_success(
                        a.candidates(),
                        key,
                        closer,
                        #[trigger] b.candidates()[x],
                    )
                &&& b.spec_state() == a.spec_state()
                &&& b.spec_target() == a.spec_target()
                &&& b.spec_config() == a.spec_config()
            },
            (QueryPeerIter::ClosestDisjoint(a), QueryPeerIter::ClosestDisjoint(b)) => {
                &&& exists|marked: Seq<ClosestPeersIter>|
                    #![trigger resolved(a.paths(), marked, key, PeerState::Succeeded)]
                    resolved(a.paths(), marked, key, PeerState::Succeeded) && distributed(
                        marked,
                        a.seen(),
                        a.cursor(),
                        closer,
                        b.paths(),
                        b.seen(),
                        b.cursor(),
                    )
                &&& b.spec_target() == a.spec_target()
                &&& b.spec_config() == a.spec_config()
            },
            (QueryPeerIter::Fixed(a), QueryPeerIter::Fixed(b)) => {
                &&& exists|i: int|
                    waiting_at(a.candidates(), key, i) && b.candidates() == with_state(
                        a.candidates(),
                        i,
                        PeerState::Succeeded,
                    )
                &&& b.finished() == a.finished()
                &&& b.parallelism() == a.parallelism()
                &&& b.peer_timeout() == a.peer_timeout()
            },
            _ => false,
        }
    }

    /// The failure of the request to the peer at `key` leads from this
    /// iterator, which waits for it, to `after`.
    pub open spec fn fails(self, key: Key, after: Self) -> bool {
        match (self, after) {
            (QueryPeerIter::Closest(a), QueryPeerIter::Closest(b)) => {
                &&& exists|i: int|
                    waiting_at(a.candidates(), key, i) && b.candidates() == with_state(
                        a.candidates(),
                        i,
                        PeerState::Failed,
                    )
                &&& b.spec_state() == a.spec_state()
                &&& b.spec_target() == a.spec_target()
                &&& b.spec_config() == a.spec_config()
            },
            (QueryPeerIter::ClosestDisjoint(a), QueryPeerIter::ClosestDisjoint(b)) => {
                &&& resolved(a.paths(), b.paths(), key, PeerState::Failed)
                &&& b.seen() == a.seen()
                &&& b.cursor() == a.cursor()
                &&& b.spec_target() == a.spec_target()
                &&& b.spec_config() == a.spec_config()
            },
            (QueryPeerIter::Fixed(a), QueryPeerIter::Fixed(b)) => {
                &&& exists|i: int|
                    waiting_at(a.candidates(), key, i) && b.candidates() == with_state(
                        a.candidates(),
                        i,
                        PeerState::Failed,
                    )
                &&& b.finished() == a.finished()
                &&& b.parallelism() == a.parallelism()
                &&& b.peer_timeout() == a.peer_timeout()
            },
            _ => false,
        }
    }

    /// The iterator `after` is in the state of this iterator.
    pub open spec fn unchanged(self, after: Self) -> bool {
        match (self, after) {
            (QueryPeerIter::Closest(a), QueryPeerIter::Closest(b)) => a == b,
            (QueryPeerIter::ClosestDisjoint(a), QueryPeerIter::ClosestDisjoint(b)) => {
                &&& b.paths() == a.paths()
                &&& b.seen() == a.seen()
                &&& b.cursor() == a.cursor()
                &&& b.spec_target() == a.spec_target()
                &&& b.spec_config() == a.spec_config()
            },
            (QueryPeerIter::Fixed(a), QueryPeerIter::Fixed(b)) => {
                &&& b.candidates() == a.candidates()
                &&& b.finished() == a.finished()
                &&& b.parallelism() == a.parallelism()
                &&& b.peer_timeout() == a.peer_timeout()
            },
            _ => false,
        }
    }

    /// The iterator `after` is this iterator after it was ended: it is done,
    /// and holds the candidates that this iterator holds.
    pub open spec fn ends(self, after: Self) -> bool {
        match (self, after) {
            (QueryPeerIter::Closest(a), QueryPeerIter::Closest(b)) => {
                &&& b.spec_state() == IterState::Finished
                &&& b.candidates() == a.candidates()
                &&& b.spec_target() == a.spec_target()
                &&& b.spec_config() == a.spec_config()
            },
            (QueryPeerIter::ClosestDisjoint(a), QueryPeerIter::ClosestDisjoint(b)) => {
                &&& b.all_finished()
                &&& b.paths().len() == a.paths().len()
                &&& forall|q: int|
                    0 <= q < a.paths().len() ==> (#[trigger] b.paths()[q]).candidates()
                        == a.paths()[q].candidates()
                &&& b.seen() == a.seen()
                &&& b.cursor() == a.cursor()
                &&& b.spec_target() == a.spec_target()
                &&& b.spec_config() == a.spec_config()
            },
            (QueryPeerIter::Fixed(a), QueryPeerIter::Fixed(b)) => {
                &&& b.finished()
                &&& b.candidates() == a.candidates()
                &&& b.parallelism() == a.parallelism()
                &&& b.peer_timeout() == a.peer_timeout()
            },
            _ => false,
        }
    }

    /// An iterator that is ended gives the result that it would have given
    /// before.
    pub proof fn lemma_end_keeps_result(self, after: Self, r: Seq<Peer>)
        requires
            self.ends(after),
        ensures
            self.yields(r) <==> after.yields(r),
    {
        match (self, after) {
            (QueryPeerIter::ClosestDisjoint(a), QueryPeerIter::ClosestDisjoint(b)) => {
                let ka = crate::disjoint_peers::result_keys(a.paths(), 0);
                let kb = crate::disjoint_peers::result_keys(b.paths(), 0);
                assert forall|k: Key| ka.contains(k) <==> kb.contains(k) by {
                    if ka.contains(k) {
                        let (q, j) = choose|q: int, j: int|
                            0 <= q < a.paths().len() && 0 <= j < a.paths()[q].candidates().len()
                                && (
                            #[trigger] a.paths()[q].candidates()[j]).data is Succeeded
                                && a.paths()[q].candidates()[j].peer.key == k;
                        assert(b.paths()[q].candidates()[j].peer.key == k);
                    }
                    if kb.contains(k) {
                        let (q, j) = choose|q: int, j: int|
                            0 <= q < b.paths().len() && 0 <= j < b.paths()[q].candidates().len()
                                && (
                            #[trigger] b.paths()[q].candidates()[j]).data is Succeeded
                                && b.paths()[q].candidates()[j].peer.key == k;
                        assert(b.paths()[q].candidates() == a.paths()[q].candidates());
                        assert(a.paths()[q].candidates()[j].peer.key == k);
                    }
                }
                assert(ka =~= kb);
                assert forall|p: Peer|
                    crate::disjoint_peers::answered(a.paths(), p)
                        <==> crate::disjoint_peers::answered(b.paths(), p) by {
                    if crate::disjoint_peers::answered(a.paths(), p) {
                        let (q, x) = choose|q: int, x: int|
                            crate::disjoint_peers::answered_at(a.paths(), p, q, x);
                        assert(b.paths()[q].candidates() == a.paths()[q].candidates());
                        assert(crate::disjoint_peers::answered_at(b.paths(), p, q, x));
                    }
                    if crate::disjoint_peers::answered(b.paths(), p) {
                        let (q, x) = choose|q: int, x: int|
                            crate::disjoint_peers::answered_at(b.paths(), p, q, x);
                        assert(b.paths()[q].candidates() == a.paths()[q].candidates());
                        assert(crate::disjoint_peers::answered_at(a.paths(), p, q, x));
                    }
                }
            },
            _ => {},
        }
    }

    /// The result that the iterator gives when it is consumed in this state.
    pub open spec fn yields(self, r: Seq<Peer>) -> bool {
        match self {
            QueryPeerIter::Closest(it) => r == succeeded(it.candidates()),
            QueryPeerIter::ClosestDisjoint(it) => is_closest(
                crate::disjoint_peers::as_entries(r),
                crate::disjoint_peers::result_keys(it.paths(), 0),
                it.spec_target(),
                it.spec_config().num_results as nat,
            ) && forall|i: int|
                0 <= i < r.len() ==> crate::disjoint_peers::answered(it.paths(), #[trigger] r[i]),
            QueryPeerIter::Fixed(it) => r == succeeded(it.candidates()),
        }
    }

    /// Advances the iterator at time `now`.
    pub fn next(&mut self, now: u64) -> (r: PeersIterState)
        requires
            old(self).wf(),
        ensures
            final(self).wf(),
            old(self).step(now, *final(self), r),
    {
        match self {
            QueryPeerIter::Closest(it) => it.next(now),
            QueryPeerIter::ClosestDisjoint(it) => it.next(now),
            QueryPeerIter::Fixed(it) => it.next(now),
        }
    }

    /// Takes the answer of the peer at `peer`, which reports `closer_peers`.
    /// Returns whether the iterator was waiting for it; if not, nothing changes.
    pub fn on_success(&mut self, peer: &Key, closer_peers: &Vec<Peer>) -> (r: bool)
        requires
            old(self).wf(),
        ensures
            final(self).wf(),
            r == old(self).waits_for(*peer),
            r ==> old(self).succeeds(*peer, closer_peers@, *final(self)),
            !r ==> old(self).unchanged(*final(self)),
    {
        match self {
            QueryPeerIter::Closest(it) => it.on_success(peer, closer_peers),
            QueryPeerIter::ClosestDisjoint(it) => it.on_success(peer, closer_peers),
            QueryPeerIter::Fixed(it) => it.on_success(peer),
        }
    }

    /// Takes the failure of the request to the peer at `peer`. Returns whether
    /// the iterator was waiting for it; if not, nothing changes.
    pub fn on_failure(&mut self, peer: &Key) -> (r: bool)
        requires
            old(self).wf(),
        ensures
            final(self).wf(),
            r == old(self).waits_for(*peer),
            r ==> old(self).fails(*peer, *final(self)),
            !r ==> old(self).unchanged(*final(self)),
    {
        match self {
            QueryPeerIter::Closest(it) => it.on_failure(peer),
            QueryPeerIter::ClosestDisjoint(it) => it.on_failure(peer),
            QueryPeerIter::Fixed(it) => it.on_failure(peer),
        }
    }

    /// Ends the iteration: the iterator is done, and holds what it held.
    pub fn finish(&mut self)
        requires
            old(self).wf(),
        ensures
            final(self).wf(),
            final(self).finished(),
            old(self).ends(*final(self)),
    {
        match self {
            QueryPeerIter::Closest(it) => it.finish(),
            QueryPeerIter::ClosestDisjoint(it) => it.finish(),
            QueryPeerIter::Fixed(it) => it.finish(),
        }
    }

    /// Whether the iterator is done.
    pub fn is_finished(&self) -> (r: bool)
        ensures
            r == self.finished(),
    {
        match self {
            QueryPeerIter::Closest(it) => it.is_finished(),
            QueryPeerIter::ClosestDisjoint(it) => it.is_finished(),
            QueryPeerIter::Fixed(it) => it.is_finished(),
        }
    }

    /// The peers that answered.
    pub fn into_result(self) -> (r: Vec<Peer>)
        requires
            self.wf(),
        ensures
            self.yields(r@),
    {
        match self {
            QueryPeerIter::Closest(it) => it.into_result(),
            QueryPeerIter::ClosestDisjoint(it) => it.into_result(),
            QueryPeerIter::Fixed(it) => it.into_result(),
        }
    }
}

/// A query: a peer iterator with an identifier, statistics, and what the
/// owner of the query records about it.
pub struct Query<I> {
    pub id: QueryId,
    pub peers: QueryPeerIter,
    pub stats: QueryStats,
    pub info: I,
}

/// The result of a query that ended.
pub struct QueryResult<I> {
    /// The peers that answered.
    pub peers: Vec<Peer>,
    /// What the owner recorded about the query.
    pub info: I,
    /// The statistics of the query.
    pub stats: QueryStats,
}

/// The statistics after a step at `now` with result `r`: the first step is
/// the start of the query, and a peer that is handed out is a request.
pub open spec fn stats_after_step(s: QueryStats, now: u64, r: PeersIterState) -> QueryStats {
    QueryStats {
        start: if s.start is None {
            Some(now)
        } else {
            s.start
        },
        requests: if r matches PeersIterState::Waiting(Some(_)) {
            capped_sum(s.requests, 1)
        } else {
            s.requests
        },
        ..s
    }
}

/// One step at time `now` leads from query `a` to query `b` with result `r`.
pub open spec fn query_step<I>(a: Query<I>, now: u64, b: Query<I>, r: PeersIterState) -> bool {
    &&& a.peers.step(now, b.peers, r)
    &&& b.id == a.id
    &&& b.info == a.info
    &&& b.stats == stats_after_step(a.stats, now, r)
}

/// Whether a query that started has run for `timeout` or longer at `now`.
pub open spec fn timed_out(stats: QueryStats, timeout: u64, now: u64) -> bool {
    stats.start is Some && now >= stats.start->0 && now - stats.start->0 >= timeout
}

/// The query `q` as it leaves the pool at `now`.
pub open spec fn ended<I>(q: Query<I>, now: u64) -> Query<I> {
    Query { stats: QueryStats { end: Some(now), ..q.stats }, ..q }
}

impl<I> Query<I> {
    /// The iterator of the query is in order.
    pub open spec fn wf(self) -> bool {
        self.peers.wf()
    }

    /// A query that has not started.
    pub fn new(id: QueryId, peers: QueryPeerIter, info: I) -> (q: Self)
        ensures
            q == (Query { id, peers, stats: no_stats(), info }),
    {
        Query { id, peers, stats: QueryStats::empty(), info }
    }

    /// Advances the query at time `now`. The first step starts the clock of
    /// the query, and a peer that is handed out counts as a request.
    pub fn next(&mut self, now: u64) -> (r: PeersIterState)
        requires
            old(self).wf(),
        ensures
            final(self).wf(),
            query_step(*old(self), now, *final(self), r),
    {
        if self.stats.start.is_none() {
            self.stats.start = Some(now);
        }
        let r = self.peers.next(now);
        match r {
            PeersIterState::Waiting(Some(_)) => {
                self.stats.on_request();
            },
            _ => {},
        }
        r
    }

    /// Takes the answer of the peer at `peer`, which reports `closer_peers`.
    /// Returns whether the query was waiting for it; then it counts as a
    /// success. If not, nothing changes.
    pub fn on_success(&mut self, peer: &Key, closer_peers: &Vec<Peer>) -> (r: bool)
        requires
            old(self).wf(),
        ensures
            final(self).wf(),
            r == old(self).peers.waits_for(*peer),
            r ==> old(self).peers.succeeds(*peer, closer_peers@, final(self).peers),
            !r ==> old(self).peers.unchanged(final(self).peers),
            final(self).id == old(self).id,
            final(self).info == old(self).info,
            final(self).stats == if r {
                QueryStats { success: capped_sum(old(self).stats.success, 1), ..old(self).stats }
            } else {
                old(self).stats
            },
    {
        let r = self.peers.on_success(peer, closer_peers);
        if r {
            self.stats.on_success();
        }
        r
    }

    /// Takes the failure of the request to the peer at `peer`. Returns whether
    /// the query was waiting for it; then it counts as a failure. If not,
    /// nothing changes.
    pub fn on_failure(&mut self, peer: &Key) -> (r: bool)
        requires
            old(self).wf(),
        ensures
            final(self).wf(),
            r == old(self).peers.waits_for(*peer),
            r ==> old(self).peers.fails(*peer, final(self).peers),
            !r ==> old(self).peers.unchanged(final(self).peers),
            final(self).id == old(self).id,
            final(self).info == old(self).info,
            final(self).stats == if r {
                QueryStats { failure: capped_sum(old(self).stats.failure, 1), ..old(self).stats }
            } else {
                old(self).stats
            },
    {
        let r = self.peers.on_failure(peer);
        if r {
            self.stats.on_failure();
        }
        r
    }

    /// Ends the query: the next poll of the pool reports it as finished.
    pub fn finish(&mut self)
        requires
            old(self).wf(),
        ensures
            final(self).wf(),
            final(self).peers.finished(),
            old(self).peers.ends(final(self).peers),
            final(self).id == old(self).id,
            final(self).info == old(self).info,
            final(self).stats == old(self).stats,
    {
        self.peers.finish();
    }

    /// Whether the query is done.
    pub fn is_finished(&self) -> (r: bool)
        ensures
            r == self.peers.finished(),
    {
        self.peers.is_finished()
    }

    /// Whether the query has run for `timeout` or longer at `now`.
    pub fn is_timed_out(&self, timeout: u64, now: u64) -> (r: bool)
        ensures
            r == timed_out(self.stats, timeout, now),
    {
        match self.stats.start {
            Some(start) => now >= start && now - start >= timeout,
            None => false,
        }
    }

    /// The peers that answered, what the owner recorded, and the statistics.
    pub fn into_result(self) -> (r: QueryResult<I>)
        requires
            self.wf(),
        ensures
            self.peers.yields(r.peers@),
            r.info == self.info,
            r.stats == self.stats,
    {
        QueryResult { peers: self.peers.into_result(), info: self.info, stats: self.stats }
    }
}

/// The answer of the peer at `key`, which reports `closer`, leads from
/// query `a`, which waits for it, to query `b`.
pub open spec fn query_succeeds<I>(a: Query<I>, key: Key, closer: Seq<Peer>, b: Query<I>) -> bool {
    &&& a.peers.succeeds(key, closer, b.peers)
    &&& b.id == a.id
    &&& b.info == a.info
    &&& b.stats == QueryStats { success: capped_sum(a.stats.success, 1), ..a.stats }
}

/// The failure of the request to the peer at `key` leads from query `a`,
/// which waits for it, to query `b`.
pub open spec fn query_fails<I>(a: Query<I>, key: Key, b: Query<I>) -> bool {
    &&& a.peers.fails(key, b.peers)
    &&& b.id == a.id
    &&& b.info == a.info
    &&& b.stats == QueryStats { failure: capped_sum(a.stats.failure, 1), ..a.stats }
}

/// Query `b` is query `a` after the request to the peer at `key` has failed,
/// or in the state of query `a` if that query did not wait for the peer.
pub open spec fn failed_or_same<I>(a: Query<I>, key: Key, b: Query<I>) -> bool {
    if a.peers.waits_for(key) {
        query_fails(a, key, b)
    } else {
        query_same(a, b)
    }
}

/// Query `b` is in the state of query `a`.
pub open spec fn query_same<I>(a: Query<I>, b: Query<I>) -> bool {
    &&& a.peers.unchanged(b.peers)
    &&& b.id == a.id
    &&& b.info == a.info
    &&& b.stats == a.stats
}

/// The parameters of the queries of a pool.
#[derive(Clone, Copy, Debug, PartialEq, Eq)]
pub struct QueryConfig {
    /// The time after which a query is ended whatever its state.
    pub timeout: u64,
    /// The number of peers that a record is replicated to.
    pub replication_factor: usize,
    /// The largest number of requests of a query in flight at a time.
    pub parallelism: usize,
    /// Whether lookups run over disjoint paths.
    pub disjoint_query_paths: bool,
    /// The time after which a request without an answer has failed.
    pub peer_timeout: u64,
}

impl QueryConfig {
    /// A usable configuration replicates to a peer at least and to a
    /// bucket's worth of peers at most, and allows as many requests in
    /// flight.
    pub open spec fn valid(self) -> bool {
        &&& 1 <= self.replication_factor <= crate::config::K_VALUE
        &&& 1 <= self.parallelism <= crate::config::K_VALUE
    }

    /// Whether the configuration is usable.
    pub fn is_valid(&self) -> (r: bool)
        ensures
            r == self.valid(),
    {
        1 <= self.replication_factor && self.replication_factor <= crate::config::K_VALUE && 1
            <= self.parallelism && self.parallelism <= crate::config::K_VALUE
    }
}

impl Default for QueryConfig {
    fn default() -> (c: Self)
        ensures
            c == (QueryConfig {
                timeout: 60,
                replication_factor: 20,
                parallelism: 3,
                disjoint_query_paths: false,
                peer_timeout: 10,
            }),
    {
        QueryConfig {
            timeout: 60,
            replication_factor: 20,
            parallelism: 3,
            disjoint_query_paths: false,
            peer_timeout: 10,
        }
    }
}

/// What a poll of the pool reports.
pub enum QueryPoolState<I> {
    /// The pool holds no query.
    Idle,
    /// A query waits for results; the given peer, if any, is to be sent a
    /// request of the given query.
    Waiting(Option<(QueryId, Peer)>),
    /// A query is done and has left the pool.
    Finished(Query<I>),
    /// A query has run out of time and has left the pool.
    Timeout(Query<I>),
}

/// A query that took a step with result `r` lets the poll go on to the next:
/// it handed out no peer, is not done and has time left.
pub open spec fn passes(stats: QueryStats, r: PeersIterState, timeout: u64, now: u64) -> bool {
    quiet(r) && r != PeersIterState::Finished && !timed_out(stats, timeout, now)
}

/// One poll of the pool at time `now`: the queries take a step each, in their
/// order, up to the first that hands out a peer, is done or has run out of
/// time. A query that is done or out of time leaves the pool.
pub open spec fn pool_step<I>(
    before: Seq<Query<I>>,
    timeout: u64,
    now: u64,
    after: Seq<Query<I>>,
    r: QueryPoolState<I>,
) -> bool {
    if before.len() == 0 {
        r is Idle && after == before
    } else {
        exists|stepped: Seq<Query<I>>, rs: Seq<PeersIterState>|
            #![trigger stepped.len(), rs.len()]
            {
                &&& stepped.len() == before.len()
                &&& 1 <= rs.len() <= before.len()
                &&& forall|j: int|
                    0 <= j < rs.len() ==> query_step(before[j], now, #[trigger] stepped[j], rs[j])
                &&& forall|j: int| rs.len() <= j < before.len() ==> #[trigger] stepped[j]
                    == before[j]
                &&& forall|j: int|
                    0 <= j < rs.len() - 1 ==> passes(
                        (#[trigger] stepped[j]).stats,
                        rs[j],
                        timeout,
                        now,
                    )
                &&& {
                    let m = rs.len() - 1;
                    match r {
                        QueryPoolState::Idle => false,
                        QueryPoolState::Waiting(None) => rs.len() == before.len() && passes(
                            stepped[m].stats,
                            rs[m],
                            timeout,
                            now,
                        ) && after == stepped,
                        QueryPoolState::Waiting(Some((id, peer))) => rs[m]
                            == PeersIterState::Waiting(Some(peer)) && id == stepped[m].id && after
                            == stepped,
                        QueryPoolState::Finished(q) => rs[m] == PeersIterState::Finished && q
                            == ended(stepped[m], now) && after == stepped.remove(m),
                        QueryPoolState::Timeout(q) => quiet(rs[m]) && rs[m]
                            != PeersIterState::Finished && timed_out(stepped[m].stats, timeout, now)
                            && q == ended(stepped[m], now) && after == stepped.remove(m),
                    }
                }
            }
    }
}

/// The queries `after` are the queries `before` with the query `id` ended:
/// its iterator is done and holds what it held, and nothing else changed.
pub open spec fn with_ended<I>(before: Seq<Query<I>>, id: QueryId, after: Seq<Query<I>>) -> bool {
    exists|i: int|
        #![trigger before[i]]
        {
            &&& query_at(before, id, i)
            &&& after.len() == before.len()
            &&& after[i].peers.finished()
            &&& before[i].peers.ends(after[i].peers)
            &&& after[i].id == id
            &&& after[i].info == before[i].info
            &&& after[i].stats == before[i].stats
            &&& forall|j: int| 0 <= j < before.len() && j != i ==> #[trigger] after[j] == before[j]
        }
}

/// Some query of `queries` has the identifier `id`.
pub open spec fn has_id<I>(queries: Seq<Query<I>>, id: QueryId) -> bool {
    exists|i: int| query_at(queries, id, i)
}

/// The query `id` is among `queries` and waits for the answer of the peer
/// at `key`.
pub open spec fn waits<I>(queries: Seq<Query<I>>, id: QueryId, key: Key) -> bool {
    exists|i: int| query_at(queries, id, i) && queries[i].peers.waits_for(key)
}

/// An iterator waits for the peer that its step has handed out.
pub proof fn lemma_handed_out_is_awaited(
    before: QueryPeerIter,
    now: u64,
    after: QueryPeerIter,
    peer: Peer,
)
    requires
        before.step(now, after, PeersIterState::Waiting(Some(peer))),
    ensures
        after.waits_for(peer.key),
{
    match (before, after) {
        (QueryPeerIter::Closest(a), QueryPeerIter::Closest(b)) => {
            lemma_path_awaits(a, now, b, peer);
        },
        (QueryPeerIter::ClosestDisjoint(a), QueryPeerIter::ClosestDisjoint(b)) => {
            let rs = choose|rs: Seq<PeersIterState>|
                #![trigger rs.len()]
                {
                    &&& b.paths().len() == a.paths().len()
                    &&& 1 <= rs.len() <= a.paths().len()
                    &&& forall|i: int|
                        0 <= i < rs.len() ==> path_step(a.paths()[i], now, #[trigger] b.paths()[i],
                            rs[i])
                    &&& forall|i: int| 0 <= i < rs.len() - 1 ==> quiet(#[trigger] rs[i])
                    &&& if quiet(rs.last()) {
                        rs.len() == a.paths().len() && PeersIterState::Waiting(Some(peer))
                            == crate::disjoint_peers::combined(rs)
                    } else {
                        PeersIterState::Waiting(Some(peer)) == rs.last()
                    }
                };
            let m = rs.len() - 1;
            assert(rs[m] == PeersIterState::Waiting(Some(peer)));
            assert(path_step(a.paths()[m], now, b.paths()[m], rs[m]));
            lemma_path_awaits(a.paths()[m], now, b.paths()[m], peer);
            let i = choose|i: int| waiting_at(b.paths()[m].candidates(), peer.key, i);
            assert(crate::disjoint_peers::path_waiting(b.paths()[m], peer.key, i));
        },
        (QueryPeerIter::Fixed(a), QueryPeerIter::Fixed(b)) => {
            let s = crate::candidates::expired(a.candidates(), now);
            let i = choose|i: int|
                #![trigger s[i]]
                crate::candidates::first_not_contacted(s, i) && b.candidates() == with_state(
                    s,
                    i,
                    PeerState::Waiting(
                        crate::candidates::deadline_after(now, a.peer_timeout()),
                    ),
                ) && PeersIterState::Waiting(Some(peer)) == PeersIterState::Waiting(
                    Some(s[i].peer),
                );
            assert(waiting_at(b.candidates(), peer.key, i));
        },
        _ => {},
    }
}

/// A closest-peers iterator waits for the peer that its step has handed out.
pub proof fn lemma_path_awaits(a: ClosestPeersIter, now: u64, b: ClosestPeersIter, peer: Peer)
    requires
        path_step(a, now, b, PeersIterState::Waiting(Some(peer))),
    ensures
        b.spec_state() != IterState::Finished,
        exists|i: int| waiting_at(b.candidates(), peer.key, i),
{
    let s = crate::candidates::expired(a.candidates(), now);
    let i = choose|i: int|
        #![trigger s[i]]
        crate::candidates::first_not_contacted(s, i) && b.candidates() == with_state(
            s,
            i,
            PeerState::Waiting(crate::candidates::deadline_after(now,
                a.spec_config().peer_timeout)),
        ) && b.spec_state() == IterState::Iterating && PeersIterState::Waiting(Some(peer))
            == PeersIterState::Waiting(Some(s[i].peer));
    assert(waiting_at(b.candidates(), peer.key, i));
}

/// Some query of `queries` records `info`.
pub open spec fn info_among<I>(queries: Seq<Query<I>>, info: I) -> bool {
    exists|j: int| 0 <= j < queries.len() && (#[trigger] queries[j]).info == info
}

/// Each query of `after` records what some query of `before` records, under
/// the same identifier.
pub open spec fn infos_kept<I>(before: Seq<Query<I>>, after: Seq<Query<I>>) -> bool {
    forall|i: int|
        0 <= i < after.len() ==> exists|j: int|
            0 <= j < before.len() && (#[trigger] before[j]).info == (#[trigger] after[i]).info
                && before[j].id == after[i].id
}

/// Position `i` holds the query with identifier `id`.
pub open spec fn query_at<I>(s: Seq<Query<I>>, id: QueryId, i: int) -> bool {
    0 <= i < s.len() && s[i].id == id
}

/// The identifiers of the queries are distinct and below `next_id`, and every
/// query is in order.
pub open spec fn queries_wf<I>(s: Seq<Query<I>>, next_id: usize) -> bool {
    &&& forall|i: int| 0 <= i < s.len() ==> (#[trigger] s[i]).wf() && s[i].id.0 < next_id
    &&& forall|i: int, j: int|
        0 <= i < s.len() && 0 <= j < s.len() && i != j ==> (#[trigger] s[i]).id != (
        #[trigger] s[j]).id
}

/// The pool of the queries that are under way.
pub struct QueryPool<I> {
    next_id: usize,
    config: QueryConfig,
    queries: Vec<Query<I>>,
}

impl<I> QueryPool<I> {
    /// The queries of the pool, in the order in which they are polled.
    pub closed spec fn queries(self) -> Seq<Query<I>> {
        self.queries@
    }

    /// The identifier that the next new query gets.
    pub closed spec fn next_id(self) -> usize {
        self.next_id
    }

    /// The parameters of the queries.
    pub closed spec fn config(self) -> QueryConfig {
        self.config
    }

    /// The pool is in order: see `queries_wf`.
    pub open spec fn wf(self) -> bool {
        queries_wf(self.queries(), self.next_id()) && self.config().valid()
    }

    /// Whether a query with identifier `id` is in the pool.
    pub open spec fn contains(self, id: QueryId) -> bool {
        has_id(self.queries(), id)
    }

    /// An empty pool.
    pub fn new(config: QueryConfig) -> (p: Self)
        requires
            config.valid(),
        ensures
            p.wf(),
            p.queries() == Seq::<Query<I>>::empty(),
            p.next_id() == 0,
            p.config() == config,
    {
        QueryPool { next_id: 0, config, queries: Vec::new() }
    }

    /// The parameters of the queries.
    pub fn get_config(&self) -> (c: QueryConfig)
        ensures
            c == self.config(),
    {
        self.config
    }

    /// Whether the pool can give out another identifier.
    pub fn has_identifiers(&self) -> (r: bool)
        ensures
            r == (self.next_id() < usize::MAX),
    {
        self.next_id < usize::MAX
    }

    /// The number of queries in the pool.
    pub fn size(&self) -> (n: usize)
        ensures
            n == self.queries().len(),
    {
        self.queries.len()
    }

    /// The position of the query with identifier `id`.
    pub fn position(&self, id: QueryId) -> (r: Option<usize>)
        ensures
            r is Some ==> query_at(self.queries(), id, r->0 as int),
            r is None ==> !self.contains(id),
    {
        let n = self.queries.len();
        let mut i: usize = 0;
        while i < n
            invariant
                0 <= i <= n,
                n == self.queries@.len(),
                forall|j: int| 0 <= j < i ==> !query_at(self.queries@, id, j),
            decreases n - i,
        {
            if self.queries[i].id.0 == id.0 {
                return Some(i);
            }
            i += 1;
        }
        None
    }

    /// The query with identifier `id`, if it is in the pool.
    pub fn get(&self, id: QueryId) -> (r: Option<&Query<I>>)
        ensures
            r is Some <==> self.contains(id),
            r is Some ==> exists|i: int| query_at(self.queries(), id, i)
                && *r->0 == self.queries()[i],
    {
        match self.position(id) {
            Some(i) => {
                assert(query_at(self.queries(), id, i as int));
                Some(&self.queries[i])
            },
            None => None,
        }
    }

    /// The query at position `i`.
    pub fn query(&self, i: usize) -> (q: &Query<I>)
        requires
            i < self.queries().len(),
        ensures
            *q == self.queries()[i as int],
    {
        &self.queries[i]
    }

    /// Adds a query with a fresh identifier over the given iterator.
    pub fn add(&mut self, peers: QueryPeerIter, info: I) -> (id: QueryId)
        requires
            old(self).wf(),
            peers.wf(),
            old(self).next_id() < usize::MAX,
        ensures
            final(self).wf(),
            id == QueryId(old(self).next_id()),
            !old(self).contains(id),
            final(self).next_id() == old(self).next_id() + 1,
            final(self).config() == old(self).config(),
            final(self).queries() == old(self).queries().push(
                Query { id, peers, stats: no_stats(), info },
            ),
    {
        let id = QueryId(self.next_id);
        self.next_id = self.next_id + 1;
        self.queries.push(Query::new(id, peers, info));
        proof {
            let before = old(self).queries();
            let after = self.queries@;
            assert forall|i: int| !query_at(before, id, i) by {}
            assert forall|i: int, j: int|
                0 <= i < after.len() && 0 <= j < after.len() && i != j implies (
            #[trigger] after[i]).id != (#[trigger] after[j]).id by {
                if i < before.len() {
                    assert(after[i] == before[i]);
                }
                if j < before.len() {
                    assert(after[j] == before[j]);
                }
            }
            assert forall|i: int| 0 <= i < after.len() implies (#[trigger] after[i]).wf()
                && after[i].id.0 < self.next_id by {
                if i < before.len() {
                    assert(after[i] == before[i]);
                }
            }
        }
        id
    }

    /// Adds a query under an identifier that the pool gave out before and
    /// that no query of the pool has now: the next phase of a query that left.
    pub fn continue_with(&mut self, id: QueryId, peers: QueryPeerIter, info: I)
        requires
            old(self).wf(),
            peers.wf(),
            id.0 < old(self).next_id(),
            !old(self).contains(id),
        ensures
            final(self).wf(),
            final(self).next_id() == old(self).next_id(),
            final(self).config() == old(self).config(),
            final(self).queries() == old(self).queries().push(
                Query { id, peers, stats: no_stats(), info },
            ),
    {
        self.queries.push(Query::new(id, peers, info));
        proof {
            let before = old(self).queries();
            let after = self.queries@;
            assert forall|i: int, j: int|
                0 <= i < after.len() && 0 <= j < after.len() && i != j implies (
            #[trigger] after[i]).id != (#[trigger] after[j]).id by {
                if i < before.len() {
                    assert(after[i] == before[i]);
                    assert(!query_at(before, id, i));
                }
                if j < before.len() {
                    assert(after[j] == before[j]);
                    assert(!query_at(before, id, j));
                }
            }
            assert forall|i: int| 0 <= i < after.len() implies (#[trigger] after[i]).wf()
                && after[i].id.0 < self.next_id by {
                if i < before.len() {
                    assert(after[i] == before[i]);
                }
            }
        }
    }

    /// Takes the answer of the peer at `peer` to a request of query `id`.
    /// Returns whether that query is in the pool and was waiting for the
    /// answer; if not, no query changes.
    pub fn on_success(&mut self, id: QueryId, peer: &Key, closer_peers: &Vec<Peer>) -> (r: bool)
        requires
            old(self).wf(),
        ensures
            final(self).wf(),
            final(self).next_id() == old(self).next_id(),
            final(self).config() == old(self).config(),
            final(self).queries().len() == old(self).queries().len(),
            r == exists|i: int|
                query_at(old(self).queries(), id, i) && old(self).queries()[i].peers.waits_for(
                    *peer,
                ),
            r ==> exists|i: int|
                #![trigger old(self).queries()[i]]
                query_at(old(self).queries(), id, i) && query_succeeds(
                    old(self).queries()[i],
                    *peer,
                    closer_peers@,
                    final(self).queries()[i],
                ) && forall|j: int|
                    0 <= j < old(self).queries().len()
                        && j != i ==> #[trigger] final(self).queries()[j] == old(self).queries()[j],
            !r ==> forall|j: int|
                0 <= j < old(self).queries().len() ==> query_same(
                    old(self).queries()[j],
                    #[trigger] final(self).queries()[j],
                ),
    {
        let ghost before = self.queries@;
        match self.position(id) {
            None => {
                proof {
                    assert forall|i: int| !query_at(before, id, i) by {
                        if query_at(before, id, i) {
                            assert(self.contains(id));
                        }
                    }
                }
                false
            },
            Some(i) => {
                let r = self.queries[i].on_success(peer, closer_peers);
                proof {
                    lemma_ids_after_step(before, self.queries@, self.next_id);
                    assert forall|x: int| query_at(before, id, x) implies x == i by {}
                    if r {
                        assert(query_at(before, id, i as int));
                        assert(query_succeeds(
                            before[i as int],
                            *peer,
                            closer_peers@,
                            self.queries@[i as int],
                        ));
                    }
                }
                r
            },
        }
    }

    /// Takes the failure of a request of query `id` to the peer at `peer`.
    /// Returns whether that query is in the pool and was waiting for the
    /// peer; if not, no query changes.
    pub fn on_failure(&mut self, id: QueryId, peer: &Key) -> (r: bool)
        requires
            old(self).wf(),
        ensures
            final(self).wf(),
            final(self).next_id() == old(self).next_id(),
            final(self).config() == old(self).config(),
            final(self).queries().len() == old(self).queries().len(),
            r == exists|i: int|
                query_at(old(self).queries(), id, i) && old(self).queries()[i].peers.waits_for(
                    *peer,
                ),
            r ==> exists|i: int|
                #![trigger old(self).queries()[i]]
                query_at(old(self).queries(), id, i) && query_fails(
                    old(self).queries()[i],
                    *peer,
                    final(self).queries()[i],
                ) && forall|j: int|
                    0 <= j < old(self).queries().len()
                        && j != i ==> #[trigger] final(self).queries()[j] == old(self).queries()[j],
            !r ==> forall|j: int|
                0 <= j < old(self).queries().len() ==> query_same(
                    old(self).queries()[j],
                    #[trigger] final(self).queries()[j],
                ),
    {
        let ghost before = self.queries@;
        match self.position(id) {
            None => {
                proof {
                    assert forall|i: int| !query_at(before, id, i) by {
                        if query_at(before, id, i) {
                            assert(self.contains(id));
                        }
                    }
                }
                false
            },
            Some(i) => {
                let r = self.queries[i].on_failure(peer);
                proof {
                    lemma_ids_after_step(before, self.queries@, self.next_id);
                    assert forall|x: int| query_at(before, id, x) implies x == i by {}
                    if r {
                        assert(query_at(before, id, i as int));
                        assert(query_fails(before[i as int], *peer, self.queries@[i as int]));
                    }
                }
                r
            },
        }
    }

    /// Takes the failure of every request to the peer at `peer` that is in
    /// flight, of whatever query.
    pub fn fail_peer(&mut self, peer: &Key)
        requires
            old(self).wf(),
        ensures
            final(self).wf(),
            final(self).next_id() == old(self).next_id(),
            final(self).config() == old(self).config(),
            final(self).queries().len() == old(self).queries().len(),
            forall|i: int|
                0 <= i < old(self).queries().len() ==> failed_or_same(
                    old(self).queries()[i],
                    *peer,
                    #[trigger] final(self).queries()[i],
                ),
    {
        let ghost start = self.queries@;
        let n = self.queries.len();
        let mut i: usize = 0;
        while i < n
            invariant
                0 <= i <= n,
                n == start.len(),
                self.queries@.len() == n,
                self.next_id == old(self).next_id,
                self.config == old(self).config,
                start == old(self).queries@,
                old(self).wf(),
                forall|j: int| 0 <= j < n ==> (#[trigger] self.queries@[j]).wf(),
                forall|j: int|
                    0 <= j < i ==> failed_or_same(start[j], *peer, #[trigger] self.queries@[j]),
                forall|j: int| i <= j < n ==> #[trigger] self.queries@[j] == start[j],
            decreases n - i,
        {
            self.queries[i].on_failure(peer);
            i += 1;
        }
        proof {
            assert forall|j: int| 0 <= j < n implies (#[trigger] self.queries@[j]).id
                == start[j].id by {
                assert(failed_or_same(start[j], *peer, self.queries@[j]));
            }
            lemma_ids_after_step(start, self.queries@, self.next_id);
        }
    }

    /// Ends query `id`: the next poll reports it as finished. Returns whether
    /// the query is in the pool.
    pub fn finish(&mut self, id: QueryId) -> (r: bool)
        requires
            old(self).wf(),
        ensures
            final(self).wf(),
            final(self).next_id() == old(self).next_id(),
            final(self).config() == old(self).config(),
            final(self).queries().len() == old(self).queries().len(),
            r == old(self).contains(id),
            r ==> with_ended(old(self).queries(), id, final(self).queries()),
            !r ==> final(self).queries() == old(self).queries(),
    {
        let ghost before = self.queries@;
        match self.position(id) {
            None => false,
            Some(i) => {
                self.queries[i].finish();
                proof {
                    lemma_ids_after_step(before, self.queries@, self.next_id);
                    assert(query_at(before, id, i as int));
                }
                true
            },
        }
    }

    /// Puts `info` in the place of what query `id` records. Returns what the
    /// query recorded before, or `info` itself if the query is not in the pool.
    pub fn replace_info(&mut self, id: QueryId, info: I) -> (r: Result<I, I>)
        requires
            old(self).wf(),
        ensures
            final(self).wf(),
            final(self).next_id() == old(self).next_id(),
            final(self).config() == old(self).config(),
            final(self).queries().len() == old(self).queries().len(),
            r is Ok == old(self).contains(id),
            r is Err ==> r->Err_0 == info && final(self).queries() == old(self).queries(),
            r is Ok ==> exists|i: int|
                #![trigger old(self).queries()[i]]
                query_at(old(self).queries(), id, i) && r->Ok_0 == old(self).queries()[i].info
                    && final(self).queries() == old(self).queries().update(
                    i,
                    Query { info, ..old(self).queries()[i] },
                ),
    {
        let ghost before = self.queries@;
        match self.position(id) {
            None => Err(info),
            Some(i) => {
                let q = self.queries.remove(i);
                let Query { id: qid, peers, stats, info: previous } = q;
                self.queries.insert(i, Query { id: qid, peers, stats, info });
                proof {
                    assert(self.queries@ =~= before.update(i as int, Query { info,
                        ..before[i as int] }));
                    lemma_ids_after_step(before, self.queries@, self.next_id);
                    assert(query_at(before, id, i as int));
                }
                Ok(previous)
            },
        }
    }

    /// Polls the pool at time `now`.
    pub fn poll(&mut self, now: u64) -> (r: QueryPoolState<I>)
        requires
            old(self).wf(),
        ensures
            final(self).wf(),
            final(self).next_id() == old(self).next_id(),
            final(self).config() == old(self).config(),
            pool_step(
                old(self).queries(),
                old(self).config().timeout,
                now,
                final(self).queries(),
                r,
            ),
            r matches QueryPoolState::Finished(q) ==> q.wf() && old(self).contains(q.id)
                && !final(self).contains(q.id) && q.id.0 < final(self).next_id(),
            r matches QueryPoolState::Timeout(q) ==> q.wf() && old(self).contains(q.id)
                && !final(self).contains(q.id) && q.id.0 < final(self).next_id(),
            r matches QueryPoolState::Waiting(Some((id, _))) ==> final(self).contains(id),
            r matches QueryPoolState::Waiting(Some((id, peer))) ==> waits(
                final(self).queries(),
                id,
                peer.key,
            ),
            final(self).queries().len() <= old(self).queries().len(),
            forall|id: QueryId| #[trigger] final(self).contains(id) ==> old(self).contains(id),
            infos_kept(old(self).queries(), final(self).queries()),
            r matches QueryPoolState::Finished(q) ==> info_among(old(self).queries(), q.info),
            r matches QueryPoolState::Timeout(q) ==> info_among(old(self).queries(), q.info),
    {
        let ghost start = self.queries@;
        let n = self.queries.len();
        if n == 0 {
            proof {
                lemma_infos_same(start, start);
            }
            return QueryPoolState::Idle;
        }
        let timeout = self.config.timeout;
        let ghost mut rs: Seq<PeersIterState> = Seq::empty();
        let mut i: usize = 0;
        while i < n
            invariant
                0 <= i <= n,
                n >= 1,
                n == start.len(),
                self.queries@.len() == n,
                rs.len() == i,
                timeout == self.config.timeout,
                self.next_id == old(self).next_id,
                self.config == old(self).config,
                start == old(self).queries@,
                old(self).wf(),
                queries_wf(start, self.next_id),
                forall|j: int| 0 <= j < n ==> (#[trigger] self.queries@[j]).wf(),
                forall|j: int|
                    0 <= j < i ==> query_step(start[j], now, #[trigger] self.queries@[j], rs[j]),
                forall|j: int|
                    0 <= j < i ==> passes((#[trigger] self.queries@[j]).stats, rs[j], timeout, now),
                forall|j: int| i <= j < n ==> #[trigger] self.queries@[j] == start[j],
            decreases n - i,
        {
            let ghost prev = rs;
            let r = self.queries[i].next(now);
            proof {
                rs = rs.push(r);
                assert forall|j: int| 0 <= j < i + 1 implies query_step(
                    start[j],
                    now,
                    #[trigger] self.queries@[j],
                    rs[j],
                ) by {
                    if j < i {
                        assert(rs[j] == prev[j]);
                    }
                }
                assert forall|j: int| 0 <= j < i implies passes(
                    (#[trigger] self.queries@[j]).stats,
                    rs[j],
                    timeout,
                    now,
                ) by {
                    assert(rs[j] == prev[j]);
                }
            }
            let ghost stepped = self.queries@;
            match r {
                PeersIterState::Finished => {
                    let mut q = self.queries.remove(i);
                    q.stats.end = Some(now);
                    proof {
                        lemma_ids_after_step(start, stepped, self.next_id);
                        lemma_removed_wf(stepped, i as int, self.next_id);
                        assert(q == ended(stepped[i as int], now));
                        assert(stepped.len() == start.len() && rs.len() == i + 1);
                        assert(pool_step(
                            start,
                            timeout,
                            now,
                            self.queries@,
                            QueryPoolState::Finished(q),
                        ));
                        assert(query_at(start, q.id, i as int));
                        assert(start[i as int].info == q.info);
                        lemma_infos_after_removal(start, stepped, i as int);
                        lemma_contained(start, self.queries@);
                    }
                    return QueryPoolState::Finished(q);
                },
                PeersIterState::Waiting(Some(peer)) => {
                    proof {
                        lemma_ids_after_step(start, stepped, self.next_id);
                    }
                    let id = self.queries[i].id;
                    proof {
                        lemma_infos_same(start, stepped);
                        lemma_contained(start, self.queries@);
                        assert(query_at(self.queries@, id, i as int));
                        lemma_handed_out_is_awaited(
                            start[i as int].peers,
                            now,
                            stepped[i as int].peers,
                            peer,
                        );
                        assert(stepped.len() == start.len() && rs.len() == i + 1);
                        assert(pool_step(
                            start,
                            timeout,
                            now,
                            self.queries@,
                            QueryPoolState::Waiting::<I>(Some((id, peer))),
                        ));
                    }
                    return QueryPoolState::Waiting(Some((id, peer)));
                },
                _ => {
                    if self.queries[i].is_timed_out(timeout, now) {
                        let mut q = self.queries.remove(i);
                        q.stats.end = Some(now);
                        proof {
                            lemma_ids_after_step(start, stepped, self.next_id);
                            lemma_removed_wf(stepped, i as int, self.next_id);
                            assert(q == ended(stepped[i as int], now));
                            assert(stepped.len() == start.len() && rs.len() == i + 1);
                            assert(pool_step(
                                start,
                                timeout,
                                now,
                                self.queries@,
                                QueryPoolState::Timeout(q),
                            ));
                            assert(query_at(start, q.id, i as int));
                            assert(start[i as int].info == q.info);
                            lemma_infos_after_removal(start, stepped, i as int);
                            lemma_contained(start, self.queries@);
                        }
                        return QueryPoolState::Timeout(q);
                    }
                },
            }
            i += 1;
        }
        proof {
            lemma_ids_after_step(start, self.queries@, self.next_id);
            assert(rs.len() == n);
            lemma_infos_same(start, self.queries@);
            lemma_contained(start, self.queries@);
        }
        QueryPoolState::Waiting(None)
    }
}

/// Queries that took steps keep their identifiers, so a pool in order stays
/// in order.
pub proof fn lemma_ids_after_step<I>(before: Seq<Query<I>>, after: Seq<Query<I>>, next_id: usize)
    requires
        queries_wf(before, next_id),
        after.len() == before.len(),
        forall|j: int| 0 <= j < after.len() ==> (#[trigger] after[j]).wf(),
        forall|j: int| 0 <= j < after.len() ==> (#[trigger] after[j]).id == before[j].id,
    ensures
        queries_wf(after, next_id),
{
    assert forall|i: int, j: int|
        0 <= i < after.len() && 0 <= j < after.len() && i != j implies (#[trigger] after[i]).id != (
    #[trigger] after[j]).id by {
        assert(after[i].id == before[i].id);
        assert(after[j].id == before[j].id);
    }
}

/// A pool in order without one of its queries is in order.
pub proof fn lemma_removed_wf<I>(s: Seq<Query<I>>, i: int, next_id: usize)
    requires
        queries_wf(s, next_id),
        0 <= i < s.len(),
    ensures
        queries_wf(s.remove(i), next_id),
        forall|j: int| !query_at(s.remove(i), s[i].id, j),
{
    let t = s.remove(i);
    assert forall|a: int| 0 <= a < t.len() implies (#[trigger] t[a]).wf()
        && t[a].id.0 < next_id by {
        let a2 = if a < i { a } else { a + 1 };
        assert(t[a] == s[a2]);
    }
    assert forall|a: int, b: int| 0 <= a < t.len() && 0 <= b < t.len() && a != b implies (
    #[trigger] t[a]).id != (#[trigger] t[b]).id by {
        let a2 = if a < i { a } else { a + 1 };
        let b2 = if b < i { b } else { b + 1 };
        assert(t[a] == s[a2]);
        assert(t[b] == s[b2]);
    }
    assert forall|j: int| !query_at(t, s[i].id, j) by {
        if 0 <= j < t.len() {
            let j2 = if j < i { j } else { j + 1 };
            assert(t[j] == s[j2]);
        }
    }
}

/// Queries that kept their records and identifiers, position for position.
pub proof fn lemma_infos_same<I>(before: Seq<Query<I>>, after: Seq<Query<I>>)
    requires
        after.len() == before.len(),
        forall|j: int|
            0 <= j < before.len() ==> (#[trigger] after[j]).info == before[j].info && after[j].id
                == before[j].id,
    ensures
        infos_kept(before, after),
{
    assert forall|i: int| 0 <= i < after.len() implies exists|j: int|
        0 <= j < before.len() && (#[trigger] before[j]).info == (#[trigger] after[i]).info
            && before[j].id == after[i].id by {
        assert(before[i].info == after[i].info);
    }
}

/// Queries that kept their records and identifiers, of which one left.
pub proof fn lemma_infos_after_removal<I>(before: Seq<Query<I>>, stepped: Seq<Query<I>>, m: int)
    requires
        stepped.len() == before.len(),
        0 <= m < before.len(),
        forall|j: int|
            0 <= j < before.len() ==> (#[trigger] stepped[j]).info == before[j].info
                && stepped[j].id == before[j].id,
    ensures
        infos_kept(before, stepped.remove(m)),
{
    let after = stepped.remove(m);
    assert forall|i: int| 0 <= i < after.len() implies exists|j: int|
        0 <= j < before.len() && (#[trigger] before[j]).info == (#[trigger] after[i]).info
            && before[j].id == after[i].id by {
        let i2 = if i < m { i } else { i + 1 };
        assert(after[i] == stepped[i2]);
        assert(before[i2].info == after[i].info);
    }
}

/// The identifiers of queries whose records were kept are identifiers of
/// the queries before.
pub proof fn lemma_contained<I>(before: Seq<Query<I>>, after: Seq<Query<I>>)
    requires
        infos_kept(before, after),
    ensures
        forall|id: QueryId| #[trigger] has_id(after, id) ==> has_id(before, id),
{
    assert forall|id: QueryId| #[trigger] has_id(after, id) implies has_id(before, id) by {
        let i = choose|i: int| query_at(after, id, i);
        let j = choose|j: int|
            0 <= j < before.len() && (#[trigger] before[j]).info == (#[trigger] after[i]).info
                && before[j].id == after[i].id;
        assert(query_at(before, id, j));
    }
}

/// A step of an iterator that hands out no peer is repeated by the step
/// after it at the same time.
pub proof fn lemma_iter_settles(
    a: QueryPeerIter,
    now: u64,
    b: QueryPeerIter,
    r: PeersIterState,
    c: QueryPeerIter,
    r2: PeersIterState,
)
    requires
        a.step(now, b, r),
        quiet(r),
        b.step(now, c, r2),
    ensures
        r2 == r,
{
    match (a, b, c) {
        (QueryPeerIter::Closest(x), QueryPeerIter::Closest(y), QueryPeerIter::Closest(z)) => {
            crate::closest_peers::lemma_step_settles(
                x.candidates(),
                x.spec_config(),
                x.spec_state(),
                now,
                y.candidates(),
                y.spec_state(),
                r,
                z.candidates(),
                z.spec_state(),
                r2,
            );
        },
        (
            QueryPeerIter::ClosestDisjoint(x),
            QueryPeerIter::ClosestDisjoint(y),
            QueryPeerIter::ClosestDisjoint(z),
        ) => {
            crate::disjoint_peers::lemma_disjoint_step_settles(
                x.paths(),
                now,
                y.paths(),
                r,
                z.paths(),
                r2,
            );
        },
        (QueryPeerIter::Fixed(x), QueryPeerIter::Fixed(y), QueryPeerIter::Fixed(z)) => {
            crate::fixed_peers::lemma_fixed_step_settles(
                x.candidates(),
                x.parallelism(),
                x.peer_timeout(),
                x.finished(),
                now,
                y.candidates(),
                y.finished(),
                r,
                z.candidates(),
                z.finished(),
                r2,
            );
        },
        _ => {},
    }
}

/// A query is at rest at `now`: a step at that time hands out no peer and
/// does not end the query, whatever it leads to.
pub open spec fn at_rest<I>(q: Query<I>, timeout: u64, now: u64) -> bool {
    forall|b: Query<I>, r: PeersIterState|
        #[trigger] query_step(q, now, b, r) ==> passes(b.stats, r, timeout, now)
}

/// Every query is at rest at `now`: there is nothing to do until a result
/// arrives or time passes.
pub open spec fn all_at_rest<I>(queries: Seq<Query<I>>, timeout: u64, now: u64) -> bool {
    forall|i: int| 0 <= i < queries.len() ==> at_rest(#[trigger] queries[i], timeout, now)
}

/// A query that took a step without a peer to contact and without ending is
/// at rest.
pub proof fn lemma_passed_is_at_rest<I>(
    a: Query<I>,
    timeout: u64,
    now: u64,
    b: Query<I>,
    r: PeersIterState,
)
    requires
        query_step(a, now, b, r),
        passes(b.stats, r, timeout, now),
    ensures
        at_rest(b, timeout, now),
{
    assert forall|c: Query<I>, r2: PeersIterState| #[trigger] query_step(
        b,
        now,
        c,
        r2,
    ) implies passes(
        c.stats,
        r2,
        timeout,
        now,
    ) by {
        lemma_iter_settles(a.peers, now, b.peers, r, c.peers, r2);
        assert(b.stats.start is Some);
    }
}

/// After a poll that found nothing to do, every query of the pool is at rest.
pub proof fn lemma_polled_at_rest<I>(
    before: Seq<Query<I>>,
    timeout: u64,
    now: u64,
    after: Seq<Query<I>>,
    r: QueryPoolState<I>,
)
    requires
        pool_step(before, timeout, now, after, r),
        r is Idle || r == QueryPoolState::<I>::Waiting(None),
    ensures
        all_at_rest(after, timeout, now),
{
    if before.len() > 0 {
        let (stepped, rs) = choose|stepped: Seq<Query<I>>, rs: Seq<PeersIterState>|
            #![trigger stepped.len(), rs.len()]
            {
                &&& stepped.len() == before.len()
                &&& rs.len() == before.len()
                &&& forall|j: int|
                    0 <= j < rs.len() ==> query_step(before[j], now, #[trigger] stepped[j], rs[j])
                &&& forall|j: int|
                    0 <= j < rs.len() - 1 ==> passes(
                        (#[trigger] stepped[j]).stats,
                        rs[j],
                        timeout,
                        now,
                    )
                &&& passes(stepped[rs.len() - 1].stats, rs[rs.len() - 1], timeout, now)
                &&& after == stepped
            };
        assert forall|i: int| 0 <= i < after.len() implies at_rest(
            #[trigger] after[i],
            timeout,
            now,
        ) by {
            assert(query_step(before[i], now, stepped[i], rs[i]));
            if i < rs.len() - 1 {
                assert(passes(stepped[i].stats, rs[i], timeout, now));
            }
            lemma_passed_is_at_rest(before[i], timeout, now, stepped[i], rs[i]);
        }
    }
}

} // verus!
