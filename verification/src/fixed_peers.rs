//! The iterator over a fixed list of peers.
//!
//! It serves the second phase of a query: once the closest peers to a key are
//! known, each of them is sent the same request, a bounded number at a time.
//! The iterator is done when every request has an answer, has failed or has
//! passed its deadline.

use crate::candidates::{
    any_not_contacted, candidate_keys, collect_succeeded, deadline, deadline_after, expire,
    expired, find, first_not_contacted, lemma_expired_peers, lemma_peer_keys_push,
    lemma_with_state_peers, num_waiting, peer_keys, peers_of, succeeded, tally, waiting_at,
    with_state, Candidate, PeerState, PeersIterState,
};
use crate::key::Key;
use crate::nearest::{has_key, Entry, Peer};
use vstd::prelude::*;

verus! {

/// The peers of `s` without those whose key occurred earlier in `s`.
pub open spec fn first_occurrences(s: Seq<Peer>) -> Seq<Peer>
    decreases s.len(),
{
    if s.len() == 0 {
        Seq::empty()
    } else if peer_keys(s.drop_last()).contains(s.last().key) {
        first_occurrences(s.drop_last())
    } else {
        first_occurrences(s.drop_last()).push(s.last())
    }
}

/// A list of peers in strictly ascending distance from a target names no
/// key twice, so that all its peers are first occurrences.
pub proof fn lemma_sorted_first_occurrences(s: Seq<Peer>, target: Key)
    requires
        crate::candidates::peers_sorted(s, target),
    ensures
        first_occurrences(s) == s,
    decreases s.len(),
{
    if s.len() > 0 {
        let front = s.drop_last();
        assert forall|i: int, j: int| 0 <= i < j < front.len() implies crate::key::distance(
            #[trigger] front[i].key,
            target,
        ) < crate::key::distance(#[trigger] front[j].key, target) by {
            assert(front[i] == s[i]);
            assert(front[j] == s[j]);
        }
        lemma_sorted_first_occurrences(front, target);
        if peer_keys(front).contains(s.last().key) {
            let i = choose|i: int| 0 <= i < front.len() && (#[trigger] front[i]).key
                == s.last().key;
            assert(front[i] == s[i]);
            assert(crate::key::distance(s[i].key, target) < crate::key::distance(
                s[s.len() - 1].key,
                target,
            ));
        }
        assert(front.push(s.last()) =~= s);
    } else {
        assert(first_occurrences(s) =~= s);
    }
}

/// No two candidates have the same key.
pub open spec fn distinct_candidates(s: Seq<Candidate>) -> bool {
    forall|i: int, j: int|
        0 <= i < s.len() && 0 <= j < s.len() && i != j ==> (#[trigger] s[i]).peer.key != (
        #[trigger] s[j]).peer.key
}

/// Every candidate is yet to be contacted.
pub open spec fn all_not_contacted(s: Seq<Candidate>) -> bool {
    forall|i: int| 0 <= i < s.len() ==> (#[trigger] s[i]).data == PeerState::NotContacted
}

/// One step of the iterator at time `now`: from the candidates `before` to
/// the candidates `after`, with `r` for the owner to act on.
pub open spec fn fixed_step(
    before: Seq<Candidate>,
    parallelism: usize,
    peer_timeout: u64,
    finished: bool,
    now: u64,
    after: Seq<Candidate>,
    finished_after: bool,
    r: PeersIterState,
) -> bool {
    if finished {
        after == before && finished_after && r == PeersIterState::Finished
    } else {
        let s = expired(before, now);
        let in_flight = num_waiting(s);
        if in_flight >= parallelism && in_flight > 0 {
            after == s && !finished_after && r == PeersIterState::WaitingAtCapacity
        } else if any_not_contacted(s) && in_flight < parallelism {
            exists|i: int|
                #![trigger s[i]]
                first_not_contacted(s, i) && after == with_state(
                    s,
                    i,
                    PeerState::Waiting(deadline_after(now, peer_timeout)),
                ) && !finished_after && r == PeersIterState::Waiting(Some(s[i].peer))
        } else if in_flight == 0 {
            after == s && finished_after && r == PeersIterState::Finished
        } else {
            after == s && !finished_after && r == PeersIterState::Waiting(None)
        }
    }
}

/// The iterator over a fixed list of peers.
pub struct FixedPeersIter {
    parallelism: usize,
    peer_timeout: u64,
    finished: bool,
    peers: Vec<Candidate>,
}

impl FixedPeersIter {
    /// The candidates, in the order in which they are contacted.
    pub closed spec fn candidates(self) -> Seq<Candidate> {
        self.peers@
    }

    /// The largest number of requests in flight at a time.
    pub closed spec fn parallelism(self) -> usize {
        self.parallelism
    }

    /// The time after which a request without an answer has failed.
    pub closed spec fn peer_timeout(self) -> u64 {
        self.peer_timeout
    }

    /// Whether the iterator is done.
    pub closed spec fn finished(self) -> bool {
        self.finished
    }

    /// No peer is a candidate twice.
    pub open spec fn wf(self) -> bool {
        distinct_candidates(self.candidates())
    }

    /// An iterator over `peers` in their order, each peer once, with at most
    /// `parallelism` requests in flight.
    pub fn with_peers(peers: &Vec<Peer>, parallelism: usize, peer_timeout: u64) -> (it: Self)
        ensures
            it.wf(),
            it.parallelism() == parallelism,
            it.peer_timeout() == peer_timeout,
            !it.finished(),
            peers_of(it.candidates()) == first_occurrences(peers@),
            all_not_contacted(it.candidates()),
            candidate_keys(it.candidates()) == peer_keys(peers@),
    {
        let mut list: Vec<Candidate> = Vec::new();
        let n = peers.len();
        let mut j: usize = 0;
        proof {
            assert(peers_of(list@) =~= first_occurrences(peers@.take(0)));
            assert(candidate_keys(list@) =~= peer_keys(peers@.take(0)));
        }
        while j < n
            invariant
                0 <= j <= n,
                n == peers@.len(),
                distinct_candidates(list@),
                all_not_contacted(list@),
                peers_of(list@) == first_occurrences(peers@.take(j as int)),
                candidate_keys(list@) == peer_keys(peers@.take(j as int)),
            decreases n - j,
        {
            let p = peers[j];
            let ghost before = list@;
            proof {
                assert(peers@.take(j + 1).drop_last() =~= peers@.take(j as int));
                assert(peers@.take(j + 1).last() == p);
                assert(peers@.take(j + 1) =~= peers@.take(j as int).push(p));
                lemma_peer_keys_push(peers@.take(j as int), p);
                assert(candidate_keys(before).contains(p.key) == has_key(before, p.key));
            }
            if find(&list, &p.key).is_none() {
                list.push(Entry { peer: p, data: PeerState::NotContacted });
                proof {
                    let after = list@;
                    assert(peers_of(after) =~= peers_of(before).push(p));
                    assert forall|a: int, b: int|
                        0 <= a < after.len() && 0 <= b < after.len() && a != b implies (
                    #[trigger] after[a]).peer.key != (#[trigger] after[b]).peer.key by {
                        if a < before.len() {
                            assert(after[a] == before[a]);
                        }
                        if b < before.len() {
                            assert(after[b] == before[b]);
                        }
                    }
                    assert forall|k: Key| has_key(after, k) <==> (has_key(before, k) || k
                        == p.key) by {
                        if has_key(after, k) {
                            let w = choose|w: int| 0 <= w < after.len()
                                && (#[trigger] after[w]).peer.key == k;
                            if w < before.len() {
                                assert(before[w].peer.key == k);
                            }
                        }
                        if has_key(before, k) {
                            let w = choose|w: int| 0 <= w < before.len()
                                && (#[trigger] before[w]).peer.key == k;
                            assert(after[w].peer.key == k);
                        }
                        if k == p.key {
                            assert(after[before.len() as int].peer.key == k);
                        }
                    }
                    assert(candidate_keys(after) =~= candidate_keys(before).insert(p.key));
                }
            } else {
                proof {
                    assert(peer_keys(peers@.take(j as int)).insert(p.key) =~= peer_keys(
                        peers@.take(j as int),
                    ));
                }
            }
            j += 1;
        }
        assert(peers@.take(n as int) =~= peers@);
        FixedPeersIter { parallelism, peer_timeout, finished: false, peers: list }
    }

    /// Whether the iterator is done.
    pub fn is_finished(&self) -> (r: bool)
        ensures
            r == self.finished(),
    {
        self.finished
    }

    /// Ends the iteration: the next step reports that the iterator is done.
    pub fn finish(&mut self)
        ensures
            final(self).finished(),
            final(self).candidates() == old(self).candidates(),
            final(self).parallelism() == old(self).parallelism(),
            final(self).peer_timeout() == old(self).peer_timeout(),
    {
        self.finished = true;
    }

    /// Advances the iterator at time `now` and says what to do next.
    ///
    /// Requests whose deadline has passed are failed first. While as many
    /// requests as allowed are in flight, the iterator waits. Otherwise the
    /// next peer that was not contacted is handed out. When none is left, the
    /// iterator waits for the requests in flight and is done when there are none.
    pub fn next(&mut self, now: u64) -> (r: PeersIterState)
        requires
            old(self).wf(),
        ensures
            final(self).wf(),
            fixed_step(
                old(self).candidates(),
                old(self).parallelism(),
                old(self).peer_timeout(),
                old(self).finished(),
                now,
                final(self).candidates(),
                final(self).finished(),
                r,
            ),
            final(self).parallelism() == old(self).parallelism(),
            final(self).peer_timeout() == old(self).peer_timeout(),
    {
        if self.finished {
            return PeersIterState::Finished;
        }
        proof {
            lemma_expired_peers(self.peers@, now);
            lemma_same_keys_distinct(self.peers@, expired(self.peers@, now));
        }
        expire(&mut self.peers, now);
        let ghost s = self.peers@;
        let (in_flight, _, first) = tally(&self.peers);
        if in_flight >= self.parallelism && in_flight > 0 {
            return PeersIterState::WaitingAtCapacity;
        }
        match first {
            Some(i) => {
                if in_flight < self.parallelism {
                    let peer = self.peers[i].peer;
                    let due = deadline(now, self.peer_timeout);
                    proof {
                        lemma_with_state_peers(s, i as int, PeerState::Waiting(due));
                        lemma_same_keys_distinct(
                            s,
                            with_state(s, i as int, PeerState::Waiting(due)),
                        );
                        assert(s[i as int].data is NotContacted);
                    }
                    self.peers.set(i, Entry { peer, data: PeerState::Waiting(due) });
                    return PeersIterState::Waiting(Some(peer));
                }
            },
            None => {},
        }
        if in_flight == 0 {
            self.finished = true;
            PeersIterState::Finished
        } else {
            PeersIterState::Waiting(None)
        }
    }

    /// Takes the answer of the peer at `peer`. Returns whether the iterator
    /// was waiting for that peer; if not, nothing changes.
    pub fn on_success(&mut self, peer: &Key) -> (r: bool)
        requires
            old(self).wf(),
        ensures
            final(self).wf(),
            r == (!old(self).finished() && exists|i: int|
                waiting_at(old(self).candidates(), *peer, i)),
            r ==> exists|i: int|
                waiting_at(old(self).candidates(), *peer, i) && final(self).candidates()
                    == with_state(old(self).candidates(), i, PeerState::Succeeded),
            !r ==> final(self).candidates() == old(self).candidates(),
            final(self).finished() == old(self).finished(),
            final(self).parallelism() == old(self).parallelism(),
            final(self).peer_timeout() == old(self).peer_timeout(),
    {
        self.resolve(peer, PeerState::Succeeded)
    }

    /// Takes the failure of the request to the peer at `peer`. Returns whether
    /// the iterator was waiting for that peer; if not, nothing changes.
    pub fn on_failure(&mut self, peer: &Key) -> (r: bool)
        requires
            old(self).wf(),
        ensures
            final(self).wf(),
            r == (!old(self).finished() && exists|i: int|
                waiting_at(old(self).candidates(), *peer, i)),
            r ==> exists|i: int|
                waiting_at(old(self).candidates(), *peer, i) && final(self).candidates()
                    == with_state(old(self).candidates(), i, PeerState::Failed),
            !r ==> final(self).candidates() == old(self).candidates(),
            final(self).finished() == old(self).finished(),
            final(self).parallelism() == old(self).parallelism(),
            final(self).peer_timeout() == old(self).peer_timeout(),
    {
        self.resolve(peer, PeerState::Failed)
    }

    /// Gives the request in flight to the peer at `peer` its final state.
    fn resolve(&mut self, peer: &Key, state: PeerState) -> (r: bool)
        requires
            old(self).wf(),
        ensures
            final(self).wf(),
            r == (!old(self).finished() && exists|i: int|
                waiting_at(old(self).candidates(), *peer, i)),
            r ==> exists|i: int|
                waiting_at(old(self).candidates(), *peer, i) && final(self).candidates()
                    == with_state(old(self).candidates(), i, state),
            !r ==> final(self).candidates() == old(self).candidates(),
            final(self).finished() == old(self).finished(),
            final(self).parallelism() == old(self).parallelism(),
            final(self).peer_timeout() == old(self).peer_timeout(),
    {
        let ghost s = self.peers@;
        if self.finished {
            return false;
        }
        match find(&self.peers, peer) {
            None => {
                proof {
                    assert forall|x: int| !waiting_at(s, *peer, x) by {
                        if waiting_at(s, *peer, x) {
                            assert(s[x].peer.key == *peer);
                        }
                    }
                }
                false
            },
            Some(i) => {
                let e = self.peers[i];
                match e.data {
                    PeerState::Waiting(_) => {
                        proof {
                            lemma_with_state_peers(s, i as int, state);
                            lemma_same_keys_distinct(s, with_state(s, i as int, state));
                            assert(waiting_at(s, *peer, i as int));
                        }
                        self.peers.set(i, Entry { peer: e.peer, data: state });
                        assert(self.peers@ == with_state(s, i as int, state));
                        true
                    },
                    _ => {
                        proof {
                            assert forall|x: int| !waiting_at(s, *peer, x) by {
                                if waiting_at(s, *peer, x) && x != i {
                                    assert(s[x].peer.key == s[i as int].peer.key);
                                }
                            }
                        }
                        false
                    },
                }
            },
        }
    }

    /// The peers that answered, in the order in which they were contacted.
    pub fn into_result(self) -> (r: Vec<Peer>)
        ensures
            r@ == succeeded(self.candidates()),
    {
        collect_succeeded(&self.peers)
    }
}

/// A list with the peers of a list of distinct keys has distinct keys.
pub proof fn lemma_same_keys_distinct(s: Seq<Candidate>, t: Seq<Candidate>)
    requires
        distinct_candidates(s),
        peers_of(s) == peers_of(t),
    ensures
        distinct_candidates(t),
{
    assert(peers_of(s).len() == s.len());
    assert(peers_of(t).len() == t.len());
    assert forall|a: int, b: int| 0 <= a < t.len() && 0 <= b < t.len() && a != b implies (
    #[trigger] t[a]).peer.key != (#[trigger] t[b]).peer.key by {
        assert(peers_of(s)[a] == s[a].peer && peers_of(t)[a] == t[a].peer);
        assert(peers_of(s)[b] == s[b].peer && peers_of(t)[b] == t[b].peer);
    }
}

/// The peer `p` is a candidate of `s` that succeeded.
pub open spec fn is_succeeded_candidate(s: Seq<Candidate>, p: Peer) -> bool {
    exists|j: int| 0 <= j < s.len() && (#[trigger] s[j]).data is Succeeded && s[j].peer == p
}

/// The peers that answered are candidates that succeeded, each once, in the
/// order of the candidates.
pub proof fn lemma_succeeded_distinct(s: Seq<Candidate>)
    requires
        distinct_candidates(s),
    ensures
        succeeded(s).len() <= s.len(),
        forall|i: int|
            0 <= i < succeeded(s).len() ==> is_succeeded_candidate(s, #[trigger] succeeded(s)[i]),
        forall|a: int, b: int|
            0 <= a < succeeded(s).len() && 0 <= b < succeeded(s).len() && a != b ==> (
            #[trigger] succeeded(s)[a]).key != (#[trigger] succeeded(s)[b]).key,
    decreases s.len(),
{
    if s.len() > 0 {
        let front = s.drop_last();
        let r0 = succeeded(front);
        let r = succeeded(s);
        assert forall|a: int, b: int|
            0 <= a < front.len() && 0 <= b < front.len() && a != b implies (
        #[trigger] front[a]).peer.key != (#[trigger] front[b]).peer.key by {
            assert(front[a] == s[a] && front[b] == s[b]);
        }
        lemma_succeeded_distinct(front);
        assert forall|i: int| 0 <= i < r.len() implies is_succeeded_candidate(
            s,
            #[trigger] r[i],
        ) by {
            if i < r0.len() {
                assert(r[i] == r0[i]);
                assert(is_succeeded_candidate(front, r0[i]));
                let j = choose|j: int|
                    0 <= j < front.len() && (#[trigger] front[j]).data is Succeeded
                        && front[j].peer == r0[i];
                assert(s[j] == front[j]);
            } else {
                assert(s[s.len() - 1].peer == r[i]);
            }
        }
        assert forall|a: int, b: int|
            0 <= a < r.len() && 0 <= b < r.len() && a != b implies (#[trigger] r[a]).key != (
        #[trigger] r[b]).key by {
            if a < r0.len() && b < r0.len() {
                assert(r[a] == r0[a] && r[b] == r0[b]);
            } else {
                let o = if a < r0.len() { a } else { b };
                assert(r[o] == r0[o]);
                assert(is_succeeded_candidate(front, r0[o]));
                let j = choose|j: int|
                    0 <= j < front.len() && (#[trigger] front[j]).data is Succeeded
                        && front[j].peer == r0[o];
                assert(s[j] == front[j]);
                assert(s[j].peer.key != s[s.len() - 1].peer.key);
            }
        }
    }
}

impl FixedPeersIter {
    /// The peers that answered are peers of the iterator, each once: as
    /// many peers have answered as the result holds.
    pub proof fn lemma_result_distinct(self)
        requires
            self.wf(),
        ensures
            succeeded(self.candidates()).len() <= self.candidates().len(),
            forall|a: int, b: int|
                0 <= a < succeeded(self.candidates()).len() && 0 <= b < succeeded(
                    self.candidates(),
                ).len() && a != b ==> (#[trigger] succeeded(self.candidates())[a]).key != (
                #[trigger] succeeded(self.candidates())[b]).key,
    {
        lemma_succeeded_distinct(self.candidates());
    }
}

/// A step that hands out no peer is repeated by the step after it at the
/// same time.
pub proof fn lemma_fixed_step_settles(
    before: Seq<Candidate>,
    parallelism: usize,
    peer_timeout: u64,
    finished: bool,
    now: u64,
    mid: Seq<Candidate>,
    finished_mid: bool,
    r: PeersIterState,
    after: Seq<Candidate>,
    finished_after: bool,
    r2: PeersIterState,
)
    requires
        fixed_step(before, parallelism, peer_timeout, finished, now, mid, finished_mid, r),
        !(r matches PeersIterState::Waiting(Some(_))),
        fixed_step(mid, parallelism, peer_timeout, finished_mid, now, after, finished_after, r2),
    ensures
        r2 == r,
        after == mid,
{
    if !finished {
        crate::candidates::lemma_expired_twice(before, now);
        let s = expired(before, now);
        assert(mid == s);
        assert(expired(mid, now) == s);
    }
}

} // verus!
