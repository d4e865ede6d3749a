//! The iterator that converges on the peers closest to a target.
//!
//! The iterator keeps the closest candidates known so far, at most as many as
//! results are asked for. Each call of `next` hands out the closest candidate
//! that was not contacted yet, as long as fewer requests than the allowed
//! parallelism are in flight. A response marks its peer as succeeded and
//! offers the peers it reports as new candidates; a failure or an elapsed
//! deadline marks the peer as failed. The result is the list of succeeded
//! candidates, closest first.

use crate::candidates::{
    any_not_contacted, candidate_keys, collect_succeeded, deadline, deadline_after, expire,
    expired, find, first_not_contacted, lemma_closest_of_own_keys, lemma_expired_peers,
    lemma_key_position, lemma_offered_members, lemma_peer_keys_push, lemma_result_sorted,
    lemma_same_peers_sorted, lemma_update_keys, lemma_update_sorted, num_succeeded, num_waiting,
    peer_keys, peers_sorted, succeeded, tally, waiting_at, with_state, Candidate, PeerState,
    PeersIterState,
};
use crate::key::{distance, Key};
use crate::nearest::{
    has_key, is_closest, lemma_offered_closest, offer, offered, sorted, Entry, Offer, Peer,
};
use vstd::prelude::*;

verus! {

/// The condition of the iterator as a whole.
#[derive(Clone, Copy, Debug, PartialEq, Eq, Structural)]
pub enum IterState {
    /// The last step handed out a peer, or no step was taken yet.
    Iterating,
    /// The last step could hand out no peer while requests are in flight.
    Stalled,
    /// The last step found no candidate left to contact and no request in
    /// flight. The iterator is done unless new candidates are added.
    Exhausted,
    /// The iterator is done for good. It hands out no more peers and takes
    /// no more results.
    Finished,
}

/// Whether an iterator in this condition is done.
pub open spec fn is_done(state: IterState) -> bool {
    state == IterState::Finished || state == IterState::Exhausted
}

/// The parameters of a closest-peers iterator.
#[derive(Clone, Copy, Debug, PartialEq, Eq)]
pub struct ClosestPeersIterConfig {
    /// The largest number of requests in flight at a time.
    pub parallelism: usize,
    /// The number of closest peers that the iterator looks for.
    pub num_results: usize,
    /// The number of succeeded peers with which the iterator is content.
    pub required: usize,
    /// The time after which a request without an answer has failed.
    pub peer_timeout: u64,
}

impl ClosestPeersIterConfig {
    /// A usable configuration allows a request in flight and asks for a result.
    pub open spec fn valid(self) -> bool {
        self.parallelism >= 1 && self.num_results >= 1
    }
}

/// One step of the iterator at time `now`: from the candidates `before` in
/// condition `state` to the candidates `after` in condition `state_after`,
/// with `r` for the owner to act on.
pub open spec fn next_step(
    before: Seq<Candidate>,
    config: ClosestPeersIterConfig,
    state: IterState,
    now: u64,
    after: Seq<Candidate>,
    state_after: IterState,
    r: PeersIterState,
) -> bool {
    if state == IterState::Finished {
        after == before && state_after == IterState::Finished && r == PeersIterState::Finished
    } else {
        let s = expired(before, now);
        let in_flight = num_waiting(s);
        let successes = num_succeeded(s);
        if successes >= config.required && in_flight == 0 {
            after == s && state_after == IterState::Finished && r == PeersIterState::Finished
        } else if in_flight >= config.parallelism {
            after == s && state_after == IterState::Stalled && r
                == PeersIterState::WaitingAtCapacity
        } else if !any_not_contacted(s) {
            if in_flight == 0 {
                after == s && state_after == IterState::Exhausted && r == PeersIterState::Finished
            } else {
                after == s && state_after == IterState::Stalled && r == PeersIterState::Waiting(
                    None,
                )
            }
        } else {
            exists|i: int|
                #![trigger s[i]]
                first_not_contacted(s, i) && after == with_state(
                    s,
                    i,
                    PeerState::Waiting(deadline_after(now, config.peer_timeout)),
                ) && state_after == IterState::Iterating && r == PeersIterState::Waiting(
                    Some(s[i].peer),
                )
        }
    }
}

/// Where an entry of the list after a response comes from: it is the peer
/// that answered, now succeeded; or a candidate as it was; or a peer that the
/// response reported and that was no candidate, not contacted yet.
pub open spec fn after_success(
    before: Seq<Candidate>,
    answered: Key,
    reported: Seq<Peer>,
    e: Candidate,
) -> bool {
    if e.peer.key == answered {
        e.data == PeerState::Succeeded && exists|i: int|
            waiting_at(before, answered, i) && (#[trigger] before[i]).peer == e.peer
    } else {
        before.contains(e) || (e.data == PeerState::NotContacted && reported.contains(e.peer)
            && !has_key(before, e.peer.key))
    }
}

/// The iterator over the peers closest to a target.
pub struct ClosestPeersIter {
    config: ClosestPeersIterConfig,
    target: Key,
    state: IterState,
    peers: Vec<Candidate>,
}

impl ClosestPeersIter {
    /// The candidates are sorted by distance to the target and within the
    /// number of results, and the configuration is usable.
    pub closed spec fn wf(self) -> bool {
        &&& self.config.valid()
        &&& sorted(self.peers@, self.target)
        &&& self.peers@.len() <= self.config.num_results
    }

    /// The candidates, closest first.
    pub closed spec fn candidates(self) -> Seq<Candidate> {
        self.peers@
    }

    /// The key that the iterator closes in on.
    pub closed spec fn spec_target(self) -> Key {
        self.target
    }

    /// The parameters of the iterator.
    pub closed spec fn spec_config(self) -> ClosestPeersIterConfig {
        self.config
    }

    /// The condition of the iterator.
    pub closed spec fn spec_state(self) -> IterState {
        self.state
    }

    /// The candidates of an iterator are sorted by distance and never more
    /// than the number of results.
    pub proof fn lemma_candidates_sorted(self)
        requires
            self.wf(),
        ensures
            sorted(self.candidates(), self.spec_target()),
            self.candidates().len() <= self.spec_config().num_results,
            self.spec_config().valid(),
    {
    }

    /// An iterator towards `target` that starts from the closest of `known_peers`.
    pub fn with_config(config: ClosestPeersIterConfig, target: Key, known_peers: &Vec<Peer>) -> (it:
        Self)
        requires
            config.valid(),
        ensures
            it.wf(),
            it.spec_config() == config,
            it.spec_target() == target,
            it.spec_state() == IterState::Iterating,
            is_closest(
                it.candidates(),
                peer_keys(known_peers@),
                target,
                config.num_results as nat,
            ),
            forall|i: int|
                0 <= i < it.candidates().len() ==> (#[trigger] it.candidates()[i]).data
                    == PeerState::NotContacted && known_peers@.contains(it.candidates()[i].peer),
    {
        let mut peers: Vec<Candidate> = Vec::new();
        let mut j: usize = 0;
        assert(peer_keys(known_peers@.take(0)) =~= Set::<Key>::empty());
        while j < known_peers.len()
            invariant
                0 <= j <= known_peers.len(),
                config.valid(),
                sorted(peers@, target),
                peers@.len() <= config.num_results,
                is_closest(
                    peers@,
                    peer_keys(known_peers@.take(j as int)),
                    target,
                    config.num_results as nat,
                ),
                forall|i: int|
                    0 <= i < peers@.len() ==> (#[trigger] peers@[i]).data == PeerState::NotContacted
                        && known_peers@.contains(peers@[i].peer),
            decreases known_peers.len() - j,
        {
            let ghost before = peers@;
            let entry = Entry { peer: known_peers[j], data: PeerState::NotContacted };
            let r = offer(&mut peers, &target, config.num_results, entry);
            proof {
                let seen = peer_keys(known_peers@.take(j as int));
                lemma_offered_closest(
                    before,
                    peers@,
                    seen,
                    target,
                    config.num_results as nat,
                    entry,
                    r,
                );
                assert(known_peers@.take(j + 1) =~= known_peers@.take(j as int).push(
                    known_peers@[j as int],
                ));
                assert(peer_keys(known_peers@.take(j + 1)) =~= seen.insert(entry.peer.key)) by {
                    lemma_peer_keys_push(known_peers@.take(j as int), known_peers@[j as int]);
                }
                assert(known_peers@.contains(entry.peer));
                lemma_offered_members(before, peers@, target, config.num_results as nat, entry, r);
            }
            j += 1;
        }
        assert(known_peers@.take(known_peers@.len() as int) =~= known_peers@);
        ClosestPeersIter { config, target, state: IterState::Iterating, peers }
    }

    /// Advances the iterator at time `now` and says what to do next: the
    /// step that `next_step` describes.
    pub fn next(&mut self, now: u64) -> (r: PeersIterState)
        requires
            old(self).wf(),
        ensures
            final(self).wf(),
            next_step(
                old(self).candidates(),
                old(self).spec_config(),
                old(self).spec_state(),
                now,
                final(self).candidates(),
                final(self).spec_state(),
                r,
            ),
            final(self).spec_target() == old(self).spec_target(),
            final(self).spec_config() == old(self).spec_config(),
    {
        if self.state == IterState::Finished {
            return PeersIterState::Finished;
        }
        proof {
            lemma_expired_peers(self.peers@, now);
            lemma_same_peers_sorted(self.peers@, expired(self.peers@, now), self.target);
        }
        expire(&mut self.peers, now);
        let ghost s = self.peers@;
        let (in_flight, successes, first) = tally(&self.peers);
        if successes >= self.config.required && in_flight == 0 {
            self.state = IterState::Finished;
            return PeersIterState::Finished;
        }
        if in_flight >= self.config.parallelism {
            self.state = IterState::Stalled;
            return PeersIterState::WaitingAtCapacity;
        }
        match first {
            None => {
                if in_flight == 0 {
                    self.state = IterState::Exhausted;
                    PeersIterState::Finished
                } else {
                    self.state = IterState::Stalled;
                    PeersIterState::Waiting(None)
                }
            },
            Some(i) => {
                let peer = self.peers[i].peer;
                let due = deadline(now, self.config.peer_timeout);
                let entry = Entry { peer, data: PeerState::Waiting(due) };
                proof {
                    lemma_update_sorted(s, self.target, i as int, entry);
                    assert(s[i as int].data is NotContacted);
                }
                self.peers.set(i, entry);
                self.state = IterState::Iterating;
                PeersIterState::Waiting(Some(peer))
            },
        }
    }

    /// Gives the request in flight to the peer at `peer` its final state.
    fn resolve(&mut self, peer: &Key, state: PeerState) -> (r: bool)
        requires
            old(self).wf(),
        ensures
            final(self).wf(),
            r == (old(self).spec_state() != IterState::Finished && exists|i: int|
                waiting_at(old(self).candidates(), *peer, i)),
            r ==> exists|i: int|
                waiting_at(old(self).candidates(), *peer, i) && final(self).candidates()
                    == with_state(old(self).candidates(), i, state),
            !r ==> *final(self) == *old(self),
            !r ==> final(self).candidates() == old(self).candidates(),
            final(self).spec_state() == old(self).spec_state(),
            final(self).spec_target() == old(self).spec_target(),
            final(self).spec_config() == old(self).spec_config(),
    {
        let ghost s = self.peers@;
        if self.state == IterState::Finished {
            return false;
        }
        match find(&self.peers, peer) {
            None => {
                assert(!exists|i: int| waiting_at(s, *peer, i)) by {
                    if exists|i: int| waiting_at(s, *peer, i) {
                        let i = choose|i: int| waiting_at(s, *peer, i);
                        assert(s[i].peer.key == *peer);
                    }
                }
                false
            },
            Some(i) => {
                let e = self.peers[i];
                match e.data {
                    PeerState::Waiting(_) => {
                        let entry = Entry { peer: e.peer, data: state };
                        proof {
                            lemma_update_sorted(s, self.target, i as int, entry);
                            assert(waiting_at(s, *peer, i as int));
                        }
                        self.peers.set(i, entry);
                        assert(self.peers@ == with_state(s, i as int, state));
                        assert(s == old(self).candidates());
                        assert(exists|x: int| waiting_at(s, *peer, x));
                        assert(old(self).spec_state() != IterState::Finished);
                        true
                    },
                    _ => {
                        proof {
                            lemma_key_position(s, self.target, *peer, i as int);
                            assert forall|x: int| !waiting_at(s, *peer, x) by {
                                if waiting_at(s, *peer, x) {
                                    assert(s[x].peer.key == *peer);
                                }
                            }
                        }
                        false
                    },
                }
            },
        }
    }

    /// Takes the failure of the request to the peer at `peer`. Returns whether
    /// the iterator was waiting for that peer; if not, nothing changes.
    pub fn on_failure(&mut self, peer: &Key) -> (r: bool)
        requires
            old(self).wf(),
        ensures
            final(self).wf(),
            r == (old(self).spec_state() != IterState::Finished && exists|i: int|
                waiting_at(old(self).candidates(), *peer, i)),
            r ==> exists|i: int|
                waiting_at(old(self).candidates(), *peer, i) && final(self).candidates()
                    == with_state(old(self).candidates(), i, PeerState::Failed),
            !r ==> *final(self) == *old(self),
            !r ==> final(self).candidates() == old(self).candidates(),
            final(self).spec_state() == old(self).spec_state(),
            final(self).spec_target() == old(self).spec_target(),
            final(self).spec_config() == old(self).spec_config(),
    {
        self.resolve(peer, PeerState::Failed)
    }

    /// Takes the answer of the peer at `peer` without regard to the peers it
    /// reports. Returns whether the iterator was waiting for that peer; if
    /// not, nothing changes.
    pub fn on_answer(&mut self, peer: &Key) -> (r: bool)
        requires
            old(self).wf(),
        ensures
            final(self).wf(),
            r == (old(self).spec_state() != IterState::Finished && exists|i: int|
                waiting_at(old(self).candidates(), *peer, i)),
            r ==> exists|i: int|
                waiting_at(old(self).candidates(), *peer, i) && final(self).candidates()
                    == with_state(old(self).candidates(), i, PeerState::Succeeded),
            !r ==> *final(self) == *old(self),
            !r ==> final(self).candidates() == old(self).candidates(),
            final(self).spec_state() == old(self).spec_state(),
            final(self).spec_target() == old(self).spec_target(),
            final(self).spec_config() == old(self).spec_config(),
    {
        self.resolve(peer, PeerState::Succeeded)
    }

    /// Takes the answer of the peer at `peer`, which reports `closer_peers`.
    /// Returns whether the iterator was waiting for that peer; if not, nothing
    /// changes. Otherwise the peer has succeeded, the reported peers that were
    /// no candidates are candidates now, and the list is cut back to the
    /// closest.
    pub fn on_success(&mut self, peer: &Key, closer_peers: &Vec<Peer>) -> (r: bool)
        requires
            old(self).wf(),
        ensures
            final(self).wf(),
            r == (old(self).spec_state() != IterState::Finished && exists|i: int|
                waiting_at(old(self).candidates(), *peer, i)),
            !r ==> *final(self) == *old(self),
            !r ==> final(self).candidates() == old(self).candidates(),
            r ==> is_closest(
                final(self).candidates(),
                candidate_keys(old(self).candidates()).union(peer_keys(closer_peers@)),
                old(self).spec_target(),
                old(self).spec_config().num_results as nat,
            ),
            r ==> forall|x: int|
                0 <= x < final(self).candidates().len() ==> after_success(
                    old(self).candidates(),
                    *peer,
                    closer_peers@,
                    #[trigger] final(self).candidates()[x],
                ),
            final(self).spec_state() == old(self).spec_state(),
            final(self).spec_target() == old(self).spec_target(),
            final(self).spec_config() == old(self).spec_config(),
    {
        let ghost s = self.peers@;
        let ghost target = self.target;
        let ghost limit = self.config.num_results as nat;
        if self.state == IterState::Finished {
            return false;
        }
        let pos = match find(&self.peers, peer) {
            None => {
                assert(!exists|i: int| waiting_at(s, *peer, i)) by {
                    if exists|i: int| waiting_at(s, *peer, i) {
                        let i = choose|i: int| waiting_at(s, *peer, i);
                        assert(s[i].peer.key == *peer);
                    }
                }
                return false;
            },
            Some(i) => i,
        };
        let e = self.peers[pos];
        match e.data {
            PeerState::Waiting(_) => {},
            _ => {
                proof {
                    lemma_key_position(s, target, *peer, pos as int);
                    assert forall|x: int| !waiting_at(s, *peer, x) by {
                        if waiting_at(s, *peer, x) {
                            assert(s[x].peer.key == *peer);
                        }
                    }
                }
                return false;
            },
        }
        let entry = Entry { peer: e.peer, data: PeerState::Succeeded };
        proof {
            lemma_update_sorted(s, target, pos as int, entry);
            assert(waiting_at(s, *peer, pos as int));
        }
        self.peers.set(pos, entry);
        let ghost marked = self.peers@;
        proof {
            assert(marked == s.update(pos as int, entry));
            lemma_update_keys(s, pos as int, entry);
            lemma_closest_of_own_keys(marked, target, limit);
            assert(peer_keys(closer_peers@.take(0)) =~= Set::<Key>::empty());
            assert(candidate_keys(marked).union(Set::<Key>::empty()) =~= candidate_keys(marked));
            assert forall|x: int| 0 <= x < marked.len() implies after_success(
                s,
                *peer,
                closer_peers@,
                #[trigger] marked[x],
            ) by {
                if x == pos {
                    assert(s[pos as int].peer == marked[x].peer);
                } else {
                    assert(marked[x] == s[x]);
                    assert(s.contains(marked[x]));
                    if marked[x].peer.key == *peer {
                        lemma_key_position(s, target, *peer, pos as int);
                    }
                }
            }
        }
        let m = closer_peers.len();
        let mut j: usize = 0;
        while j < m
            invariant
                0 <= j <= m,
                m == closer_peers@.len(),
                self.config == old(self).config,
                self.target == old(self).target,
                self.state == old(self).state,
                target == self.target,
                limit == self.config.num_results,
                self.config.valid(),
                sorted(self.peers@, target),
                sorted(s, target),
                self.peers@.len() <= limit,
                candidate_keys(marked) == candidate_keys(s),
                waiting_at(s, *peer, pos as int),
                s == old(self).peers@,
                old(self).state != IterState::Finished,
                is_closest(
                    self.peers@,
                    candidate_keys(marked).union(peer_keys(closer_peers@.take(j as int))),
                    target,
                    limit,
                ),
                forall|x: int|
                    0 <= x < self.peers@.len() ==> after_success(
                        s,
                        *peer,
                        closer_peers@,
                        #[trigger] self.peers@[x],
                    ),
            decreases m - j,
        {
            let ghost before = self.peers@;
            let ghost seen = candidate_keys(marked).union(peer_keys(closer_peers@.take(j as int)));
            let fresh = Entry { peer: closer_peers[j], data: PeerState::NotContacted };
            let r = offer(&mut self.peers, &self.target, self.config.num_results, fresh);
            proof {
                lemma_offered_closest(before, self.peers@, seen, target, limit, fresh, r);
                lemma_peer_keys_push(closer_peers@.take(j as int), closer_peers@[j as int]);
                assert(closer_peers@.take(j + 1) =~= closer_peers@.take(j as int).push(
                    closer_peers@[j as int],
                ));
                assert(seen.insert(fresh.peer.key) =~= candidate_keys(marked).union(
                    peer_keys(closer_peers@.take(j + 1)),
                ));
                lemma_offered_members(before, self.peers@, target, limit, fresh, r);
                assert(closer_peers@.contains(fresh.peer));
                if r is Inserted {
                    // A key that was a candidate and is gone was farther than
                    // all that stayed, so it cannot come back.
                    if has_key(s, fresh.peer.key) {
                        assert(candidate_keys(s).contains(fresh.peer.key));
                        assert(seen.contains(fresh.peer.key));
                        assert(!has_key(before, fresh.peer.key));
                        assert(before.len() == limit);
                        let p = r->Inserted_0 as int;
                        assert(distance(before[p].peer.key, target) < distance(
                            fresh.peer.key,
                            target,
                        ));
                        assert(distance(fresh.peer.key, target) < distance(
                            before[p].peer.key,
                            target,
                        ));
                        assert(false);
                    }
                    if fresh.peer.key == *peer {
                        assert(s[pos as int].peer.key == *peer);
                        assert(has_key(s, *peer));
                    }
                }
                assert forall|x: int| 0 <= x < self.peers@.len() implies after_success(
                    s,
                    *peer,
                    closer_peers@,
                    #[trigger] self.peers@[x],
                ) by {
                    let e2 = self.peers@[x];
                    if e2 == fresh && !before.contains(e2) {
                        assert(r is Inserted);
                    } else {
                        let y = choose|y: int| 0 <= y < before.len() && before[y] == e2;
                        assert(after_success(s, *peer, closer_peers@, before[y]));
                    }
                }
            }
            j += 1;
        }
        assert(closer_peers@.take(m as int) =~= closer_peers@);
        assert(s == old(self).candidates());
        assert(exists|x: int| waiting_at(s, *peer, x));
        assert(old(self).spec_state() != IterState::Finished);
        true
    }

    /// Offers `peer` as a candidate that was not contacted yet: it enters the
    /// list at its place unless its key is a candidate already or the list is
    /// full of closer candidates.
    pub fn add_peer(&mut self, peer: Peer) -> (r: Offer)
        requires
            old(self).wf(),
        ensures
            final(self).wf(),
            offered(
                old(self).candidates(),
                final(self).candidates(),
                old(self).spec_target(),
                old(self).spec_config().num_results as nat,
                Entry { peer, data: PeerState::NotContacted },
                r,
            ),
            final(self).spec_state() == old(self).spec_state(),
            final(self).spec_target() == old(self).spec_target(),
            final(self).spec_config() == old(self).spec_config(),
    {
        let entry = Entry { peer, data: PeerState::NotContacted };
        offer(&mut self.peers, &self.target, self.config.num_results, entry)
    }

    /// The parameters of the iterator.
    pub fn config(&self) -> (c: ClosestPeersIterConfig)
        ensures
            c == self.spec_config(),
    {
        self.config
    }

    /// The key that the iterator closes in on.
    pub fn target(&self) -> (t: Key)
        ensures
            t == self.spec_target(),
    {
        self.target
    }

    /// The peers that answered, closest first.
    pub fn into_result(self) -> (r: Vec<Peer>)
        ensures
            r@ == succeeded(self.candidates()),
    {
        collect_succeeded(&self.peers)
    }

    /// Whether the iterator is done.
    pub fn is_finished(&self) -> (r: bool)
        ensures
            r == is_done(self.spec_state()),
    {
        self.state == IterState::Finished || self.state == IterState::Exhausted
    }

    /// Ends the iteration: the next step reports that the iterator is done.
    pub fn finish(&mut self)
        requires
            old(self).wf(),
        ensures
            final(self).wf(),
            final(self).spec_state() == IterState::Finished,
            final(self).candidates() == old(self).candidates(),
            final(self).spec_target() == old(self).spec_target(),
            final(self).spec_config() == old(self).spec_config(),
    {
        self.state = IterState::Finished;
    }
}

impl ClosestPeersIter {
    /// The result of an iterator is sorted by ascending distance to the
    /// target, and its first peer is the closest of all peers that answered.
    pub proof fn lemma_result_closest_first(self)
        requires
            self.wf(),
        ensures
            peers_sorted(succeeded(self.candidates()), self.spec_target()),
            succeeded(self.candidates()).len() <= self.spec_config().num_results,
            forall|j: int|
                0 <= j < self.candidates().len()
                    && (#[trigger] self.candidates()[j]).data is Succeeded
                    ==> succeeded(self.candidates()).len() > 0 && distance(
                    succeeded(self.candidates())[0].key,
                    self.spec_target(),
                ) <= distance(self.candidates()[j].peer.key, self.spec_target()),
    {
        let s = self.candidates();
        let r = succeeded(s);
        lemma_result_sorted(s, self.spec_target());
        assert forall|j: int| 0 <= j < s.len()
            && (#[trigger] s[j]).data is Succeeded implies r.len()
            > 0 && distance(r[0].key, self.spec_target()) <= distance(
            s[j].peer.key,
            self.spec_target(),
        ) by {
            assert(r.contains(s[j].peer));
            let w = choose|w: int| 0 <= w < r.len() && r[w] == s[j].peer;
            if w > 0 {
                assert(distance(r[0].key, self.spec_target()) < distance(
                    r[w].key,
                    self.spec_target(),
                ));
            }
        }
    }
}

/// A step that hands out no peer is repeated by the step after it at the
/// same time: an iterator that waits goes on waiting, and one that is done
/// stays done, until a result arrives, time passes or candidates are added.
pub proof fn lemma_step_settles(
    before: Seq<Candidate>,
    config: ClosestPeersIterConfig,
    state: IterState,
    now: u64,
    mid: Seq<Candidate>,
    state_mid: IterState,
    r: PeersIterState,
    after: Seq<Candidate>,
    state_after: IterState,
    r2: PeersIterState,
)
    requires
        next_step(before, config, state, now, mid, state_mid, r),
        !(r matches PeersIterState::Waiting(Some(_))),
        next_step(mid, config, state_mid, now, after, state_after, r2),
    ensures
        r2 == r,
        after == mid,
{
    if state != IterState::Finished {
        crate::candidates::lemma_expired_twice(before, now);
        let s = expired(before, now);
        assert(mid == s);
        assert(expired(mid, now) == s);
    }
}

} // verus!
