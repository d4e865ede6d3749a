//! The iterator that explores several disjoint paths towards a target.
//!
//! The iterator runs a number of closest-peers iterators side by side, one per
//! path. Every peer that is discovered is given to one path only, the paths
//! taking turns, so that no two paths ever contact the same peer. A lookup
//! then reaches its target as long as one path is free of adversaries. The
//! iterator is done when every path is done.

use crate::candidates::{
    candidate_keys, lemma_offered_members, lemma_peer_keys_push, peer_keys, waiting_at,
    with_state, Candidate, PeerState, PeersIterState,
};
use crate::closest_peers::{
    is_done, next_step, ClosestPeersIter, ClosestPeersIterConfig, IterState,
};
use crate::key::Key;
use crate::nearest::{has_key, is_closest, lemma_offered_closest, Entry, Peer};
use vstd::prelude::*;

verus! {

/// The keys of a list.
pub open spec fn key_set(s: Seq<Key>) -> Set<Key> {
    Set::new(|k: Key| s.contains(k))
}

/// The peers of `reported` that are new: their key is not in `seen` and did
/// not occur earlier in `reported`.
pub open spec fn fresh_peers(seen: Set<Key>, reported: Seq<Peer>) -> Seq<Peer>
    decreases reported.len(),
{
    if reported.len() == 0 {
        Seq::empty()
    } else {
        let front = reported.drop_last();
        let p = reported.last();
        if seen.contains(p.key) || peer_keys(front).contains(p.key) {
            fresh_peers(seen, front)
        } else {
            fresh_peers(seen, front).push(p)
        }
    }
}

/// The path that takes the `j`-th new peer when the paths take turns, `d` of
/// them, starting with path `cursor`.
pub open spec fn path_of(cursor: int, d: int, j: int) -> int
    decreases j,
{
    if j <= 0 {
        cursor
    } else {
        let p = path_of(cursor, d, j - 1);
        if p + 1 >= d {
            0
        } else {
            p + 1
        }
    }
}

/// The keys of the new peers that path `q` takes.
pub open spec fn assigned(fresh: Seq<Peer>, cursor: int, d: int, q: int) -> Set<Key> {
    Set::new(
        |k: Key|
            exists|j: int|
                0 <= j < fresh.len() && (#[trigger] fresh[j]).key == k && path_of(cursor, d, j)
                    == q,
    )
}

/// Where a candidate of path `q` comes from after new peers were handed out:
/// it was a candidate of the path, or it is a new peer that the path took.
pub open spec fn after_distribution(
    before: Seq<Candidate>,
    fresh: Seq<Peer>,
    cursor: int,
    d: int,
    q: int,
    e: Candidate,
) -> bool {
    before.contains(e) || (e.data == PeerState::NotContacted && exists|j: int|
        0 <= j < fresh.len() && (#[trigger] fresh[j]) == e.peer && path_of(cursor, d, j) == q)
}

/// Two states of a path with the same target, parameters and condition.
pub open spec fn same_settings(a: ClosestPeersIter, b: ClosestPeersIter) -> bool {
    &&& a.spec_target() == b.spec_target()
    &&& a.spec_config() == b.spec_config()
    &&& a.spec_state() == b.spec_state()
}

/// How the paths change when the peers `reported` are handed out: the new
/// ones among them go to the paths in turn, and each path keeps the closest of
/// its candidates and the peers it took.
pub open spec fn distributed(
    paths0: Seq<ClosestPeersIter>,
    seen0: Set<Key>,
    cursor0: int,
    reported: Seq<Peer>,
    paths1: Seq<ClosestPeersIter>,
    seen1: Set<Key>,
    cursor1: int,
) -> bool {
    let fresh = fresh_peers(seen0, reported);
    let d = paths0.len() as int;
    &&& paths1.len() == d
    &&& seen1 == seen0.union(peer_keys(reported))
    &&& cursor1 == path_of(cursor0, d, fresh.len() as int)
    &&& forall|q: int|
        #![trigger paths1[q]]
        0 <= q < d ==> {
            &&& same_settings(paths0[q], paths1[q])
            &&& is_closest(
                paths1[q].candidates(),
                candidate_keys(paths0[q].candidates()).union(assigned(fresh, cursor0, d, q)),
                paths0[q].spec_target(),
                paths0[q].spec_config().num_results as nat,
            )
            &&& forall|x: int|
                0 <= x < paths1[q].candidates().len() ==> after_distribution(
                    paths0[q].candidates(),
                    fresh,
                    cursor0,
                    d,
                    q,
                    #[trigger] paths1[q].candidates()[x],
                )
        }
}

/// New peers are reported peers, unseen, and no two of them have the same key.
pub proof fn lemma_fresh_peers(seen: Set<Key>, reported: Seq<Peer>)
    ensures
        forall|j: int|
            0 <= j < fresh_peers(seen, reported).len() ==> reported.contains(
                #[trigger] fresh_peers(seen, reported)[j],
            ) && !seen.contains(fresh_peers(seen, reported)[j].key),
        forall|a: int, b: int|
            0 <= a < fresh_peers(seen, reported).len() && 0 <= b < fresh_peers(
                seen,
                reported,
            ).len() && a != b ==> (#[trigger] fresh_peers(seen, reported)[a]).key != (
            #[trigger] fresh_peers(seen, reported)[b]).key,
        forall|k: Key|
            peer_keys(reported).contains(k) && !seen.contains(k) ==> exists|j: int|
                0 <= j < fresh_peers(seen, reported).len() && (#[trigger] fresh_peers(
                    seen,
                    reported,
                )[j]).key == k,
    decreases reported.len(),
{
    let fresh = fresh_peers(seen, reported);
    if reported.len() > 0 {
        let front = reported.drop_last();
        let p = reported.last();
        let f = fresh_peers(seen, front);
        lemma_fresh_peers(seen, front);
        assert forall|j: int| 0 <= j < fresh.len() implies reported.contains(#[trigger] fresh[j])
            && !seen.contains(fresh[j].key) by {
            if j < f.len() {
                assert(fresh[j] == f[j]);
                let w = choose|w: int| 0 <= w < front.len() && front[w] == f[j];
                assert(reported[w] == f[j]);
            } else {
                assert(reported[reported.len() - 1] == p);
            }
        }
        assert forall|a: int, b: int|
            0 <= a < fresh.len() && 0 <= b < fresh.len() && a != b implies (#[trigger] fresh[a]).key
            != (#[trigger] fresh[b]).key by {
            if a < f.len() && b < f.len() {
                assert(fresh[a] == f[a] && fresh[b] == f[b]);
            } else {
                let o = if a < f.len() { a } else { b };
                assert(fresh[o] == f[o]);
                let w = choose|w: int| 0 <= w < front.len() && front[w] == f[o];
                assert(peer_keys(front).contains(f[o].key));
            }
        }
        assert forall|k: Key| peer_keys(reported).contains(k) && !seen.contains(k) implies exists|
            j: int,
        | 0 <= j < fresh.len() && (#[trigger] fresh[j]).key == k by {
            let w = choose|w: int| 0 <= w < reported.len() && (#[trigger] reported[w]).key == k;
            if peer_keys(front).contains(k) {
                let j = choose|j: int| 0 <= j < f.len() && (#[trigger] f[j]).key == k;
                assert(fresh[j].key == k);
            } else {
                if w < front.len() {
                    assert(front[w].key == k);
                }
                assert(k == p.key);
                assert(fresh[f.len() as int].key == k);
            }
        }
    }
}

/// The path that takes a peer is one of the paths.
pub proof fn lemma_path_in_range(cursor: int, d: int, j: int)
    requires
        0 <= cursor < d,
    ensures
        0 <= path_of(cursor, d, j) < d,
    decreases j,
{
    if j > 0 {
        lemma_path_in_range(cursor, d, j - 1);
    }
}

/// The keys that a path takes of a list with one more peer.
pub proof fn lemma_assigned_push(fresh: Seq<Peer>, p: Peer, cursor: int, d: int, q: int)
    ensures
        assigned(fresh.push(p), cursor, d, q) == if path_of(cursor, d, fresh.len() as int) == q {
            assigned(fresh, cursor, d, q).insert(p.key)
        } else {
            assigned(fresh, cursor, d, q)
        },
{
    let more = fresh.push(p);
    let a = assigned(more, cursor, d, q);
    let b = if path_of(cursor, d, fresh.len() as int) == q {
        assigned(fresh, cursor, d, q).insert(p.key)
    } else {
        assigned(fresh, cursor, d, q)
    };
    assert forall|k: Key| a.contains(k) <==> b.contains(k) by {
        if a.contains(k) {
            let j = choose|j: int|
                0 <= j < more.len() && (#[trigger] more[j]).key == k && path_of(cursor, d, j) == q;
            if j < fresh.len() {
                assert(fresh[j].key == k);
            }
        }
        if b.contains(k) {
            if assigned(fresh, cursor, d, q).contains(k) {
                let j = choose|j: int|
                    0 <= j < fresh.len() && (#[trigger] fresh[j]).key == k && path_of(cursor, d, j)
                        == q;
                assert(more[j].key == k);
            } else {
                assert(more[fresh.len() as int].key == k);
            }
        }
    }
    assert(a =~= b);
}

/// One step of a path at time `now`, from state `a` to state `b`.
pub open spec fn path_step(
    a: ClosestPeersIter,
    now: u64,
    b: ClosestPeersIter,
    r: PeersIterState,
) -> bool {
    &&& next_step(
        a.candidates(),
        a.spec_config(),
        a.spec_state(),
        now,
        b.candidates(),
        b.spec_state(),
        r,
    )
    &&& b.spec_target() == a.spec_target()
    &&& b.spec_config() == a.spec_config()
}

/// The step hands out no peer.
pub open spec fn quiet(r: PeersIterState) -> bool {
    !(r matches PeersIterState::Waiting(Some(_)))
}

/// What the iterator reports when no path hands out a peer: it is done when
/// every path is done; it waits for results when some path could take more
/// requests; else it waits at capacity.
pub open spec fn combined(rs: Seq<PeersIterState>) -> PeersIterState {
    if forall|i: int| 0 <= i < rs.len() ==> rs[i] == PeersIterState::Finished {
        PeersIterState::Finished
    } else if exists|i: int| 0 <= i < rs.len() && rs[i] == PeersIterState::Waiting(None) {
        PeersIterState::Waiting(None)
    } else {
        PeersIterState::WaitingAtCapacity
    }
}

/// One step of the iterator at time `now`: the paths take a step each, in
/// their order, up to the first that hands out a peer.
pub open spec fn disjoint_step(
    before: Seq<ClosestPeersIter>,
    now: u64,
    after: Seq<ClosestPeersIter>,
    r: PeersIterState,
) -> bool {
    exists|rs: Seq<PeersIterState>|
        #![trigger rs.len()]
        {
            &&& after.len() == before.len()
            &&& 1 <= rs.len() <= before.len()
            &&& forall|i: int|
                0 <= i < rs.len() ==> path_step(before[i], now, #[trigger] after[i], rs[i])
            &&& forall|i: int| rs.len() <= i < before.len() ==> #[trigger] after[i] == before[i]
            &&& forall|i: int| 0 <= i < rs.len() - 1 ==> quiet(#[trigger] rs[i])
            &&& if quiet(rs.last()) {
                rs.len() == before.len() && r == combined(rs)
            } else {
                r == rs.last()
            }
        }
}

/// A step of a path changes the states of its candidates, not its peers.
pub proof fn lemma_step_keeps_peers(
    a: ClosestPeersIter,
    now: u64,
    b: ClosestPeersIter,
    r: PeersIterState,
)
    requires
        path_step(a, now, b, r),
    ensures
        b.candidates().len() == a.candidates().len(),
        forall|x: int|
            0 <= x < a.candidates().len() ==> (#[trigger] b.candidates()[x]).peer
                == a.candidates()[x].peer,
{
    let s = crate::candidates::expired(a.candidates(), now);
    assert(s.len() == a.candidates().len());
    assert forall|x: int| 0 <= x < a.candidates().len() implies (#[trigger] b.candidates()[x]).peer
        == a.candidates()[x].peer by {
        assert(s[x].peer == a.candidates()[x].peer);
    }
}

/// Path `p` waits for the answer of the peer at `key`, its candidate `i`.
pub open spec fn path_waiting(p: ClosestPeersIter, key: Key, i: int) -> bool {
    p.spec_state() != IterState::Finished && waiting_at(p.candidates(), key, i)
}

/// Some path waits for the answer of the peer at `key`.
pub open spec fn any_waiting(paths: Seq<ClosestPeersIter>, key: Key) -> bool {
    exists|q: int, i: int| 0 <= q < paths.len() && #[trigger] path_waiting(paths[q], key, i)
}

/// The request of one path to the peer at `key` got its final state, and no
/// other path changed.
pub open spec fn resolved(
    before: Seq<ClosestPeersIter>,
    after: Seq<ClosestPeersIter>,
    key: Key,
    state: PeerState,
) -> bool {
    exists|q: int, i: int|
        #![trigger path_waiting(before[q], key, i)]
        {
            &&& 0 <= q < before.len()
            &&& path_waiting(before[q], key, i)
            &&& after.len() == before.len()
            &&& after[q].candidates() == with_state(before[q].candidates(), i, state)
            &&& same_settings(before[q], after[q])
            &&& forall|q2: int| 0 <= q2 < before.len()
                && q2 != q ==> #[trigger] after[q2] == before[q2]
        }
}

/// The keys of the peers that answered on some path.
pub open spec fn result_keys(paths: Seq<ClosestPeersIter>, from: int) -> Set<Key> {
    Set::new(
        |k: Key|
            exists|q: int, j: int|
                from <= q < paths.len() && 0 <= j < paths[q].candidates().len() && (
                #[trigger] paths[q].candidates()[j]).data is Succeeded
                    && paths[q].candidates()[j].peer.key == k,
    )
}

/// The candidate at place `x` of path `q` is `peer`, and has answered.
pub open spec fn answered_at(paths: Seq<ClosestPeersIter>, peer: Peer, q: int, x: int) -> bool {
    &&& 0 <= q < paths.len()
    &&& 0 <= x < paths[q].candidates().len()
    &&& paths[q].candidates()[x].data is Succeeded
    &&& paths[q].candidates()[x].peer == peer
}

/// The peer is a candidate of one of the paths, and has answered.
pub open spec fn answered(paths: Seq<ClosestPeersIter>, peer: Peer) -> bool {
    exists|q: int, x: int| answered_at(paths, peer, q, x)
}

/// The peers of a list as entries that record nothing else.
pub open spec fn as_entries(s: Seq<Peer>) -> Seq<Entry<()>> {
    s.map_values(|p: Peer| Entry { peer: p, data: () })
}

/// The iterator over several disjoint paths towards a target.
pub struct ClosestDisjointPeersIter {
    target: Key,
    config: ClosestPeersIterConfig,
    paths: Vec<ClosestPeersIter>,
    seen: Vec<Key>,
    cursor: usize,
}

impl ClosestDisjointPeersIter {
    /// The paths of the iterator.
    pub closed spec fn paths(self) -> Seq<ClosestPeersIter> {
        self.paths@
    }

    /// The keys of all peers that were ever given to a path.
    pub closed spec fn seen(self) -> Set<Key> {
        key_set(self.seen@)
    }

    /// The path that takes the next new peer.
    pub closed spec fn cursor(self) -> int {
        self.cursor as int
    }

    /// The key that the iterator closes in on.
    pub closed spec fn spec_target(self) -> Key {
        self.target
    }

    /// The parameters of every path.
    pub closed spec fn spec_config(self) -> ClosestPeersIterConfig {
        self.config
    }

    /// There is a path, every path is in order and runs towards the target
    /// with the same parameters, every candidate was seen, and no key is a
    /// candidate of two paths.
    pub open spec fn wf(self) -> bool {
        &&& self.paths().len() >= 1
        &&& 0 <= self.cursor() < self.paths().len()
        &&& self.spec_config().valid()
        &&& forall|q: int|
            0 <= q < self.paths().len() ==> {
                &&& (#[trigger] self.paths()[q]).wf()
                &&& self.paths()[q].spec_target() == self.spec_target()
                &&& self.paths()[q].spec_config() == self.spec_config()
            }
        &&& forall|q: int, x: int|
            0 <= q < self.paths().len() && 0 <= x < self.paths()[q].candidates().len()
                ==> self.seen().contains((#[trigger] self.paths()[q].candidates()[x]).peer.key)
        &&& forall|q1: int, x1: int, q2: int, x2: int|
            0 <= q1 < self.paths().len() && 0 <= x1 < self.paths()[q1].candidates().len() && 0
                <= q2 < self.paths().len() && 0 <= x2 < self.paths()[q2].candidates().len()
                && q1 != q2 ==> (#[trigger] self.paths()[q1].candidates()[x1]).peer.key != (
            #[trigger] self.paths()[q2].candidates()[x2]).peer.key
    }

    /// Whether `key` was given to a path before.
    fn was_seen(&self, key: &Key) -> (r: bool)
        ensures
            r == self.seen().contains(*key),
    {
        let n = self.seen.len();
        let mut i: usize = 0;
        while i < n
            invariant
                0 <= i <= n,
                n == self.seen@.len(),
                forall|j: int| 0 <= j < i ==> self.seen@[j] != *key,
            decreases n - i,
        {
            if self.seen[i].same(key) {
                return true;
            }
            i += 1;
        }
        false
    }

    /// Picks the new peers out of `reported` and takes note of their keys.
    fn pick_fresh(&mut self, reported: &Vec<Peer>) -> (fresh: Vec<Peer>)
        ensures
            fresh@ == fresh_peers(old(self).seen(), reported@),
            final(self).seen() == old(self).seen().union(peer_keys(reported@)),
            final(self).paths() == old(self).paths(),
            final(self).cursor() == old(self).cursor(),
            final(self).spec_target() == old(self).spec_target(),
            final(self).spec_config() == old(self).spec_config(),
    {
        let ghost seen0 = self.seen();
        let mut fresh: Vec<Peer> = Vec::new();
        let n = reported.len();
        let mut j: usize = 0;
        proof {
            assert(peer_keys(reported@.take(0)) =~= Set::<Key>::empty());
            assert(seen0.union(Set::<Key>::empty()) =~= seen0);
        }
        while j < n
            invariant
                0 <= j <= n,
                n == reported@.len(),
                fresh@ == fresh_peers(seen0, reported@.take(j as int)),
                self.seen() == seen0.union(peer_keys(reported@.take(j as int))),
                self.paths == old(self).paths,
                self.cursor == old(self).cursor,
                self.target == old(self).target,
                self.config == old(self).config,
            decreases n - j,
        {
            let p = reported[j];
            proof {
                assert(reported@.take(j + 1).drop_last() =~= reported@.take(j as int));
                assert(reported@.take(j + 1).last() == p);
                assert(reported@.take(j + 1) =~= reported@.take(j as int).push(p));
                lemma_peer_keys_push(reported@.take(j as int), p);
            }
            if !self.was_seen(&p.key) {
                let ghost before = self.seen@;
                self.seen.push(p.key);
                fresh.push(p);
                proof {
                    assert forall|k: Key| key_set(self.seen@).contains(k) <==> key_set(
                        before,
                    ).insert(p.key).contains(k) by {
                        if self.seen@.contains(k) {
                            let w = choose|w: int| 0 <= w < self.seen@.len() && self.seen@[w] == k;
                            if w < before.len() {
                                assert(before[w] == k);
                            }
                        }
                        if before.contains(k) {
                            let w = choose|w: int| 0 <= w < before.len() && before[w] == k;
                            assert(self.seen@[w] == k);
                        }
                        if k == p.key {
                            assert(self.seen@[before.len() as int] == k);
                        }
                    }
                    assert(key_set(self.seen@) =~= key_set(before).insert(p.key));
                    assert(self.seen() =~= seen0.union(peer_keys(reported@.take(j + 1))));
                }
            } else {
                proof {
                    assert(self.seen() =~= seen0.union(peer_keys(reported@.take(j + 1))));
                }
            }
            j += 1;
        }
        assert(reported@.take(n as int) =~= reported@);
        fresh
    }

    /// Whether every path is done.
    pub open spec fn all_finished(self) -> bool {
        forall|q: int|
            0 <= q < self.paths().len() ==> is_done((#[trigger] self.paths()[q]).spec_state())
    }

    /// An iterator towards `target` over `num_paths` paths, to which the
    /// peers `known_peers` are handed out in turn.
    pub fn with_config(
        config: ClosestPeersIterConfig,
        target: Key,
        known_peers: &Vec<Peer>,
        num_paths: usize,
    ) -> (it: Self)
        requires
            config.valid(),
            num_paths >= 1,
        ensures
            it.wf(),
            it.spec_target() == target,
            it.spec_config() == config,
            it.paths().len() == num_paths,
            it.seen() == peer_keys(known_peers@),
            it.cursor() == path_of(
                0,
                num_paths as int,
                fresh_peers(Set::empty(), known_peers@).len() as int,
            ),
            forall|q: int|
                #![trigger it.paths()[q]]
                0 <= q < num_paths ==> {
                    &&& it.paths()[q].spec_state() == IterState::Iterating
                    &&& is_closest(
                        it.paths()[q].candidates(),
                        assigned(
                            fresh_peers(Set::empty(), known_peers@),
                            0,
                            num_paths as int,
                            q,
                        ),
                        target,
                        config.num_results as nat,
                    )
                    &&& forall|x: int|
                        0 <= x < it.paths()[q].candidates().len() ==> (
                        #[trigger] it.paths()[q].candidates()[x]).data == PeerState::NotContacted
                },
    {
        let none: Vec<Peer> = Vec::new();
        let mut paths: Vec<ClosestPeersIter> = Vec::new();
        let mut i: usize = 0;
        while i < num_paths
            invariant
                0 <= i <= num_paths,
                config.valid(),
                none@.len() == 0,
                paths@.len() == i,
                forall|q: int|
                    0 <= q < i ==> {
                        &&& (#[trigger] paths@[q]).wf()
                        &&& paths@[q].spec_target() == target
                        &&& paths@[q].spec_config() == config
                        &&& paths@[q].spec_state() == IterState::Iterating
                        &&& paths@[q].candidates().len() == 0
                    },
            decreases num_paths - i,
        {
            let path = ClosestPeersIter::with_config(config, target, &none);
            proof {
                if path.candidates().len() > 0 {
                    assert(peer_keys(none@).contains(path.candidates()[0].peer.key));
                    assert(false);
                }
            }
            paths.push(path);
            i += 1;
        }
        let mut it = ClosestDisjointPeersIter {
            target,
            config,
            paths,
            seen: Vec::new(),
            cursor: 0,
        };
        let ghost start = it.paths@;
        proof {
            assert(it.seen() =~= Set::<Key>::empty());
        }
        it.distribute(known_peers);
        proof {
            let fresh = fresh_peers(Set::empty(), known_peers@);
            assert(it.seen() =~= peer_keys(known_peers@));
            assert forall|q: int| #![trigger it.paths()[q]] 0 <= q < num_paths implies {
                &&& it.paths()[q].spec_state() == IterState::Iterating
                &&& is_closest(
                    it.paths()[q].candidates(),
                    assigned(fresh, 0, num_paths as int, q),
                    target,
                    config.num_results as nat,
                )
                &&& forall|x: int|
                    0 <= x < it.paths()[q].candidates().len() ==> (
                    #[trigger] it.paths()[q].candidates()[x]).data == PeerState::NotContacted
            } by {
                assert(start[q].candidates().len() == 0);
                assert(candidate_keys(start[q].candidates()) =~= Set::<Key>::empty()) by {
                    assert forall|k: Key| !has_key(start[q].candidates(), k) by {}
                }
                assert(candidate_keys(start[q].candidates()).union(
                    assigned(fresh, 0, num_paths as int, q),
                ) =~= assigned(fresh, 0, num_paths as int, q));
                assert forall|x: int| 0 <= x < it.paths()[q].candidates().len() implies (
                #[trigger] it.paths()[q].candidates()[x]).data == PeerState::NotContacted by {
                    assert(after_distribution(
                        start[q].candidates(),
                        fresh,
                        0,
                        num_paths as int,
                        q,
                        it.paths()[q].candidates()[x],
                    ));
                }
            }
        }
        it
    }

    /// Whether every path is done.
    pub fn is_finished(&self) -> (r: bool)
        ensures
            r == self.all_finished(),
    {
        let d = self.paths.len();
        let mut q: usize = 0;
        while q < d
            invariant
                0 <= q <= d,
                d == self.paths@.len(),
                forall|j: int|
                    0 <= j < q ==> is_done((#[trigger] self.paths@[j]).spec_state()),
            decreases d - q,
        {
            if !self.paths[q].is_finished() {
                return false;
            }
            q += 1;
        }
        true
    }

    /// Ends the iteration on every path.
    pub fn finish(&mut self)
        requires
            old(self).wf(),
        ensures
            final(self).wf(),
            final(self).all_finished(),
            final(self).paths().len() == old(self).paths().len(),
            forall|q: int|
                0 <= q < old(self).paths().len()
                    ==> (#[trigger] final(self).paths()[q]).candidates()
                    == old(self).paths()[q].candidates(),
            final(self).seen() == old(self).seen(),
            final(self).cursor() == old(self).cursor(),
            final(self).spec_target() == old(self).spec_target(),
            final(self).spec_config() == old(self).spec_config(),
    {
        let d = self.paths.len();
        let mut q: usize = 0;
        while q < d
            invariant
                0 <= q <= d,
                d == self.paths@.len(),
                d == old(self).paths@.len(),
                self.seen == old(self).seen,
                self.cursor == old(self).cursor,
                self.target == old(self).target,
                self.config == old(self).config,
                forall|j: int|
                    0 <= j < d ==> {
                        &&& (#[trigger] self.paths@[j]).wf()
                        &&& self.paths@[j].candidates() == old(self).paths@[j].candidates()
                        &&& self.paths@[j].spec_target() == old(self).paths@[j].spec_target()
                        &&& self.paths@[j].spec_config() == old(self).paths@[j].spec_config()
                    },
                forall|j: int|
                    0 <= j < q ==> (#[trigger] self.paths@[j]).spec_state() == IterState::Finished,
            decreases d - q,
        {
            self.paths[q].finish();
            q += 1;
        }
    }

    /// Advances the iterator at time `now` and says what to do next. The
    /// paths take a step each, in their order, until one hands out a peer.
    pub fn next(&mut self, now: u64) -> (r: PeersIterState)
        requires
            old(self).wf(),
        ensures
            final(self).wf(),
            disjoint_step(old(self).paths(), now, final(self).paths(), r),
            final(self).seen() == old(self).seen(),
            final(self).cursor() == old(self).cursor(),
            final(self).spec_target() == old(self).spec_target(),
            final(self).spec_config() == old(self).spec_config(),
    {
        let ghost start = self.paths@;
        let d = self.paths.len();
        let mut q: usize = 0;
        let ghost mut rs: Seq<PeersIterState> = Seq::empty();
        let mut all_done = true;
        let mut any_idle = false;
        while q < d
            invariant
                0 <= q <= d,
                d == start.len(),
                d >= 1,
                self.paths@.len() == d,
                rs.len() == q,
                self.seen == old(self).seen,
                self.cursor == old(self).cursor,
                self.target == old(self).target,
                self.config == old(self).config,
                start == old(self).paths@,
                old(self).wf(),
                forall|j: int| 0 <= j < d ==> (#[trigger] self.paths@[j]).wf(),
                forall|j: int| 0 <= j < q ==> path_step(start[j], now, #[trigger] self.paths@[j],
                    rs[j]),
                forall|j: int| 0 <= j < q ==> quiet(#[trigger] rs[j]),
                forall|j: int| q <= j < d ==> #[trigger] self.paths@[j] == start[j],
                all_done == (forall|j: int| 0 <= j < q ==> rs[j] == PeersIterState::Finished),
                any_idle == (exists|j: int| 0 <= j < q && rs[j] == PeersIterState::Waiting(None)),
            decreases d - q,
        {
            let ghost prev = rs;
            let r = self.paths[q].next(now);
            proof {
                rs = rs.push(r);
                assert forall|j: int| 0 <= j < q + 1 implies path_step(
                    start[j],
                    now,
                    #[trigger] self.paths@[j],
                    rs[j],
                ) by {
                    if j < q {
                        assert(rs[j] == prev[j]);
                    }
                }
            }
            match r {
                PeersIterState::Waiting(Some(_)) => {
                    proof {
                        assert forall|j: int| 0 <= j < rs.len() - 1 implies quiet(
                            #[trigger] rs[j],
                        ) by {
                            assert(rs[j] == prev[j]);
                        }
                        assert(rs.last() == r);
                        assert(rs.len() == q + 1);
                        self.lemma_stepped_wf(*old(self), now, rs);
                    }
                    return r;
                },
                PeersIterState::Finished => {
                    proof {
                        assert forall|j: int| 0 <= j < q + 1 implies quiet(#[trigger] rs[j]) by {
                            if j < q {
                                assert(rs[j] == prev[j]);
                            }
                        }
                        assert(all_done == (forall|j: int|
                            0 <= j < q + 1 ==> rs[j] == PeersIterState::Finished)) by {
                            assert forall|j: int| 0 <= j < q implies rs[j] == prev[j] by {}
                            if all_done {
                                assert forall|j: int| 0 <= j < q + 1 implies rs[j]
                                    == PeersIterState::Finished by {
                                    if j < q {
                                        assert(prev[j] == PeersIterState::Finished);
                                    }
                                }
                            } else {
                                let w = choose|w: int|
                                    0 <= w < q && prev[w] != PeersIterState::Finished;
                                assert(rs[w] == prev[w]);
                            }
                        }
                        assert(any_idle == (exists|j: int|
                            0 <= j < q + 1 && rs[j] == PeersIterState::Waiting(None))) by {
                            if any_idle {
                                let w = choose|w: int|
                                    0 <= w < q && prev[w] == PeersIterState::Waiting(None);
                                assert(rs[w] == prev[w]);
                            } else {
                                assert forall|j: int| 0 <= j < q + 1 implies rs[j]
                                    != PeersIterState::Waiting(None) by {
                                    if j < q {
                                        assert(rs[j] == prev[j]);
                                    }
                                }
                            }
                        }
                    }
                },
                PeersIterState::Waiting(None) => {
                    all_done = false;
                    any_idle = true;
                    proof {
                        assert forall|j: int| 0 <= j < q + 1 implies quiet(#[trigger] rs[j]) by {
                            if j < q {
                                assert(rs[j] == prev[j]);
                            }
                        }
                        assert(rs[q as int] == PeersIterState::Waiting(None));
                        assert(rs[q as int] != PeersIterState::Finished);
                    }
                },
                PeersIterState::WaitingAtCapacity => {
                    all_done = false;
                    proof {
                        assert forall|j: int| 0 <= j < q + 1 implies quiet(#[trigger] rs[j]) by {
                            if j < q {
                                assert(rs[j] == prev[j]);
                            }
                        }
                        assert(rs[q as int] != PeersIterState::Finished);
                        assert(any_idle == (exists|j: int|
                            0 <= j < q + 1 && rs[j] == PeersIterState::Waiting(None))) by {
                            if any_idle {
                                let w = choose|w: int|
                                    0 <= w < q && prev[w] == PeersIterState::Waiting(None);
                                assert(rs[w] == prev[w]);
                            } else {
                                assert forall|j: int| 0 <= j < q + 1 implies rs[j]
                                    != PeersIterState::Waiting(None) by {
                                    if j < q {
                                        assert(rs[j] == prev[j]);
                                    }
                                }
                            }
                        }
                    }
                },
            }
            q += 1;
        }
        let r = if all_done {
            PeersIterState::Finished
        } else if any_idle {
            PeersIterState::Waiting(None)
        } else {
            PeersIterState::WaitingAtCapacity
        };
        proof {
            assert(rs.len() == d);
            assert(quiet(rs.last()));
            assert(r == combined(rs));
            self.lemma_stepped_wf(*old(self), now, rs);
        }
        r
    }

    /// Paths that took steps are still disjoint: a step changes no peer.
    proof fn lemma_stepped_wf(self, before: Self, now: u64, rs: Seq<PeersIterState>)
        requires
            before.wf(),
            self.paths().len() == before.paths().len(),
            rs.len() <= before.paths().len(),
            self.seen() == before.seen(),
            self.cursor() == before.cursor(),
            self.spec_target() == before.spec_target(),
            self.spec_config() == before.spec_config(),
            forall|j: int| 0 <= j < self.paths().len() ==> (#[trigger] self.paths()[j]).wf(),
            forall|j: int|
                0 <= j < rs.len() ==> path_step(
                    before.paths()[j],
                    now,
                    #[trigger] self.paths()[j],
                    rs[j],
                ),
            forall|j: int|
                rs.len() <= j < before.paths().len() ==> #[trigger] self.paths()[j]
                    == before.paths()[j],
        ensures
            self.wf(),
    {
        assert forall|q: int| 0 <= q < self.paths().len() implies {
            &&& self.paths()[q].candidates().len() == before.paths()[q].candidates().len()
            &&& (#[trigger] self.paths()[q]).spec_target() == self.spec_target()
            &&& self.paths()[q].spec_config() == self.spec_config()
            &&& forall|x: int|
                0 <= x < self.paths()[q].candidates().len() ==> (
                #[trigger] self.paths()[q].candidates()[x]).peer
                    == before.paths()[q].candidates()[x].peer
        } by {
            assert(before.paths()[q].wf());
            if q < rs.len() {
                lemma_step_keeps_peers(before.paths()[q], now, self.paths()[q], rs[q]);
            }
        }
        assert forall|q: int, x: int|
            0 <= q < self.paths().len()
                && 0 <= x < self.paths()[q].candidates().len() implies self.seen().contains(
            (#[trigger] self.paths()[q].candidates()[x]).peer.key,
        ) by {
            assert(self.paths()[q].candidates().len() == before.paths()[q].candidates().len());
            assert(before.seen().contains(before.paths()[q].candidates()[x].peer.key));
        }
        assert forall|q1: int, x1: int, q2: int, x2: int|
            0 <= q1 < self.paths().len() && 0 <= x1 < self.paths()[q1].candidates().len() && 0
                <= q2 < self.paths().len() && 0 <= x2 < self.paths()[q2].candidates().len()
                && q1 != q2 implies (#[trigger] self.paths()[q1].candidates()[x1]).peer.key != (
        #[trigger] self.paths()[q2].candidates()[x2]).peer.key by {
            assert(self.paths()[q1].candidates().len() == before.paths()[q1].candidates().len());
            assert(self.paths()[q2].candidates().len() == before.paths()[q2].candidates().len());
            assert(before.paths()[q1].candidates()[x1].peer.key
                != before.paths()[q2].candidates()[x2].peer.key);
        }
    }

    /// Gives the request in flight to the peer at `peer` its final state on
    /// the path that waits for it.
    fn resolve(&mut self, peer: &Key, answered: bool) -> (r: bool)
        requires
            old(self).wf(),
        ensures
            final(self).wf(),
            r == any_waiting(old(self).paths(), *peer),
            r ==> resolved(
                old(self).paths(),
                final(self).paths(),
                *peer,
                if answered {
                    PeerState::Succeeded
                } else {
                    PeerState::Failed
                },
            ),
            !r ==> final(self).paths() == old(self).paths(),
            final(self).seen() == old(self).seen(),
            final(self).cursor() == old(self).cursor(),
            final(self).spec_target() == old(self).spec_target(),
            final(self).spec_config() == old(self).spec_config(),
    {
        let ghost start = self.paths@;
        let ghost state = if answered {
            PeerState::Succeeded
        } else {
            PeerState::Failed
        };
        let d = self.paths.len();
        let mut q: usize = 0;
        while q < d
            invariant
                0 <= q <= d,
                d == start.len(),
                self.paths@ == start,
                start == old(self).paths@,
                self.seen == old(self).seen,
                self.cursor == old(self).cursor,
                self.target == old(self).target,
                self.config == old(self).config,
                old(self).wf(),
                state == if answered {
                    PeerState::Succeeded
                } else {
                    PeerState::Failed
                },
                forall|j: int, i: int| 0 <= j < q ==> !#[trigger] path_waiting(start[j], *peer, i),
            decreases d - q,
        {
            let ghost before = self.paths@[q as int];
            let r = if answered {
                let r = self.paths[q].on_answer(peer);
                proof {
                    if r {
                        let i = choose|i: int|
                            waiting_at(before.candidates(), *peer, i)
                                && self.paths@[q as int].candidates() == with_state(
                                before.candidates(),
                                i,
                                PeerState::Succeeded,
                            );
                        assert(waiting_at(before.candidates(), *peer, i)
                            && self.paths@[q as int].candidates() == with_state(
                            before.candidates(),
                            i,
                            state,
                        ));
                    }
                }
                r
            } else {
                let r = self.paths[q].on_failure(peer);
                proof {
                    if r {
                        let i = choose|i: int|
                            waiting_at(before.candidates(), *peer, i)
                                && self.paths@[q as int].candidates() == with_state(
                                before.candidates(),
                                i,
                                PeerState::Failed,
                            );
                        assert(waiting_at(before.candidates(), *peer, i)
                            && self.paths@[q as int].candidates() == with_state(
                            before.candidates(),
                            i,
                            state,
                        ));
                    }
                }
                r
            };
            if r {
                proof {
                    assert(before == start[q as int]);
                    let i = choose|i: int|
                        waiting_at(before.candidates(), *peer, i)
                            && self.paths@[q as int].candidates()
                            == with_state(before.candidates(), i, state);
                    assert(path_waiting(start[q as int], *peer, i));
                    assert forall|q2: int| 0 <= q2 < d && q2 != q implies #[trigger] self.paths@[q2]
                        == start[q2] by {}
                    assert(resolved(start, self.paths@, *peer, state));
                    self.lemma_resolved_wf(*old(self), q as int, i, state);
                }
                return true;
            }
            proof {
                assert(self.paths@[q as int] == start[q as int]);
                assert(self.paths@ =~= start);
                assert forall|i: int| !path_waiting(start[q as int], *peer, i) by {}
            }
            q += 1;
        }
        false
    }

    /// Paths of which one gave a request its final state are still disjoint.
    proof fn lemma_resolved_wf(self, before: Self, q: int, i: int, state: PeerState)
        requires
            before.wf(),
            self.paths().len() == before.paths().len(),
            self.seen() == before.seen(),
            self.cursor() == before.cursor(),
            self.spec_target() == before.spec_target(),
            self.spec_config() == before.spec_config(),
            0 <= q < before.paths().len(),
            0 <= i < before.paths()[q].candidates().len(),
            self.paths()[q].wf(),
            self.paths()[q].candidates() == with_state(before.paths()[q].candidates(), i, state),
            same_settings(before.paths()[q], self.paths()[q]),
            forall|q2: int|
                0 <= q2 < before.paths().len() && q2 != q ==> #[trigger] self.paths()[q2]
                    == before.paths()[q2],
        ensures
            self.wf(),
    {
        assert forall|j: int| 0 <= j < self.paths().len() implies {
            &&& self.paths()[j].candidates().len() == before.paths()[j].candidates().len()
            &&& (#[trigger] self.paths()[j]).wf()
            &&& self.paths()[j].spec_target() == self.spec_target()
            &&& self.paths()[j].spec_config() == self.spec_config()
            &&& forall|x: int|
                0 <= x < self.paths()[j].candidates().len() ==> (
                #[trigger] self.paths()[j].candidates()[x]).peer
                    == before.paths()[j].candidates()[x].peer
        } by {
            assert(before.paths()[j].wf());
        }
        assert forall|j: int, x: int|
            0 <= j < self.paths().len()
                && 0 <= x < self.paths()[j].candidates().len() implies self.seen().contains(
            (#[trigger] self.paths()[j].candidates()[x]).peer.key,
        ) by {
            assert(self.paths()[j].candidates().len() == before.paths()[j].candidates().len());
            assert(before.seen().contains(before.paths()[j].candidates()[x].peer.key));
        }
        assert forall|q1: int, x1: int, q2: int, x2: int|
            0 <= q1 < self.paths().len() && 0 <= x1 < self.paths()[q1].candidates().len() && 0
                <= q2 < self.paths().len() && 0 <= x2 < self.paths()[q2].candidates().len()
                && q1 != q2 implies (#[trigger] self.paths()[q1].candidates()[x1]).peer.key != (
        #[trigger] self.paths()[q2].candidates()[x2]).peer.key by {
            assert(self.paths()[q1].candidates().len() == before.paths()[q1].candidates().len());
            assert(self.paths()[q2].candidates().len() == before.paths()[q2].candidates().len());
            assert(before.paths()[q1].candidates()[x1].peer.key
                != before.paths()[q2].candidates()[x2].peer.key);
        }
    }

    /// Takes the failure of the request to the peer at `peer`. Returns whether
    /// a path was waiting for that peer; if not, nothing changes.
    pub fn on_failure(&mut self, peer: &Key) -> (r: bool)
        requires
            old(self).wf(),
        ensures
            final(self).wf(),
            r == any_waiting(old(self).paths(), *peer),
            r ==> resolved(old(self).paths(), final(self).paths(), *peer, PeerState::Failed),
            !r ==> final(self).paths() == old(self).paths(),
            final(self).seen() == old(self).seen(),
            final(self).cursor() == old(self).cursor(),
            final(self).spec_target() == old(self).spec_target(),
            final(self).spec_config() == old(self).spec_config(),
    {
        self.resolve(peer, false)
    }

    /// Takes the answer of the peer at `peer`, which reports `closer_peers`.
    /// Returns whether a path was waiting for that peer; if not, nothing
    /// changes. Otherwise the peer has succeeded on its path, and the reported
    /// peers that are new are handed out to the paths in turn.
    pub fn on_success(&mut self, peer: &Key, closer_peers: &Vec<Peer>) -> (r: bool)
        requires
            old(self).wf(),
        ensures
            final(self).wf(),
            r == any_waiting(old(self).paths(), *peer),
            !r ==> final(self).paths() == old(self).paths()
                && final(self).seen() == old(self).seen()
                && final(self).cursor() == old(self).cursor(),
            r ==> exists|marked: Seq<ClosestPeersIter>|
                #![trigger resolved(old(self).paths(), marked, *peer, PeerState::Succeeded)]
                resolved(old(self).paths(), marked, *peer, PeerState::Succeeded) && distributed(
                    marked,
                    old(self).seen(),
                    old(self).cursor(),
                    closer_peers@,
                    final(self).paths(),
                    final(self).seen(),
                    final(self).cursor(),
                ),
            final(self).spec_target() == old(self).spec_target(),
            final(self).spec_config() == old(self).spec_config(),
    {
        if !self.resolve(peer, true) {
            return false;
        }
        let ghost marked = self.paths@;
        self.distribute(closer_peers);
        proof {
            assert(resolved(old(self).paths(), marked, *peer, PeerState::Succeeded));
        }
        true
    }

    /// The peers that answered on any path: the closest of them, at most as
    /// many as results are asked for, closest first.
    pub fn into_result(self) -> (r: Vec<Peer>)
        requires
            self.wf(),
        ensures
            is_closest(
                as_entries(r@),
                result_keys(self.paths(), 0),
                self.spec_target(),
                self.spec_config().num_results as nat,
            ),
            forall|i: int| 0 <= i < r@.len() ==> answered(self.paths(), #[trigger] r@[i]),
    {
        let ghost all = self.paths@;
        let target = self.target;
        let limit = self.config.num_results;
        let mut paths = self.paths;
        let mut out: Vec<Entry<()>> = Vec::new();
        proof {
            assert(result_keys(all, all.len() as int) =~= Set::<Key>::empty());
        }
        while paths.len() > 0
            invariant
                paths@.len() <= all.len(),
                paths@ == all.take(paths@.len() as int),
                forall|q: int|
                    0 <= q < all.len() ==> (#[trigger] all[q]).wf() && all[q].spec_target()
                        == target && all[q].spec_config().num_results == limit,
                crate::nearest::sorted(out@, target),
                out@.len() <= limit,
                is_closest(out@, result_keys(all, paths@.len() as int), target, limit as nat),
                forall|i: int| 0 <= i < out@.len() ==> answered(all, (#[trigger] out@[i]).peer),
            decreases paths@.len(),
        {
            let ghost n = paths@.len() as int;
            let path = paths.pop().unwrap();
            proof {
                assert(path == all[n - 1]);
                assert(paths@ =~= all.take(n - 1));
                path.lemma_candidates_sorted();
                crate::candidates::lemma_result_sorted(path.candidates(), target);
            }
            let ghost cands = path.candidates();
            let peers = path.into_result();
            let m = peers.len();
            let mut j: usize = 0;
            proof {
                assert(peer_keys(peers@.take(0)) =~= Set::<Key>::empty());
                assert(result_keys(all, n).union(Set::<Key>::empty()) =~= result_keys(all, n));
                assert forall|w: int| 0 <= w < m implies crate::fixed_peers::is_succeeded_candidate(
                    cands,
                    #[trigger] peers@[w],
                ) by {
                    assert(peers@[w] == crate::candidates::succeeded(cands)[w]);
                    let x = choose|x: int|
                        0 <= x < cands.len() && (#[trigger] cands[x]).data is Succeeded
                            && cands[x].peer == crate::candidates::succeeded(cands)[w];
                    assert(cands[x].peer == peers@[w]);
                }
            }
            while j < m
                invariant
                    0 <= j <= m,
                    m == peers@.len(),
                    crate::nearest::sorted(out@, target),
                    out@.len() <= limit,
                    is_closest(
                        out@,
                        result_keys(all, n).union(peer_keys(peers@.take(j as int))),
                        target,
                        limit as nat,
                    ),
                    0 < n <= all.len(),
                    cands == all[n - 1].candidates(),
                    forall|w: int|
                        0 <= w < m ==> crate::fixed_peers::is_succeeded_candidate(
                            cands,
                            #[trigger] peers@[w],
                        ),
                    forall|i: int| 0 <= i < out@.len() ==> answered(all, (#[trigger] out@[i]).peer),
                decreases m - j,
            {
                let entry = Entry { peer: peers[j], data: () };
                let ghost before = out@;
                let ghost seen = result_keys(all, n).union(peer_keys(peers@.take(j as int)));
                let r = crate::nearest::offer(&mut out, &target, limit, entry);
                proof {
                    lemma_offered_closest(before, out@, seen, target, limit as nat, entry, r);
                    crate::candidates::lemma_offered_members(
                        before,
                        out@,
                        target,
                        limit as nat,
                        entry,
                        r,
                    );
                    assert forall|i: int| 0 <= i < out@.len() implies answered(
                        all,
                        (#[trigger] out@[i]).peer,
                    ) by {
                        if out@[i] == entry {
                            assert(crate::fixed_peers::is_succeeded_candidate(
                                cands,
                                peers@[j as int],
                            ));
                            let x = choose|x: int|
                                0 <= x < cands.len() && (#[trigger] cands[x]).data is Succeeded
                                    && cands[x].peer == peers@[j as int];
                            assert(answered_at(all, entry.peer, n - 1, x));
                        } else {
                            let y = choose|y: int| 0 <= y < before.len() && before[y] == out@[i];
                            assert(answered(all, before[y].peer));
                        }
                    }
                    assert(peers@.take(j + 1) =~= peers@.take(j as int).push(peers@[j as int]));
                    lemma_peer_keys_push(peers@.take(j as int), peers@[j as int]);
                    assert(seen.insert(entry.peer.key) =~= result_keys(all, n).union(
                        peer_keys(peers@.take(j + 1)),
                    ));
                }
                j += 1;
            }
            proof {
                assert(peers@.take(m as int) =~= peers@);
                let a = result_keys(all, n).union(peer_keys(peers@));
                let b = result_keys(all, n - 1);
                assert forall|k: Key| a.contains(k) <==> b.contains(k) by {
                    if a.contains(k) {
                        if peer_keys(peers@).contains(k) {
                            let w = choose|w: int| 0 <= w < peers@.len()
                                && (#[trigger] peers@[w]).key == k;
                            let x = choose|x: int|
                                0 <= x < cands.len() && (#[trigger] cands[x]).data is Succeeded
                                    && cands[x].peer == peers@[w];
                            assert(all[n - 1].candidates()[x].peer.key == k);
                        } else {
                            let (q, x) = choose|q: int, x: int|
                                n <= q < all.len() && 0 <= x < all[q].candidates().len() && (
                                #[trigger] all[q].candidates()[x]).data is Succeeded
                                    && all[q].candidates()[x].peer.key == k;
                            assert(all[q].candidates()[x].peer.key == k);
                        }
                    }
                    if b.contains(k) {
                        let (q, x) = choose|q: int, x: int|
                            n - 1 <= q < all.len() && 0 <= x < all[q].candidates().len() && (
                            #[trigger] all[q].candidates()[x]).data is Succeeded
                                && all[q].candidates()[x].peer.key == k;
                        if q == n - 1 {
                            assert(peers@.contains(cands[x].peer));
                            let w = choose|w: int| 0 <= w < peers@.len()
                                && peers@[w] == cands[x].peer;
                            assert(peers@[w].key == k);
                        } else {
                            assert(all[q].candidates()[x].peer.key == k);
                        }
                    }
                }
                assert(a =~= b);
            }
        }
        let mut result: Vec<Peer> = Vec::new();
        let len = out.len();
        let mut i: usize = 0;
        while i < len
            invariant
                0 <= i <= len,
                len == out@.len(),
                result@.len() == i,
                forall|x: int| 0 <= x < i ==> (#[trigger] result@[x]) == out@[x].peer,
            decreases len - i,
        {
            result.push(out[i].peer);
            i += 1;
        }
        proof {
            assert forall|x: int| 0 <= x < len implies as_entries(result@)[x] == out@[x] by {
                assert(out@[x].data == ());
            }
            assert(as_entries(result@) =~= out@);
            assert forall|i: int| 0 <= i < result@.len() implies answered(
                all,
                #[trigger] result@[i],
            ) by {
                assert(answered(all, out@[i].peer));
            }
        }
        result
    }

    /// Hands the peers `reported` out to the paths: those that are new go to
    /// the paths in turn, beginning with the path whose turn it is.
    pub fn distribute(&mut self, reported: &Vec<Peer>)
        requires
            old(self).wf(),
        ensures
            final(self).wf(),
            distributed(
                old(self).paths(),
                old(self).seen(),
                old(self).cursor(),
                reported@,
                final(self).paths(),
                final(self).seen(),
                final(self).cursor(),
            ),
            final(self).spec_target() == old(self).spec_target(),
            final(self).spec_config() == old(self).spec_config(),
    {
        let ghost start = self.paths@;
        let ghost seen0 = self.seen();
        let ghost cursor0 = self.cursor as int;
        let ghost d = self.paths@.len() as int;
        let ghost target = self.target;
        let ghost limit = self.config.num_results as nat;
        let fresh = self.pick_fresh(reported);
        let ghost seen1 = self.seen();
        let m = fresh.len();
        let mut i: usize = 0;
        proof {
            lemma_fresh_peers(seen0, reported@);
            assert forall|q: int| 0 <= q < d implies is_closest(
                (#[trigger] self.paths@[q]).candidates(),
                candidate_keys(start[q].candidates()).union(
                    assigned(fresh@.take(0), cursor0, d, q),
                ),
                target,
                limit,
            ) by {
                start[q].lemma_candidates_sorted();
                crate::candidates::lemma_closest_of_own_keys(start[q].candidates(), target, limit);
                assert(assigned(fresh@.take(0), cursor0, d, q) =~= Set::<Key>::empty());
                assert(candidate_keys(start[q].candidates()).union(Set::<Key>::empty())
                    =~= candidate_keys(start[q].candidates()));
            }
        }
        while i < m
            invariant
                0 <= i <= m,
                m == fresh@.len(),
                self.paths@.len() == d,
                start.len() == d,
                0 <= cursor0 < d,
                self.cursor == path_of(cursor0, d, i as int),
                0 <= self.cursor < d,
                self.seen() == seen1,
                self.target == target,
                self.config.num_results == limit,
                self.target == old(self).target,
                self.config == old(self).config,
                forall|q: int|
                    0 <= q < d ==> (#[trigger] start[q]).spec_target() == target
                        && start[q].spec_config() == self.config,
                forall|q: int|
                    0 <= q < d ==> (#[trigger] self.paths@[q]).wf() && same_settings(
                        start[q],
                        self.paths@[q],
                    ),
                forall|q: int|
                    0 <= q < d ==> is_closest(
                        (#[trigger] self.paths@[q]).candidates(),
                        candidate_keys(start[q].candidates()).union(
                            assigned(fresh@.take(i as int), cursor0, d, q),
                        ),
                        target,
                        limit,
                    ),
                forall|q: int, x: int|
                    0 <= q < d && 0 <= x < self.paths@[q].candidates().len()
                        ==> after_distribution(
                        start[q].candidates(),
                        fresh@.take(i as int),
                        cursor0,
                        d,
                        q,
                        #[trigger] self.paths@[q].candidates()[x],
                    ),
            decreases m - i,
        {
            let c = self.cursor;
            let ghost before = self.paths@;
            let p = fresh[i];
            let r = self.paths[c].add_peer(p);
            assert(self.paths@.len() == d);
            self.cursor = if c >= self.paths.len() - 1 {
                0
            } else {
                c + 1
            };
            proof {
                let entry = Entry { peer: p, data: PeerState::NotContacted };
                let shorter = fresh@.take(i as int);
                let longer = fresh@.take(i + 1);
                assert(longer =~= shorter.push(p));
                let seen_c = candidate_keys(start[c as int].candidates()).union(
                    assigned(shorter, cursor0, d, c as int),
                );
                lemma_offered_closest(
                    before[c as int].candidates(),
                    self.paths@[c as int].candidates(),
                    seen_c,
                    target,
                    limit,
                    entry,
                    r,
                );
                lemma_offered_members(
                    before[c as int].candidates(),
                    self.paths@[c as int].candidates(),
                    target,
                    limit,
                    entry,
                    r,
                );
                assert forall|q: int| 0 <= q < d implies is_closest(
                    (#[trigger] self.paths@[q]).candidates(),
                    candidate_keys(start[q].candidates()).union(assigned(longer, cursor0, d, q)),
                    target,
                    limit,
                ) by {
                    lemma_assigned_push(shorter, p, cursor0, d, q);
                    if q == c {
                        assert(seen_c.insert(p.key) =~= candidate_keys(
                            start[q].candidates(),
                        ).union(assigned(longer, cursor0, d, q)));
                    } else {
                        assert(self.paths@[q] == before[q]);
                    }
                }
                assert forall|q: int, x: int|
                    0 <= q < d
                        && 0 <= x < self.paths@[q].candidates().len() implies after_distribution(
                    start[q].candidates(),
                    longer,
                    cursor0,
                    d,
                    q,
                    #[trigger] self.paths@[q].candidates()[x],
                ) by {
                    let e = self.paths@[q].candidates()[x];
                    if q == c && e == entry && !before[q].candidates().contains(e) {
                        assert(longer[i as int] == e.peer);
                    } else {
                        if q == c {
                            let y = choose|y: int|
                                0 <= y < before[q].candidates().len() && before[q].candidates()[y]
                                    == e;
                            assert(after_distribution(
                                start[q].candidates(),
                                shorter,
                                cursor0,
                                d,
                                q,
                                before[q].candidates()[y],
                            ));
                        } else {
                            assert(self.paths@[q] == before[q]);
                            assert(after_distribution(
                                start[q].candidates(),
                                shorter,
                                cursor0,
                                d,
                                q,
                                before[q].candidates()[x],
                            ));
                        }
                        if !start[q].candidates().contains(e) {
                            let j = choose|j: int|
                                0 <= j < shorter.len() && (#[trigger] shorter[j]) == e.peer
                                    && path_of(cursor0, d, j) == q;
                            assert(longer[j] == e.peer);
                        }
                    }
                }
            }
            i += 1;
        }
        proof {
            assert(fresh@.take(m as int) =~= fresh@);
            lemma_distributed_wf(start, seen0, cursor0, reported@, self.paths@, seen1);
        }
    }
}

/// After peers were handed out, every candidate was seen and no key is a
/// candidate of two paths.
pub proof fn lemma_distributed_wf(
    paths0: Seq<ClosestPeersIter>,
    seen0: Set<Key>,
    cursor0: int,
    reported: Seq<Peer>,
    paths1: Seq<ClosestPeersIter>,
    seen1: Set<Key>,
)
    requires
        paths1.len() == paths0.len(),
        seen1 == seen0.union(peer_keys(reported)),
        forall|q: int, x: int|
            0 <= q < paths0.len() && 0 <= x < paths0[q].candidates().len() ==> seen0.contains(
                (#[trigger] paths0[q].candidates()[x]).peer.key,
            ),
        forall|q1: int, x1: int, q2: int, x2: int|
            0 <= q1 < paths0.len() && 0 <= x1 < paths0[q1].candidates().len() && 0 <= q2
                < paths0.len() && 0 <= x2 < paths0[q2].candidates().len() && q1 != q2 ==> (
            #[trigger] paths0[q1].candidates()[x1]).peer.key != (
            #[trigger] paths0[q2].candidates()[x2]).peer.key,
        forall|q: int, x: int|
            0 <= q < paths1.len() && 0 <= x < paths1[q].candidates().len() ==> after_distribution(
                paths0[q].candidates(),
                fresh_peers(seen0, reported),
                cursor0,
                paths0.len() as int,
                q,
                #[trigger] paths1[q].candidates()[x],
            ),
    ensures
        forall|q: int, x: int|
            0 <= q < paths1.len() && 0 <= x < paths1[q].candidates().len() ==> seen1.contains(
                (#[trigger] paths1[q].candidates()[x]).peer.key,
            ),
        forall|q1: int, x1: int, q2: int, x2: int|
            0 <= q1 < paths1.len() && 0 <= x1 < paths1[q1].candidates().len() && 0 <= q2
                < paths1.len() && 0 <= x2 < paths1[q2].candidates().len() && q1 != q2 ==> (
            #[trigger] paths1[q1].candidates()[x1]).peer.key != (
            #[trigger] paths1[q2].candidates()[x2]).peer.key,
{
    let fresh = fresh_peers(seen0, reported);
    let d = paths0.len() as int;
    lemma_fresh_peers(seen0, reported);
    assert forall|q: int, x: int|
        0 <= q < paths1.len() && 0 <= x < paths1[q].candidates().len() implies seen1.contains(
        (#[trigger] paths1[q].candidates()[x]).peer.key,
    ) by {
        let e = paths1[q].candidates()[x];
        if paths0[q].candidates().contains(e) {
            let y = choose|y: int|
                0 <= y < paths0[q].candidates().len() && paths0[q].candidates()[y] == e;
            assert(seen0.contains(paths0[q].candidates()[y].peer.key));
        } else {
            let j = choose|j: int|
                0 <= j < fresh.len() && (#[trigger] fresh[j]) == e.peer && path_of(cursor0, d, j)
                    == q;
            assert(reported.contains(fresh[j]));
            let w = choose|w: int| 0 <= w < reported.len() && reported[w] == fresh[j];
            assert(reported[w].key == e.peer.key);
            assert(peer_keys(reported).contains(e.peer.key));
        }
    }
    assert forall|q1: int, x1: int, q2: int, x2: int|
        0 <= q1 < paths1.len() && 0 <= x1 < paths1[q1].candidates().len() && 0 <= q2
            < paths1.len() && 0 <= x2 < paths1[q2].candidates().len() && q1 != q2 implies (
    #[trigger] paths1[q1].candidates()[x1]).peer.key != (
    #[trigger] paths1[q2].candidates()[x2]).peer.key by {
        let e1 = paths1[q1].candidates()[x1];
        let e2 = paths1[q2].candidates()[x2];
        let old1 = paths0[q1].candidates().contains(e1);
        let old2 = paths0[q2].candidates().contains(e2);
        if old1 {
            let y1 = choose|y: int|
                0 <= y < paths0[q1].candidates().len() && paths0[q1].candidates()[y] == e1;
            assert(seen0.contains(paths0[q1].candidates()[y1].peer.key));
            if old2 {
                let y2 = choose|y: int|
                    0 <= y < paths0[q2].candidates().len() && paths0[q2].candidates()[y] == e2;
                assert(paths0[q1].candidates()[y1].peer.key
                    != paths0[q2].candidates()[y2].peer.key);
            } else {
                let j2 = choose|j: int|
                    0 <= j < fresh.len() && (#[trigger] fresh[j]) == e2.peer && path_of(
                        cursor0,
                        d,
                        j,
                    ) == q2;
                assert(!seen0.contains(fresh[j2].key));
            }
        } else {
            let j1 = choose|j: int|
                0 <= j < fresh.len() && (#[trigger] fresh[j]) == e1.peer && path_of(cursor0, d, j)
                    == q1;
            assert(!seen0.contains(fresh[j1].key));
            if old2 {
                let y2 = choose|y: int|
                    0 <= y < paths0[q2].candidates().len() && paths0[q2].candidates()[y] == e2;
                assert(seen0.contains(paths0[q2].candidates()[y2].peer.key));
            } else {
                let j2 = choose|j: int|
                    0 <= j < fresh.len() && (#[trigger] fresh[j]) == e2.peer && path_of(
                        cursor0,
                        d,
                        j,
                    ) == q2;
                assert(j1 != j2);
                assert(fresh[j1].key != fresh[j2].key);
            }
        }
    }
}

/// The results of the paths in a step of the iterator that hands out no peer:
/// every path took a step, none handed out a peer, and the result of the
/// iterator combines theirs.
pub open spec fn quiet_results(
    before: Seq<ClosestPeersIter>,
    now: u64,
    after: Seq<ClosestPeersIter>,
    r: PeersIterState,
    rs: Seq<PeersIterState>,
) -> bool {
    &&& after.len() == before.len()
    &&& rs.len() == before.len()
    &&& rs.len() >= 1
    &&& forall|i: int| 0 <= i < rs.len() ==> path_step(before[i], now, #[trigger] after[i], rs[i])
    &&& forall|i: int| 0 <= i < rs.len() ==> quiet(#[trigger] rs[i])
    &&& r == combined(rs)
}

/// A step of the iterator that hands out no peer has quiet results.
pub proof fn lemma_quiet_results(
    before: Seq<ClosestPeersIter>,
    now: u64,
    after: Seq<ClosestPeersIter>,
    r: PeersIterState,
) -> (rs: Seq<PeersIterState>)
    requires
        disjoint_step(before, now, after, r),
        quiet(r),
    ensures
        quiet_results(before, now, after, r, rs),
{
    let rs = choose|rs: Seq<PeersIterState>|
        #![trigger rs.len()]
        {
            &&& after.len() == before.len()
            &&& 1 <= rs.len() <= before.len()
            &&& forall|i: int|
                0 <= i < rs.len() ==> path_step(before[i], now, #[trigger] after[i], rs[i])
            &&& forall|i: int| rs.len() <= i < before.len() ==> #[trigger] after[i] == before[i]
            &&& forall|i: int| 0 <= i < rs.len() - 1 ==> quiet(#[trigger] rs[i])
            &&& if quiet(rs.last()) {
                rs.len() == before.len() && r == combined(rs)
            } else {
                r == rs.last()
            }
        };
    assert forall|i: int| 0 <= i < rs.len() implies quiet(#[trigger] rs[i]) by {
        if i == rs.len() - 1 {
            assert(rs[i] == rs.last());
        }
    }
    rs
}

/// A step of the iterator that hands out no peer is repeated by the step
/// after it at the same time.
pub proof fn lemma_disjoint_step_settles(
    before: Seq<ClosestPeersIter>,
    now: u64,
    mid: Seq<ClosestPeersIter>,
    r: PeersIterState,
    after: Seq<ClosestPeersIter>,
    r2: PeersIterState,
)
    requires
        disjoint_step(before, now, mid, r),
        quiet(r),
        disjoint_step(mid, now, after, r2),
    ensures
        r2 == r,
{
    let rs = lemma_quiet_results(before, now, mid, r);
    let rs2 = choose|rs2: Seq<PeersIterState>|
        #![trigger rs2.len()]
        {
            &&& after.len() == mid.len()
            &&& 1 <= rs2.len() <= mid.len()
            &&& forall|i: int|
                0 <= i < rs2.len() ==> path_step(mid[i], now, #[trigger] after[i], rs2[i])
            &&& forall|i: int| rs2.len() <= i < mid.len() ==> #[trigger] after[i] == mid[i]
            &&& forall|i: int| 0 <= i < rs2.len() - 1 ==> quiet(#[trigger] rs2[i])
            &&& if quiet(rs2.last()) {
                rs2.len() == mid.len() && r2 == combined(rs2)
            } else {
                r2 == rs2.last()
            }
        };
    assert forall|i: int| 0 <= i < rs2.len() implies rs2[i] == rs[i] by {
        assert(path_step(before[i], now, mid[i], rs[i]));
        assert(quiet(rs[i]));
        assert(path_step(mid[i], now, after[i], rs2[i]));
        crate::closest_peers::lemma_step_settles(
            before[i].candidates(),
            before[i].spec_config(),
            before[i].spec_state(),
            now,
            mid[i].candidates(),
            mid[i].spec_state(),
            rs[i],
            after[i].candidates(),
            after[i].spec_state(),
            rs2[i],
        );
    }
    assert(rs2.last() == rs[rs2.len() - 1]);
    assert(quiet(rs2.last()));
    assert(rs2 =~= rs);
}

} // verus!
