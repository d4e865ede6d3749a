//! Candidates: the peers of a lookup, each with the state of its request.
//!
//! The iterators over peers keep their candidates in a list and move each
//! through the states of a request: not contacted, waiting for an answer
//! until a deadline, and succeeded or failed.

use crate::key::{distance, Key};
use crate::nearest::{has_key, is_closest, offered, sorted, Entry, Offer, Peer};
use vstd::prelude::*;

verus! {

/// What the iterator knows of a candidate.
#[derive(Clone, Copy, Debug, PartialEq, Eq, Structural)]
pub enum PeerState {
    /// No request was sent to the peer yet.
    NotContacted,
    /// A request is in flight and fails at the given time.
    Waiting(u64),
    /// The peer answered.
    Succeeded,
    /// The request failed or its deadline passed.
    Failed,
}

/// What the owner of an iterator does next.
#[derive(Clone, Copy, Debug, PartialEq, Eq)]
pub enum PeersIterState {
    /// Contact the given peer, if any, and wait for results.
    Waiting(Option<Peer>),
    /// Wait for results: as many requests as allowed are in flight.
    WaitingAtCapacity,
    /// The iterator is done.
    Finished,
}

/// A candidate with its state.
pub type Candidate = Entry<PeerState>;

/// The candidates after the deadlines up to `now` have passed: each request
/// that was due is failed.
pub open spec fn expired(s: Seq<Candidate>, now: u64) -> Seq<Candidate> {
    s.map_values(
        |e: Candidate|
            match e.data {
                PeerState::Waiting(deadline) if deadline <= now => Entry {
                    peer: e.peer,
                    data: PeerState::Failed,
                },
                _ => e,
            },
    )
}

/// The number of candidates with a request in flight.
pub open spec fn num_waiting(s: Seq<Candidate>) -> nat
    decreases s.len(),
{
    if s.len() == 0 {
        0
    } else {
        num_waiting(s.drop_last()) + if s.last().data is Waiting {
            1nat
        } else {
            0nat
        }
    }
}

/// The number of candidates that answered.
pub open spec fn num_succeeded(s: Seq<Candidate>) -> nat
    decreases s.len(),
{
    if s.len() == 0 {
        0
    } else {
        num_succeeded(s.drop_last()) + if s.last().data is Succeeded {
            1nat
        } else {
            0nat
        }
    }
}

/// Position `i` holds the closest candidate that was not contacted yet.
pub open spec fn first_not_contacted(s: Seq<Candidate>, i: int) -> bool {
    &&& 0 <= i < s.len()
    &&& s[i].data is NotContacted
    &&& forall|j: int| 0 <= j < i ==> !((#[trigger] s[j]).data is NotContacted)
}

/// Some candidate was not contacted yet.
pub open spec fn any_not_contacted(s: Seq<Candidate>) -> bool {
    exists|i: int| 0 <= i < s.len() && (#[trigger] s[i]).data is NotContacted
}

/// The time at which a request sent at `now` fails; the end of time where the
/// sum does not fit.
pub open spec fn deadline_after(now: u64, timeout: u64) -> u64 {
    if now + timeout > u64::MAX {
        u64::MAX
    } else {
        (now + timeout) as u64
    }
}

/// The keys of a list of peers.
pub open spec fn peer_keys(s: Seq<Peer>) -> Set<Key> {
    Set::new(|k: Key| exists|i: int| 0 <= i < s.len() && (#[trigger] s[i]).key == k)
}

/// The keys of a list of candidates.
pub open spec fn candidate_keys(s: Seq<Candidate>) -> Set<Key> {
    Set::new(|k: Key| has_key(s, k))
}

/// The succeeded candidates of `s`, in the order of `s`.
pub open spec fn succeeded(s: Seq<Candidate>) -> Seq<Peer>
    decreases s.len(),
{
    if s.len() == 0 {
        Seq::empty()
    } else if s.last().data is Succeeded {
        succeeded(s.drop_last()).push(s.last().peer)
    } else {
        succeeded(s.drop_last())
    }
}

/// Position `i` holds the candidate at `key`, with a request in flight.
pub open spec fn waiting_at(s: Seq<Candidate>, key: Key, i: int) -> bool {
    &&& 0 <= i < s.len()
    &&& s[i].peer.key == key
    &&& s[i].data is Waiting
}

/// `s[i]` with its state replaced by `state`.
pub open spec fn with_state(s: Seq<Candidate>, i: int, state: PeerState) -> Seq<Candidate> {
    s.update(i, Entry { peer: s[i].peer, data: state })
}

/// The peers of a list of candidates, in its order.
pub open spec fn peers_of(s: Seq<Candidate>) -> Seq<Peer> {
    s.map_values(|e: Candidate| e.peer)
}

/// The position of the candidate at `key`, if there is one.
pub fn find(list: &Vec<Candidate>, key: &Key) -> (r: Option<usize>)
    ensures
        r is Some ==> r->0 < list@.len() && list@[r->0 as int].peer.key == *key && forall|j: int|
            0 <= j < r->0 ==> (#[trigger] list@[j]).peer.key != *key,
        r is None ==> !has_key(list@, *key),
{
    let n = list.len();
    let mut i: usize = 0;
    while i < n
        invariant
            0 <= i <= n,
            n == list@.len(),
            forall|j: int| 0 <= j < i ==> (#[trigger] list@[j]).peer.key != *key,
        decreases n - i,
    {
        if list[i].peer.key.same(key) {
            return Some(i);
        }
        i += 1;
    }
    None
}

/// Fails every request whose deadline has passed.
pub fn expire(list: &mut Vec<Candidate>, now: u64)
    ensures
        final(list)@ == expired(old(list)@, now),
{
    let ghost before = list@;
    let n = list.len();
    let mut i: usize = 0;
    while i < n
        invariant
            0 <= i <= n,
            n == before.len(),
            list@.len() == n,
            forall|j: int| 0 <= j < i ==> (#[trigger] list@[j]) == expired(before, now)[j],
            forall|j: int| i <= j < n ==> (#[trigger] list@[j]) == before[j],
        decreases n - i,
    {
        let e = list[i];
        let due = match e.data {
            PeerState::Waiting(deadline) => deadline <= now,
            _ => false,
        };
        if due {
            list.set(i, Entry { peer: e.peer, data: PeerState::Failed });
        }
        i += 1;
    }
    assert(list@ =~= expired(before, now));
}

/// Counts the requests in flight and the answers, and finds the first
/// candidate that was not contacted.
pub fn tally(list: &Vec<Candidate>) -> (r: (usize, usize, Option<usize>))
    ensures
        r.0 == num_waiting(list@),
        r.1 == num_succeeded(list@),
        r.2 is Some ==> first_not_contacted(list@, r.2->0 as int),
        r.2 is None ==> !any_not_contacted(list@),
{
    let n = list.len();
    let ghost s = list@;
    let mut i: usize = 0;
    let mut waiting: usize = 0;
    let mut done: usize = 0;
    let mut first: Option<usize> = None;
    while i < n
        invariant
            0 <= i <= n,
            n == s.len(),
            s == list@,
            waiting == num_waiting(s.take(i as int)),
            done == num_succeeded(s.take(i as int)),
            waiting <= i,
            done <= i,
            first is Some ==> first->0 < i && first_not_contacted(s, first->0 as int),
            first is None ==> forall|j: int|
                0 <= j < i ==> !((#[trigger] s[j]).data is NotContacted),
        decreases n - i,
    {
        proof {
            assert(s.take(i + 1).drop_last() =~= s.take(i as int));
            assert(s.take(i + 1).last() == s[i as int]);
        }
        match list[i].data {
            PeerState::Waiting(_) => {
                waiting += 1;
            },
            PeerState::Succeeded => {
                done += 1;
            },
            PeerState::NotContacted => {
                if first.is_none() {
                    first = Some(i);
                }
            },
            PeerState::Failed => {},
        }
        i += 1;
    }
    assert(s.take(n as int) =~= s);
    (waiting, done, first)
}

/// The peers that answered, in the order of the list.
pub fn collect_succeeded(list: &Vec<Candidate>) -> (r: Vec<Peer>)
    ensures
        r@ == succeeded(list@),
{
    let n = list.len();
    let ghost s = list@;
    let mut out: Vec<Peer> = Vec::new();
    let mut i: usize = 0;
    while i < n
        invariant
            0 <= i <= n,
            n == s.len(),
            s == list@,
            out@ == succeeded(s.take(i as int)),
        decreases n - i,
    {
        proof {
            assert(s.take(i + 1).drop_last() =~= s.take(i as int));
            assert(s.take(i + 1).last() == s[i as int]);
        }
        let e = list[i];
        if e.data == PeerState::Succeeded {
            out.push(e.peer);
        }
        i += 1;
    }
    assert(s.take(n as int) =~= s);
    out
}

/// The time at which a request sent at `now` fails.
pub fn deadline(now: u64, timeout: u64) -> (d: u64)
    ensures
        d == deadline_after(now, timeout),
{
    if timeout > u64::MAX - now {
        u64::MAX
    } else {
        now + timeout
    }
}

/// A list with the peers of a sorted list, in the same order, is sorted.
pub proof fn lemma_same_peers_sorted(s: Seq<Candidate>, t: Seq<Candidate>, target: Key)
    requires
        sorted(s, target),
        peers_of(s) == peers_of(t),
    ensures
        sorted(t, target),
        t.len() == s.len(),
{
    assert(peers_of(s).len() == s.len());
    assert(peers_of(t).len() == t.len());
    assert forall|a: int, b: int| 0 <= a < b < t.len() implies distance(
        #[trigger] t[a].peer.key,
        target,
    ) < distance(#[trigger] t[b].peer.key, target) by {
        assert(peers_of(s)[a] == s[a].peer && peers_of(t)[a] == t[a].peer);
        assert(peers_of(s)[b] == s[b].peer && peers_of(t)[b] == t[b].peer);
    }
}

/// Deadlines that pass change the states of a list, not its peers.
pub proof fn lemma_expired_peers(s: Seq<Candidate>, now: u64)
    ensures
        peers_of(expired(s, now)) == peers_of(s),
        expired(s, now).len() == s.len(),
{
    assert(peers_of(expired(s, now)) =~= peers_of(s));
}

/// A new state for one candidate changes the states of a list, not its peers.
pub proof fn lemma_with_state_peers(s: Seq<Candidate>, i: int, state: PeerState)
    requires
        0 <= i < s.len(),
    ensures
        peers_of(with_state(s, i, state)) == peers_of(s),
{
    assert(peers_of(with_state(s, i, state)) =~= peers_of(s));
}

/// The keys of a list of peers with one more peer are the keys of the list
/// and the key of that peer.
pub proof fn lemma_peer_keys_push(s: Seq<Peer>, p: Peer)
    ensures
        peer_keys(s.push(p)) == peer_keys(s).insert(p.key),
{
    let a = peer_keys(s.push(p));
    let b = peer_keys(s).insert(p.key);
    assert forall|k: Key| a.contains(k) <==> b.contains(k) by {
        if a.contains(k) {
            let i = choose|i: int| 0 <= i < s.push(p).len() && (#[trigger] s.push(p)[i]).key == k;
            if i < s.len() {
                assert(s[i].key == k);
            }
        }
        if b.contains(k) {
            if k == p.key {
                assert(s.push(p)[s.len() as int].key == k);
            } else {
                let i = choose|i: int| 0 <= i < s.len() && (#[trigger] s[i]).key == k;
                assert(s.push(p)[i].key == k);
            }
        }
    }
    assert(a =~= b);
}

/// After an offer, each entry of the list is an entry of the old list or the
/// entry that was offered.
pub proof fn lemma_offered_members<T>(
    before: Seq<Entry<T>>,
    after: Seq<Entry<T>>,
    target: Key,
    limit: nat,
    entry: Entry<T>,
    r: Offer,
)
    requires
        offered(before, after, target, limit, entry, r),
    ensures
        forall|i: int|
            0 <= i < after.len() ==> (#[trigger] after[i]) == entry || before.contains(after[i]),
{
    assert forall|i: int| 0 <= i < after.len() implies (#[trigger] after[i]) == entry
        || before.contains(
        after[i],
    ) by {
        match r {
            Offer::Inserted(p) => {
                let full = before.insert(p as int, entry);
                assert(after[i] == full[i]);
                if i < p {
                    assert(full[i] == before[i]);
                } else if i > p {
                    assert(full[i] == before[i - 1]);
                }
            },
            _ => {
                assert(after[i] == before[i]);
            },
        }
    }
}

/// Replacing the state of an entry leaves a sorted list sorted.
pub proof fn lemma_update_sorted(s: Seq<Candidate>, target: Key, i: int, e: Candidate)
    requires
        sorted(s, target),
        0 <= i < s.len(),
        e.peer == s[i].peer,
    ensures
        sorted(s.update(i, e), target),
{
    let next = s.update(i, e);
    assert forall|a: int, b: int| 0 <= a < b < next.len() implies distance(
        #[trigger] next[a].peer.key,
        target,
    ) < distance(#[trigger] next[b].peer.key, target) by {
        assert(next[a].peer == s[a].peer);
        assert(next[b].peer == s[b].peer);
    }
}

/// Replacing the state of an entry leaves the keys of the list as they are.
pub proof fn lemma_update_keys(s: Seq<Candidate>, i: int, e: Candidate)
    requires
        0 <= i < s.len(),
        e.peer == s[i].peer,
    ensures
        candidate_keys(s.update(i, e)) == candidate_keys(s),
{
    let next = s.update(i, e);
    assert forall|k: Key| has_key(next, k) <==> has_key(s, k) by {
        if has_key(next, k) {
            let w = choose|w: int| 0 <= w < next.len() && (#[trigger] next[w]).peer.key == k;
            assert(s[w].peer.key == k);
        }
        if has_key(s, k) {
            let w = choose|w: int| 0 <= w < s.len() && (#[trigger] s[w]).peer.key == k;
            assert(next[w].peer.key == k);
        }
    }
    assert(candidate_keys(next) =~= candidate_keys(s));
}

/// In a sorted list a key stands at one position only.
pub proof fn lemma_key_position(s: Seq<Candidate>, target: Key, key: Key, i: int)
    requires
        sorted(s, target),
        0 <= i < s.len(),
        s[i].peer.key == key,
    ensures
        forall|j: int| 0 <= j < s.len() && (#[trigger] s[j]).peer.key == key ==> j == i,
{
    assert forall|j: int| 0 <= j < s.len() && (#[trigger] s[j]).peer.key == key implies j == i by {
        if j < i {
            assert(distance(s[j].peer.key, target) < distance(s[i].peer.key, target));
        } else if i < j {
            assert(distance(s[i].peer.key, target) < distance(s[j].peer.key, target));
        }
    }
}

/// A sorted list within the limit holds the closest of its own keys.
pub proof fn lemma_closest_of_own_keys(s: Seq<Candidate>, target: Key, limit: nat)
    requires
        sorted(s, target),
        s.len() <= limit,
    ensures
        is_closest(s, candidate_keys(s), target, limit),
{
    assert forall|i: int| 0 <= i < s.len() implies candidate_keys(s).contains(
        (#[trigger] s[i]).peer.key,
    ) by {
        assert(has_key(s, s[i].peer.key));
    }
}

/// The peers are in strictly ascending distance to `target`.
pub open spec fn peers_sorted(r: Seq<Peer>, target: Key) -> bool {
    forall|i: int, j: int|
        0 <= i < j < r.len() ==> distance(#[trigger] r[i].key, target) < distance(
            #[trigger] r[j].key,
            target,
        )
}

/// The result of a sorted list of candidates holds exactly its succeeded
/// peers, in strictly ascending distance to the target.
pub proof fn lemma_result_sorted(s: Seq<Candidate>, target: Key)
    requires
        sorted(s, target),
    ensures
        peers_sorted(succeeded(s), target),
        succeeded(s).len() <= s.len(),
        forall|i: int|
            0 <= i < succeeded(s).len() ==> exists|j: int|
                0 <= j < s.len() && (#[trigger] s[j]).data is Succeeded && s[j].peer
                    == #[trigger] succeeded(s)[i],
        forall|j: int|
            0 <= j < s.len() && (#[trigger] s[j]).data is Succeeded ==> succeeded(s).contains(
                s[j].peer,
            ),
    decreases s.len(),
{
    if s.len() > 0 {
        let front = s.drop_last();
        let r0 = succeeded(front);
        let r = succeeded(s);
        assert forall|a: int, b: int| 0 <= a < b < front.len() implies distance(
            #[trigger] front[a].peer.key,
            target,
        ) < distance(#[trigger] front[b].peer.key, target) by {
            assert(front[a] == s[a]);
            assert(front[b] == s[b]);
        }
        lemma_result_sorted(front, target);
        assert forall|i: int| 0 <= i < r.len() implies exists|j: int|
            0 <= j < s.len() && (#[trigger] s[j]).data is Succeeded && s[j].peer
                == #[trigger] r[i] by {
            if i < r0.len() {
                assert(r[i] == r0[i]);
                let j = choose|j: int|
                    0 <= j < front.len() && (#[trigger] front[j]).data is Succeeded
                        && front[j].peer == r0[i];
                assert(s[j] == front[j]);
            } else {
                assert(s[s.len() - 1].peer == r[i]);
            }
        }
        assert forall|j: int| 0 <= j < s.len()
            && (#[trigger] s[j]).data is Succeeded implies r.contains(
            s[j].peer,
        ) by {
            if j < front.len() {
                assert(front[j] == s[j]);
                assert(r0.contains(front[j].peer));
                let w = choose|w: int| 0 <= w < r0.len() && r0[w] == front[j].peer;
                assert(r[w] == r0[w]);
            } else {
                assert(r[r.len() - 1] == s[j].peer);
            }
        }
        assert forall|a: int, b: int| 0 <= a < b < r.len() implies distance(
            #[trigger] r[a].key,
            target,
        ) < distance(#[trigger] r[b].key, target) by {
            if b < r0.len() {
                assert(r[a] == r0[a]);
                assert(r[b] == r0[b]);
            } else {
                assert(r[a] == r0[a]);
                let j = choose|j: int|
                    0 <= j < front.len() && (#[trigger] front[j]).data is Succeeded
                        && front[j].peer == r0[a];
                assert(s[j] == front[j]);
                assert(r[b] == s[s.len() - 1].peer);
                assert(distance(s[j].peer.key, target) < distance(
                    s[s.len() - 1].peer.key,
                    target,
                ));
            }
        }
    }
}

/// Once the deadlines up to `now` have passed, letting them pass again
/// changes nothing.
pub proof fn lemma_expired_twice(s: Seq<Candidate>, now: u64)
    ensures
        expired(expired(s, now), now) == expired(s, now),
{
    assert(expired(expired(s, now), now) =~= expired(s, now));
}

} // verus!
