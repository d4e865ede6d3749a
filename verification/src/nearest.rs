//! Lists of peers ordered by their distance to a target.
//!
//! Both the routing table and the iterative lookup keep "the closest peers
//! known so far": a list in strictly ascending distance to a target key, cut
//! off at a limit. Since a distance around a fixed target belongs to exactly
//! one key, such a list never holds a key twice.

use crate::key::{distance, lemma_distance_injective, Key};
use crate::peer::PeerId;
use vstd::prelude::*;

verus! {

/// A peer together with its place in the keyspace.
#[derive(Clone, Copy, Debug, PartialEq, Eq, Hash)]
pub struct Peer {
    pub id: PeerId,
    pub key: Key,
}

impl Peer {
    /// The peer with identifier `id`, at the digest of its canonical bytes.
    pub fn new(id: PeerId) -> (p: Peer)
        ensures
            p.id == id,
            p.key@ == id.spec_key(),
            p.key == id.key_of(),
    {
        Peer { id, key: id.key() }
    }
}

/// A peer in a list, with what the list's owner records about it.
#[derive(Clone, Copy, Debug, PartialEq, Eq)]
pub struct Entry<T> {
    pub peer: Peer,
    pub data: T,
}

/// The entries are in strictly ascending distance to `target`.
pub open spec fn sorted<T>(s: Seq<Entry<T>>, target: Key) -> bool {
    forall|i: int, j: int|
        0 <= i < j < s.len() ==> distance(#[trigger] s[i].peer.key, target) < distance(
            #[trigger] s[j].peer.key,
            target,
        )
}

/// Some entry of `s` is at `key`.
pub open spec fn has_key<T>(s: Seq<Entry<T>>, key: Key) -> bool {
    exists|i: int| 0 <= i < s.len() && (#[trigger] s[i]).peer.key == key
}

/// `s` holds the `limit` keys of `all` that are closest to `target`, or all of
/// them if there are fewer, closest first.
pub open spec fn is_closest<T>(s: Seq<Entry<T>>, all: Set<Key>, target: Key, limit: nat) -> bool {
    &&& s.len() <= limit
    &&& sorted(s, target)
    &&& forall|i: int| 0 <= i < s.len() ==> all.contains((#[trigger] s[i]).peer.key)
    &&& forall|k: Key|
        #![trigger all.contains(k)]
        all.contains(k) && !has_key(s, k) ==> s.len() == limit && forall|i: int|
            0 <= i < s.len() ==> distance((#[trigger] s[i]).peer.key, target) < distance(k, target)
}

/// What became of an entry offered to a list.
#[derive(Clone, Copy, Debug, PartialEq, Eq)]
pub enum Offer {
    /// The list already holds the key, at this position; nothing changed.
    Known(usize),
    /// The entry was inserted at this position; where the list was full, its
    /// last entry was dropped.
    Inserted(usize),
    /// The list is full and every entry in it is closer; nothing changed.
    TooFar,
}

/// How a list changes when `entry` is offered to it with outcome `r`.
pub open spec fn offered<T>(
    before: Seq<Entry<T>>,
    after: Seq<Entry<T>>,
    target: Key,
    limit: nat,
    entry: Entry<T>,
    r: Offer,
) -> bool {
    match r {
        Offer::Known(i) => {
            &&& i < before.len()
            &&& before[i as int].peer.key == entry.peer.key
            &&& after == before
        },
        Offer::Inserted(i) => {
            &&& !has_key(before, entry.peer.key)
            &&& i <= before.len()
            &&& i < limit
            &&& forall|j: int| 0 <= j < i ==> distance(
                (#[trigger] before[j]).peer.key,
                target,
            ) < distance(entry.peer.key, target)
            &&& forall|j: int| i <= j < before.len() ==> distance(
                entry.peer.key,
                target,
            ) < distance((#[trigger] before[j]).peer.key, target)
            &&& after == if before.len() < limit {
                before.insert(i as int, entry)
            } else {
                before.insert(i as int, entry).take(limit as int)
            }
        },
        Offer::TooFar => {
            &&& !has_key(before, entry.peer.key)
            &&& before.len() == limit
            &&& forall|j: int|
                0 <= j < before.len() ==> distance(
                    (#[trigger] before[j]).peer.key,
                    target,
                ) < distance(
                    entry.peer.key,
                    target,
                )
            &&& after == before
        },
    }
}

/// Whether `a` is strictly closer to `target` than `b`.
pub fn closer(a: &Key, b: &Key, target: &Key) -> (r: bool)
    ensures
        r == (distance(*a, *target) < distance(*b, *target)),
{
    let da = a.distance(target);
    let db = b.distance(target);
    da.lt(&db)
}

/// An offer keeps a sorted list sorted and within its limit.
pub proof fn lemma_offered_sorted<T>(
    before: Seq<Entry<T>>,
    after: Seq<Entry<T>>,
    target: Key,
    limit: nat,
    entry: Entry<T>,
    r: Offer,
)
    requires
        sorted(before, target),
        before.len() <= limit,
        offered(before, after, target, limit, entry, r),
    ensures
        sorted(after, target),
        after.len() <= limit,
        r is Inserted ==> after.len() == if before.len() < limit {
            before.len() + 1
        } else {
            before.len()
        },
{
    if let Offer::Inserted(i) = r {
        let full = before.insert(i as int, entry);
        assert forall|a: int, b: int| 0 <= a < b < full.len() implies distance(
            #[trigger] full[a].peer.key,
            target,
        ) < distance(#[trigger] full[b].peer.key, target) by {
            if a < i && b > i {
                assert(full[a] == before[a]);
                assert(full[b] == before[b - 1]);
            } else if a < i && b < i {
                assert(full[a] == before[a]);
                assert(full[b] == before[b]);
            } else if a > i {
                assert(full[a] == before[a - 1]);
                assert(full[b] == before[b - 1]);
            }
        }
        assert(sorted(full, target));
        if before.len() >= limit {
            assert forall|a: int, b: int| 0 <= a < b < after.len() implies distance(
                #[trigger] after[a].peer.key,
                target,
            ) < distance(#[trigger] after[b].peer.key, target) by {
                assert(after[a] == full[a]);
                assert(after[b] == full[b]);
            }
        }
    }
}

/// Offering an entry to the closest of a set gives the closest of the set
/// with the entry's key added.
pub proof fn lemma_offered_closest<T>(
    before: Seq<Entry<T>>,
    after: Seq<Entry<T>>,
    all: Set<Key>,
    target: Key,
    limit: nat,
    entry: Entry<T>,
    r: Offer,
)
    requires
        is_closest(before, all, target, limit),
        offered(before, after, target, limit, entry, r),
    ensures
        is_closest(after, all.insert(entry.peer.key), target, limit),
{
    let key = entry.peer.key;
    let all2 = all.insert(key);
    lemma_offered_sorted(before, after, target, limit, entry, r);
    match r {
        Offer::Known(i) => {
            assert(all.contains(before[i as int].peer.key));
            assert(all2 =~= all);
        },
        Offer::TooFar => {
            assert forall|k: Key| #![trigger all2.contains(k)] all2.contains(k) && !has_key(after, k) implies after.len() == limit
                && forall|i: int|
                0 <= i < after.len() ==> distance(
                    (#[trigger] after[i]).peer.key,
                    target,
                ) < distance(
                    k,
                    target,
                ) by {
                if k != key {
                    assert(all.contains(k));
                }
            }
        },
        Offer::Inserted(i) => {
            let full = before.insert(i as int, entry);
            assert(full[i as int] == entry);
            assert forall|j: int| 0 <= j < after.len() implies all2.contains(
                (#[trigger] after[j]).peer.key,
            ) by {
                assert(after[j] == full[j]);
                if j < i {
                    assert(full[j] == before[j]);
                    assert(all.contains(before[j].peer.key));
                } else if j > i {
                    assert(full[j] == before[j - 1]);
                    assert(all.contains(before[j - 1].peer.key));
                }
            }
            assert forall|k: Key| #![trigger all2.contains(k)] all2.contains(k) && !has_key(after, k) implies after.len() == limit
                && forall|j: int|
                0 <= j < after.len() ==> distance(
                    (#[trigger] after[j]).peer.key,
                    target,
                ) < distance(
                    k,
                    target,
                ) by {
                if before.len() < limit {
                    // Nothing was dropped: `k` was missing from the before list already.
                    assert(after[i as int] == entry);
                    assert(k != key);
                    assert(all.contains(k));
                    if has_key(before, k) {
                        let w = choose|w: int| 0 <= w < before.len()
                            && (#[trigger] before[w]).peer.key == k;
                        if w < i {
                            assert(after[w] == before[w]);
                        } else {
                            assert(after[w + 1] == before[w]);
                        }
                        assert(false);
                    }
                    assert(false);
                } else {
                    assert(after.len() == limit);
                    assert(after[i as int] == full[i as int]);
                    assert(k != key);
                    assert(all.contains(k));
                    let last = before[before.len() - 1];
                    assert forall|j: int| 0 <= j < after.len() implies distance(
                        (#[trigger] after[j]).peer.key,
                        target,
                    ) < distance(k, target) by {
                        assert(after[j] == full[j]);
                        if has_key(before, k) {
                            let w = choose|w: int|
                                0 <= w < before.len() && (#[trigger] before[w]).peer.key == k;
                            if w < i {
                                assert(after[w] == full[w]);
                                assert(full[w] == before[w]);
                                assert(false);
                            } else if w + 1 < limit {
                                assert(after[w + 1] == full[w + 1]);
                                assert(full[w + 1] == before[w]);
                                assert(false);
                            }
                            assert(w == before.len() - 1);
                            if j < i {
                                assert(full[j] == before[j]);
                            } else if j > i {
                                assert(full[j] == before[j - 1]);
                            } else {
                                assert(full[j] == entry);
                            }
                        } else {
                            if j < i {
                                assert(full[j] == before[j]);
                            } else if j > i {
                                assert(full[j] == before[j - 1]);
                            } else {
                                assert(full[j] == entry);
                                assert(distance(key, target) < distance(
                                    before[i as int].peer.key,
                                    target,
                                ));
                            }
                        }
                    }
                }
            }
        },
    }
}

/// Offers `entry` to a list of the closest peers to `target`: it is inserted
/// at its place unless its key is there already or the list is full of closer
/// entries, and the list is cut back to `limit`.
pub fn offer<T>(list: &mut Vec<Entry<T>>, target: &Key, limit: usize, entry: Entry<T>) -> (r: Offer)
    requires
        sorted(old(list)@, *target),
        old(list)@.len() <= limit,
    ensures
        offered(old(list)@, final(list)@, *target, limit as nat, entry, r),
        sorted(final(list)@, *target),
        final(list)@.len() <= limit,
{
    let ghost before = list@;
    let n = list.len();
    let mut i: usize = 0;
    while i < n && closer(&list[i].peer.key, &entry.peer.key, target)
        invariant
            0 <= i <= n,
            n == list@.len(),
            list@ == before,
            forall|j: int|
                0 <= j < i ==> distance((#[trigger] before[j]).peer.key, *target) < distance(
                    entry.peer.key,
                    *target,
                ),
        decreases n - i,
    {
        i += 1;
    }
    if i < n && list[i].peer.key.same(&entry.peer.key) {
        return Offer::Known(i);
    }
    proof {
        // From position `i` on, every entry is strictly farther than the new one.
        assert forall|j: int| i <= j < before.len() implies distance(entry.peer.key, *target)
            < distance((#[trigger] before[j]).peer.key, *target) by {
            if distance(before[i as int].peer.key, *target) == distance(entry.peer.key, *target) {
                lemma_distance_injective(before[i as int].peer.key, entry.peer.key, *target);
            }
            if j > i {
                assert(distance(before[i as int].peer.key, *target) < distance(
                    before[j].peer.key,
                    *target,
                ));
            }
        }
        if has_key(before, entry.peer.key) {
            let w = choose|w: int| 0 <= w < before.len()
                && (#[trigger] before[w]).peer.key == entry.peer.key;
            assert(false);
        }
    }
    if i >= limit {
        return Offer::TooFar;
    }
    list.insert(i, entry);
    if list.len() > limit {
        list.truncate(limit);
    }
    let r = Offer::Inserted(i);
    proof {
        lemma_offered_sorted(before, list@, *target, limit as nat, entry, r);
    }
    r
}

/// Two lists of the closest of a set agree on their first `n` keys.
proof fn lemma_closest_agree<S, T>(
    a: Seq<Entry<S>>,
    b: Seq<Entry<T>>,
    all: Set<Key>,
    target: Key,
    limit: nat,
    n: int,
)
    requires
        is_closest(a, all, target, limit),
        is_closest(b, all, target, limit),
        0 <= n <= a.len(),
        n <= b.len(),
    ensures
        forall|i: int| 0 <= i < n ==> (#[trigger] a[i]).peer.key == b[i].peer.key,
    decreases n,
{
    if n > 0 {
        lemma_closest_agree(a, b, all, target, limit, n - 1);
        let i = n - 1;
        let x = a[i].peer.key;
        let y = b[i].peer.key;
        let dx = distance(x, target);
        let dy = distance(y, target);
        if dx < dy {
            // `x` would have to stand in `b` before `y`, where `a` and `b` agree.
            assert(all.contains(x));
            if has_key(b, x) {
                let p = choose|p: int| 0 <= p < b.len() && (#[trigger] b[p]).peer.key == x;
                if p < i {
                    assert(a[p].peer.key == b[p].peer.key);
                    assert(distance(a[p].peer.key, target) < distance(a[i].peer.key, target));
                } else if p > i {
                    assert(distance(b[i].peer.key, target) < distance(b[p].peer.key, target));
                }
            } else {
                assert(distance(b[i].peer.key, target) < distance(x, target));
            }
            assert(false);
        }
        if dy < dx {
            assert(all.contains(y));
            if has_key(a, y) {
                let p = choose|p: int| 0 <= p < a.len() && (#[trigger] a[p]).peer.key == y;
                if p < i {
                    assert(a[p].peer.key == b[p].peer.key);
                    assert(distance(b[p].peer.key, target) < distance(b[i].peer.key, target));
                } else if p > i {
                    assert(distance(a[i].peer.key, target) < distance(a[p].peer.key, target));
                }
            } else {
                assert(distance(a[i].peer.key, target) < distance(y, target));
            }
            assert(false);
        }
        lemma_distance_injective(x, y, target);
    }
}

/// The closest of a set are determined: two lists of them have the same
/// keys in the same order.
pub proof fn lemma_closest_unique<S, T>(
    a: Seq<Entry<S>>,
    b: Seq<Entry<T>>,
    all: Set<Key>,
    target: Key,
    limit: nat,
)
    requires
        is_closest(a, all, target, limit),
        is_closest(b, all, target, limit),
    ensures
        a.len() == b.len(),
        forall|i: int| 0 <= i < a.len() ==> (#[trigger] a[i]).peer.key == b[i].peer.key,
{
    let n = if a.len() <= b.len() { a.len() as int } else { b.len() as int };
    lemma_closest_agree(a, b, all, target, limit, n);
    if a.len() <= b.len() {
        lemma_same_length(a, b, all, target, limit);
    } else {
        lemma_closest_agree(b, a, all, target, limit, n);
        lemma_same_length(b, a, all, target, limit);
    }
}

/// Of two lists of the closest of a set that agree as far as the shorter
/// goes, none is longer than the other.
proof fn lemma_same_length<S, T>(
    a: Seq<Entry<S>>,
    b: Seq<Entry<T>>,
    all: Set<Key>,
    target: Key,
    limit: nat,
)
    requires
        is_closest(a, all, target, limit),
        is_closest(b, all, target, limit),
        a.len() <= b.len(),
        forall|i: int| 0 <= i < a.len() ==> (#[trigger] a[i]).peer.key == b[i].peer.key,
    ensures
        a.len() == b.len(),
{
    if a.len() < b.len() {
        let n = a.len() as int;
        let y = b[n].peer.key;
        assert(all.contains(y));
        if has_key(a, y) {
            let p = choose|p: int| 0 <= p < a.len() && (#[trigger] a[p]).peer.key == y;
            assert(a[p].peer.key == b[p].peer.key);
            assert(distance(b[p].peer.key, target) < distance(b[n].peer.key, target));
        }
    }
}

} // verus!
