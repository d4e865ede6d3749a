//! What a node answers to the requests of other peers.

use crate::bucket::{KBucket, Node, NodeStatus};
use crate::candidates::deadline_after;
use crate::disjoint_peers::as_entries;
use crate::key::{distance, Key};
use crate::message::{info_peers, PeerInfo};
use crate::nearest::{closer, has_key, is_closest, Entry};
use crate::record::{exp_decrease, exp_decreased};
use crate::table::RoutingTable;
use vstd::prelude::*;

verus! {

/// The closest of a set without one key are found among the closest of the
/// set, one more of them: the list without that key, or without its last
/// entry if the key is not in it.
pub proof fn lemma_closest_without<T>(
    c: Seq<Entry<T>>,
    all: Set<Key>,
    target: Key,
    limit: nat,
    omit: Key,
    out: Seq<Entry<T>>,
)
    requires
        is_closest(c, all, target, limit + 1),
        has_key(c, omit) ==> exists|p: int|
            0 <= p < c.len() && (#[trigger] c[p]).peer.key == omit && out == c.remove(p),
        !has_key(c, omit) ==> out == if c.len() <= limit {
            c
        } else {
            c.take(limit as int)
        },
    ensures
        is_closest(out, all.remove(omit), target, limit),
{
    let rest = all.remove(omit);
    if has_key(c, omit) {
        let p = choose|p: int|
            0 <= p < c.len() && (#[trigger] c[p]).peer.key == omit && out == c.remove(p);
        assert forall|i: int| 0 <= i < out.len() implies out[i] == c[if i < p { i } else { i
            + 1 }] by {}
        assert forall|a: int, b: int| 0 <= a < b < out.len() implies distance(
            #[trigger] out[a].peer.key,
            target,
        ) < distance(#[trigger] out[b].peer.key, target) by {
            let a2 = if a < p { a } else { a + 1 };
            let b2 = if b < p { b } else { b + 1 };
            assert(out[a] == c[a2] && out[b] == c[b2]);
        }
        assert forall|i: int| 0 <= i < out.len() implies rest.contains(
            (#[trigger] out[i]).peer.key,
        ) by {
            let i2 = if i < p { i } else { i + 1 };
            assert(out[i] == c[i2]);
            assert(all.contains(c[i2].peer.key));
            if c[i2].peer.key == omit {
                if i2 < p {
                    assert(distance(c[i2].peer.key, target) < distance(c[p].peer.key, target));
                } else {
                    assert(distance(c[p].peer.key, target) < distance(c[i2].peer.key, target));
                }
            }
        }
        assert forall|k: Key| #![trigger rest.contains(k)] rest.contains(k) && !has_key(out, k) implies out.len()
            == limit && forall|i: int|
            0 <= i < out.len() ==> distance((#[trigger] out[i]).peer.key, target) < distance(
                k,
                target,
            ) by {
            assert(all.contains(k));
            if has_key(c, k) {
                let w = choose|w: int| 0 <= w < c.len() && (#[trigger] c[w]).peer.key == k;
                assert(w != p);
                let w2 = if w < p { w } else { w - 1 };
                assert(out[w2] == c[w]);
                assert(false);
            }
            assert forall|i: int| 0 <= i < out.len() implies distance(
                (#[trigger] out[i]).peer.key,
                target,
            ) < distance(k, target) by {
                let i2 = if i < p { i } else { i + 1 };
                assert(out[i] == c[i2]);
            }
        }
    } else {
        assert forall|i: int| 0 <= i < out.len() implies out[i] == c[i] by {}
        assert forall|a: int, b: int| 0 <= a < b < out.len() implies distance(
            #[trigger] out[a].peer.key,
            target,
        ) < distance(#[trigger] out[b].peer.key, target) by {
            assert(out[a] == c[a] && out[b] == c[b]);
        }
        assert forall|i: int| 0 <= i < out.len() implies rest.contains(
            (#[trigger] out[i]).peer.key,
        ) by {
            assert(out[i] == c[i]);
            assert(all.contains(c[i].peer.key));
        }
        assert forall|k: Key| #![trigger rest.contains(k)] rest.contains(k) && !has_key(out, k) implies out.len()
            == limit && forall|i: int|
            0 <= i < out.len() ==> distance((#[trigger] out[i]).peer.key, target) < distance(
                k,
                target,
            ) by {
            assert(all.contains(k));
            if has_key(c, k) {
                let w = choose|w: int| 0 <= w < c.len() && (#[trigger] c[w]).peer.key == k;
                if w < out.len() {
                    assert(out[w] == c[w]);
                    assert(false);
                }
                assert forall|i: int| 0 <= i < out.len() implies distance(
                    (#[trigger] out[i]).peer.key,
                    target,
                ) < distance(k, target) by {
                    assert(out[i] == c[i]);
                    assert(distance(c[i].peer.key, target) < distance(c[w].peer.key, target));
                }
            } else {
                assert forall|i: int| 0 <= i < out.len() implies distance(
                    (#[trigger] out[i]).peer.key,
                    target,
                ) < distance(k, target) by {
                    assert(out[i] == c[i]);
                }
            }
        }
    }
}

/// The peers that a response names: the nodes of the table that are closest
/// to `target`, at most `limit` of them, closest first, without the peer at
/// `source`, which asked. Each comes with the addresses that the table has.
pub fn closer_peers(table: &RoutingTable, target: &Key, source: &Key, limit: usize) -> (r: Vec<
    PeerInfo,
>)
    requires
        table.wf(),
        limit < usize::MAX,
    ensures
        is_closest(
            as_entries(info_peers(r@)),
            table.keys().remove(*source),
            *target,
            limit as nat,
        ),
        forall|i: int|
            0 <= i < r@.len() ==> table.nodes().dom().contains((#[trigger] r@[i]).peer.key)
                && r@[i].peer == table.nodes()[r@[i].peer.key].peer && r@[i]@.addresses
                == table.nodes()[r@[i].peer.key].addresses@,
{
    let c = table.closest(target, limit + 1);
    let n = c.len();
    // Where the peer that asked stands in the list, if it does.
    let mut p: usize = 0;
    while p < n && !c[p].peer.key.same(source)
        invariant
            0 <= p <= n,
            n == c@.len(),
            forall|j: int| 0 <= j < p ==> (#[trigger] c@[j]).peer.key != *source,
        decreases n - p,
    {
        p += 1;
    }
    let ghost kept: Seq<Entry<NodeStatus>> = if p < n {
        c@.remove(p as int)
    } else if c@.len() <= limit {
        c@
    } else {
        c@.take(limit as int)
    };
    proof {
        if p < n {
            assert(has_key(c@, *source));
        } else {
            assert(!has_key(c@, *source));
        }
        lemma_closest_without(c@, table.keys(), *target, limit as nat, *source, kept);
        table.lemma_nodes_dom();
    }
    let end = if p < n {
        n
    } else if n <= limit {
        n
    } else {
        limit
    };
    let mut out: Vec<PeerInfo> = Vec::new();
    let mut i: usize = 0;
    while i < end
        invariant
            0 <= i <= end <= n,
            n == c@.len(),
            n <= limit + 1,
            0 <= p <= n,
            p < n ==> end == n,
            p >= n ==> end == kept.len(),
            table.wf(),
            table.nodes().dom() == table.keys(),
            forall|x: int| 0 <= x < c@.len() ==> table.has_node((#[trigger] c@[x]).peer,
                c@[x].data),
            kept == if p < n {
                c@.remove(p as int)
            } else if c@.len() <= limit {
                c@
            } else {
                c@.take(limit as int)
            },
            out@.len() == if i <= p {
                i as int
            } else {
                i - 1
            },
            forall|x: int| 0 <= x < out@.len() ==> (#[trigger] out@[x]).peer == kept[x].peer,
            forall|x: int|
                0 <= x < out@.len() ==> table.nodes().dom().contains((#[trigger] out@[x]).peer.key)
                    && out@[x].peer == table.nodes()[out@[x].peer.key].peer && out@[x]@.addresses
                    == table.nodes()[out@[x].peer.key].addresses@,
        decreases end - i,
    {
        if i != p {
            let peer = c[i].peer;
            proof {
                assert(kept[out@.len() as int] == c@[i as int]);
                lemma_stored_peer(table, c@[i as int]);
            }
            match table.get(&peer.key) {
                Some(node) => {
                    let addresses = node.addresses.to_vec();
                    out.push(PeerInfo { peer: node.peer, addresses });
                },
                None => {
                    proof {
                        table.lemma_nodes_dom();
                        assert(table.contains(peer.key));
                    }
                    assert(false);
                },
            }
        }
        i += 1;
    }
    proof {
        assert(out@.len() == kept.len());
        assert(as_entries(info_peers(out@)).len() == kept.len());
        assert forall|x: int| 0 <= x < kept.len() implies (#[trigger] as_entries(
            info_peers(out@),
        )[x]).peer == kept[x].peer by {}
        lemma_same_peers_closest(
            kept,
            as_entries(info_peers(out@)),
            table.keys().remove(*source),
            *target,
            limit as nat,
        );
    }
    out
}

/// The entry of a lookup names the peer as the table has it.
proof fn lemma_stored_peer(table: &RoutingTable, e: Entry<NodeStatus>)
    requires
        table.wf(),
        table.has_node(e.peer, e.data),
    ensures
        table.nodes().dom().contains(e.peer.key),
        table.nodes()[e.peer.key].peer == e.peer,
{
    let (i, j) = choose|i: int, j: int|
        0 <= i < table.buckets().len() && 0 <= j < table.buckets()[i].nodes().len() && (
        #[trigger] table.buckets()[i].nodes()[j]).peer == e.peer
            && table.buckets()[i].nodes()[j].status == e.data;
    table.lemma_node_at(i, j);
}

/// A list with the peers of a list of the closest, in its order, is a list of
/// the closest.
pub proof fn lemma_same_peers_closest<S, T>(
    a: Seq<Entry<S>>,
    b: Seq<Entry<T>>,
    all: Set<Key>,
    target: Key,
    limit: nat,
)
    requires
        is_closest(a, all, target, limit),
        a.len() == b.len(),
        forall|x: int| 0 <= x < a.len() ==> (#[trigger] b[x]).peer == a[x].peer,
    ensures
        is_closest(b, all, target, limit),
{
    assert forall|i: int, j: int| 0 <= i < j < b.len() implies distance(
        #[trigger] b[i].peer.key,
        target,
    ) < distance(#[trigger] b[j].peer.key, target) by {
        assert(b[i].peer == a[i].peer && b[j].peer == a[j].peer);
    }
    assert forall|i: int| 0 <= i < b.len() implies all.contains((#[trigger] b[i]).peer.key) by {
        assert(b[i].peer == a[i].peer);
        assert(all.contains(a[i].peer.key));
    }
    assert forall|k: Key| #![trigger all.contains(k)] all.contains(k) && !has_key(b, k) implies b.len()
        == limit && forall|i: int|
        0 <= i < b.len() ==> distance((#[trigger] b[i]).peer.key, target) < distance(k, target) by {
        if has_key(a, k) {
            let w = choose|w: int| 0 <= w < a.len() && (#[trigger] a[w]).peer.key == k;
            assert(b[w].peer == a[w].peer);
            assert(false);
        }
        assert forall|i: int| 0 <= i < b.len() implies distance(
            (#[trigger] b[i]).peer.key,
            target,
        ) < distance(k, target) by {
            assert(b[i].peer == a[i].peer);
        }
    }
}

/// The time at which a record that arrives at `now` expires at a node that
/// lies `num_beyond_k` nodes beyond the closest to the key: the time to live
/// is halved once for each of those nodes, and an expiry that the record
/// brings along holds if it is earlier. Without a time to live, the record
/// does not expire.
pub open spec fn arrival_expiry(
    now: u64,
    ttl: Option<u64>,
    expires: Option<u64>,
    num_beyond_k: u32,
) -> Option<u64> {
    match ttl {
        None => None,
        Some(ttl) => {
            let own = deadline_after(now, exp_decreased(ttl, num_beyond_k));
            match expires {
                Some(t) if t < own => Some(t),
                _ => Some(own),
            }
        },
    }
}

/// The time at which a record that arrives at `now` expires.
pub fn expiry_on_arrival(now: u64, ttl: Option<u64>, expires: Option<u64>, num_beyond_k: u32) -> (r:
    Option<u64>)
    ensures
        r == arrival_expiry(now, ttl, expires, num_beyond_k),
{
    match ttl {
        None => None,
        Some(ttl) => {
            let own = crate::candidates::deadline(now, exp_decrease(ttl, num_beyond_k));
            match expires {
                Some(t) => if t < own {
                    Some(t)
                } else {
                    Some(own)
                },
                None => Some(own),
            }
        },
    }
}

/// The number of nodes of `s` that are closer to `target` than `local`.
pub open spec fn nodes_closer(s: Seq<Node>, local: Key, target: Key) -> nat
    decreases s.len(),
{
    if s.len() == 0 {
        0
    } else {
        nodes_closer(s.drop_last(), local, target) + if distance(s.last().peer.key, target)
            < distance(local, target) {
            1nat
        } else {
            0nat
        }
    }
}

/// The number of nodes in the first `n` buckets that are closer to `target`
/// than `local`.
pub open spec fn buckets_closer(b: Seq<KBucket>, n: int, local: Key, target: Key) -> nat
    decreases n,
{
    if n <= 0 {
        0
    } else {
        buckets_closer(b, n - 1, local, target) + nodes_closer(b[n - 1].nodes(), local, target)
    }
}

/// The number of nodes of the table that lie between the local key and
/// `target`, that is closer to `target` than the local key; counted up to
/// the largest number that fits.
pub fn count_nodes_between(table: &RoutingTable, target: &Key) -> (r: u32)
    requires
        table.wf(),
    ensures
        r == if buckets_closer(table.buckets(), 256, table.local_key(), *target) > u32::MAX {
            u32::MAX as nat
        } else {
            buckets_closer(table.buckets(), 256, table.local_key(), *target)
        },
{
    let local = table.local();
    let mut count: u32 = 0;
    let mut i: usize = 0;
    while i < 256
        invariant
            0 <= i <= 256,
            table.wf(),
            local == table.local_key(),
            count == if buckets_closer(table.buckets(), i as int, local, *target) > u32::MAX {
                u32::MAX as nat
            } else {
                buckets_closer(table.buckets(), i as int, local, *target)
            },
        decreases 256 - i,
    {
        let bucket = table.bucket(i);
        let n = bucket.len();
        let ghost base = buckets_closer(table.buckets(), i as int, local, *target);
        let ghost nodes = bucket.nodes();
        let mut j: usize = 0;
        while j < n
            invariant
                0 <= j <= n,
                n == nodes.len(),
                nodes == bucket.nodes(),
                count == if base + nodes_closer(nodes.take(j as int), local, *target) > u32::MAX {
                    u32::MAX as nat
                } else {
                    base + nodes_closer(nodes.take(j as int), local, *target)
                },
            decreases n - j,
        {
            proof {
                assert(nodes.take(j + 1).drop_last() =~= nodes.take(j as int));
                assert(nodes.take(j + 1).last() == nodes[j as int]);
            }
            if closer(&bucket.node(j).peer.key, &local, target) {
                count = count.saturating_add(1);
            }
            j += 1;
        }
        proof {
            assert(nodes.take(n as int) =~= nodes);
        }
        i += 1;
    }
    count
}

} // verus!
