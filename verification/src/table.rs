//! The routing table: 256 buckets around the local key.
//!
//! A peer belongs to the bucket whose index is the position of the highest
//! one bit of its distance from the local key. The local key itself belongs
//! to no bucket.

use crate::addresses::Addresses;
use crate::bucket::{
    holds, insert_step, lemma_push_holds, lemma_remove_holds, lemma_remove_push_holds,
    lemma_update_distinct, node_at, AppliedPending, InsertResult, KBucket, Node, NodeStatus,
    PendingNode,
};
use crate::key::{bucket_index_of, distance, lemma_distance_self, xor_seq, Key};
use crate::nearest::{has_key, is_closest, lemma_offered_closest, offer, sorted, Entry, Peer};
use crate::candidates::lemma_offered_members;
use vstd::prelude::*;

verus! {

/// The number of buckets of a routing table.
pub const NUM_BUCKETS: usize = 256;

/// The parameters of a routing table.
#[derive(Clone, Copy, Debug, PartialEq, Eq)]
pub struct RoutingTableConfig {
    /// The largest number of nodes in a bucket.
    pub bucket_size: usize,
    /// The time for which a candidate waits for a place in a full bucket.
    pub pending_timeout: u64,
}

/// The bucket of a table around `local` to which `key` belongs.
pub open spec fn bucket_of(local: Key, key: Key) -> Option<int> {
    bucket_index_of(xor_seq(local@, key@))
}

/// The keys of the nodes of `s`.
pub open spec fn node_keys(s: Seq<Node>) -> Set<Key> {
    Set::new(|k: Key| holds(s, k))
}

/// The keys of a table after `key` was offered to it with outcome `r`.
pub open spec fn keys_after_insert(keys: Set<Key>, key: Key, r: InsertResult) -> Set<Key> {
    match r {
        InsertResult::Inserted => keys.insert(key),
        InsertResult::Replaced(evicted) => keys.remove(evicted.key).insert(key),
        _ => keys,
    }
}

/// The nodes of a table after `node` was offered to it with outcome `r`.
pub open spec fn nodes_after_insert(nodes: Map<Key, Node>, node: Node, r: InsertResult) -> Map<
    Key,
    Node,
> {
    match r {
        InsertResult::Inserted => nodes.insert(node.peer.key, node),
        InsertResult::Replaced(evicted) => nodes.remove(evicted.key).insert(node.peer.key, node),
        _ => nodes,
    }
}

/// The outcomes that are there, in their order.
pub open spec fn somes<T>(s: Seq<Option<T>>) -> Seq<T>
    decreases s.len(),
{
    if s.len() == 0 {
        Seq::empty()
    } else if s.last() is Some {
        somes(s.drop_last()).push(s.last()->0)
    } else {
        somes(s.drop_last())
    }
}

/// The table `after` is the table `before` after the pending candidate of
/// every bucket was looked at at time `now`: each bucket took the step that
/// `apply_pending_step` describes, and `applied` says what became of the
/// candidates that were due, by bucket.
pub open spec fn pending_applied(
    before: RoutingTable,
    now: u64,
    after: RoutingTable,
    applied: Seq<AppliedPending>,
) -> bool {
    exists|rs: Seq<Option<AppliedPending>>|
        #![trigger somes(rs)]
        rs.len() == 256 && applied == somes(rs) && forall|i: int|
            0 <= i < 256 ==> crate::bucket::apply_pending_step(
                before.buckets()[i].nodes(),
                before.buckets()[i].pending(),
                before.config().bucket_size as nat,
                now,
                (#[trigger] after.buckets()[i]).nodes(),
                after.buckets()[i].pending(),
                rs[i],
            )
}

/// A routing table.
#[derive(Debug)]
pub struct RoutingTable {
    local_key: Key,
    buckets: Vec<KBucket>,
    config: RoutingTableConfig,
}

impl RoutingTable {
    /// The key around which the table is built.
    pub closed spec fn local_key(self) -> Key {
        self.local_key
    }

    /// The buckets of the table, by index.
    pub closed spec fn buckets(self) -> Seq<KBucket> {
        self.buckets@
    }

    /// The parameters of the table.
    pub closed spec fn config(self) -> RoutingTableConfig {
        self.config
    }

    /// Bucket `i` is a bucket of the right size whose nodes and candidate
    /// belong to it.
    pub open spec fn bucket_wf(self, i: int) -> bool {
        let b = self.buckets()[i];
        &&& b.wf()
        &&& b.capacity() == self.config().bucket_size
        &&& forall|j: int|
            0 <= j < b.nodes().len() ==> bucket_of(
                self.local_key(),
                (#[trigger] b.nodes()[j]).peer.key,
            ) == Some(i)
        &&& b.pending() is Some ==> bucket_of(self.local_key(), b.pending()->0.node.peer.key)
            == Some(i)
    }

    /// The table has its 256 buckets, each of them in order.
    pub open spec fn wf(self) -> bool {
        &&& self.buckets().len() == 256
        &&& self.config().bucket_size >= 1
        &&& forall|i: int| 0 <= i < 256 ==> #[trigger] self.bucket_wf(i)
    }

    /// Some bucket holds a node at `key`.
    pub open spec fn contains(self, key: Key) -> bool {
        exists|i: int| 0 <= i < self.buckets().len()
            && holds((#[trigger] self.buckets()[i]).nodes(), key)
    }

    /// The keys of all nodes of the table.
    pub open spec fn keys(self) -> Set<Key> {
        Set::new(|k: Key| self.contains(k))
    }

    /// Some bucket before bucket `n` holds a node at `key`.
    pub open spec fn contains_below(self, n: int, key: Key) -> bool {
        exists|i: int| 0 <= i < n
            && i < self.buckets().len()
            && holds((#[trigger] self.buckets()[i]).nodes(), key)
    }

    /// The keys of the nodes in the buckets before bucket `n`.
    pub open spec fn keys_below(self, n: int) -> Set<Key> {
        Set::new(|k: Key| self.contains_below(n, k))
    }

    /// Some node of the table is the given peer with the given status.
    pub open spec fn has_node(self, peer: Peer, status: NodeStatus) -> bool {
        exists|i: int, j: int|
            0 <= i < self.buckets().len() && 0 <= j < self.buckets()[i].nodes().len()
                && (#[trigger] self.buckets()[i].nodes()[j]).peer == peer
                && self.buckets()[i].nodes()[j].status == status
    }

    /// Each key is held by at most one bucket: the one that its distance from
    /// the local key selects.
    pub proof fn lemma_one_bucket(self, key: Key, i: int)
        requires
            self.wf(),
            0 <= i < 256,
            holds(self.buckets()[i].nodes(), key),
        ensures
            bucket_of(self.local_key(), key) == Some(i),
            key != self.local_key(),
            forall|j: int|
                0 <= j < 256 && holds((#[trigger] self.buckets()[j]).nodes(), key) ==> j == i,
    {
        assert(self.bucket_wf(i));
        let w = choose|w: int| node_at(self.buckets()[i].nodes(), key, w);
        assert(self.buckets()[i].nodes()[w].peer.key == key);
        assert forall|j: int|
            0 <= j < 256 && holds((#[trigger] self.buckets()[j]).nodes(), key) implies j == i by {
            assert(self.bucket_wf(j));
            let v = choose|v: int| node_at(self.buckets()[j].nodes(), key, v);
            assert(self.buckets()[j].nodes()[v].peer.key == key);
        }
        if key == self.local_key() {
            lemma_distance_self(key);
        }
    }

    /// Bucket `i` holds the node at `key` at position `j`.
    pub open spec fn slot(self, key: Key, i: int, j: int) -> bool {
        &&& 0 <= i < self.buckets().len()
        &&& 0 <= j < self.buckets()[i].nodes().len()
        &&& self.buckets()[i].nodes()[j].peer.key == key
    }

    /// The nodes of the table by key.
    pub open spec fn nodes(self) -> Map<Key, Node> {
        Map::new(
            |k: Key| exists|i: int, j: int| self.slot(k, i, j),
            |k: Key|
                {
                    let (i, j) = choose|i: int, j: int| self.slot(k, i, j);
                    self.buckets()[i].nodes()[j]
                },
        )
    }

    /// The node at position `j` of bucket `i` is the node of the table at its key.
    pub proof fn lemma_node_at(self, i: int, j: int)
        requires
            self.wf(),
            0 <= i < 256,
            0 <= j < self.buckets()[i].nodes().len(),
        ensures
            self.nodes().dom().contains(self.buckets()[i].nodes()[j].peer.key),
            self.nodes()[self.buckets()[i].nodes()[j].peer.key] == self.buckets()[i].nodes()[j],
            self.contains(self.buckets()[i].nodes()[j].peer.key),
    {
        let key = self.buckets()[i].nodes()[j].peer.key;
        assert(self.slot(key, i, j));
        assert(node_at(self.buckets()[i].nodes(), key, j));
        let (a, b) = choose|a: int, b: int| self.slot(key, a, b);
        assert(node_at(self.buckets()[a].nodes(), key, b));
        self.lemma_one_bucket(key, i);
        assert(a == i);
        assert(self.bucket_wf(i));
        assert(b == j);
    }

    /// The keys under which the table has nodes are the keys that its
    /// buckets hold.
    pub proof fn lemma_nodes_dom(self)
        ensures
            self.nodes().dom() == self.keys(),
    {
        assert forall|k: Key| self.nodes().dom().contains(k) <==> self.keys().contains(k) by {
            if self.nodes().dom().contains(k) {
                let (i, j) = choose|i: int, j: int| self.slot(k, i, j);
                assert(node_at(self.buckets()[i].nodes(), k, j));
                assert(holds(self.buckets()[i].nodes(), k));
            }
            if self.contains(k) {
                let i = choose|i: int|
                    0 <= i < self.buckets().len()
                        && holds((#[trigger] self.buckets()[i]).nodes(), k);
                let j = choose|j: int| node_at(self.buckets()[i].nodes(), k, j);
                assert(self.slot(k, i, j));
            }
        }
        assert(self.nodes().dom() =~= self.keys());
    }

    /// What the table has under the keys of bucket `idx` is what that bucket holds.
    pub proof fn lemma_bucket_nodes(self, idx: int)
        requires
            self.wf(),
            0 <= idx < 256,
        ensures
            forall|k: Key|
                bucket_of(self.local_key(), k) == Some(idx)
                    ==> (#[trigger] self.nodes().dom().contains(
                    k,
                ) <==> holds(self.buckets()[idx].nodes(), k)),
            forall|j: int|
                0 <= j < self.buckets()[idx].nodes().len() ==> self.nodes()[(
                #[trigger] self.buckets()[idx].nodes()[j]).peer.key]
                    == self.buckets()[idx].nodes()[j],
    {
        assert forall|k: Key| bucket_of(self.local_key(), k) == Some(idx) implies (
        #[trigger] self.nodes().dom().contains(k) <==> holds(self.buckets()[idx].nodes(), k)) by {
            if self.nodes().dom().contains(k) {
                let (i, j) = choose|i: int, j: int| self.slot(k, i, j);
                assert(node_at(self.buckets()[i].nodes(), k, j));
                self.lemma_one_bucket(k, i);
            }
            if holds(self.buckets()[idx].nodes(), k) {
                let j = choose|j: int| node_at(self.buckets()[idx].nodes(), k, j);
                assert(self.slot(k, idx, j));
            }
        }
        assert forall|j: int| 0 <= j < self.buckets()[idx].nodes().len() implies self.nodes()[(
        #[trigger] self.buckets()[idx].nodes()[j]).peer.key] == self.buckets()[idx].nodes()[j] by {
            self.lemma_node_at(idx, j);
        }
    }

    /// A table of which only bucket `idx` changed has the nodes `expected`,
    /// if `expected` has what the table had outside that bucket and what the
    /// bucket holds now.
    pub proof fn lemma_changed_bucket(self, after: RoutingTable, idx: int, expected: Map<Key, Node>)
        requires
            self.wf(),
            after.wf(),
            0 <= idx < 256,
            after.local_key() == self.local_key(),
            forall|i: int| 0 <= i < 256
                && i != idx ==> #[trigger] after.buckets()[i] == self.buckets()[i],
            forall|k: Key|
                bucket_of(self.local_key(), k) != Some(idx)
                    ==> (#[trigger] expected.dom().contains(k)
                    <==> self.nodes().dom().contains(k)),
            forall|k: Key|
                bucket_of(self.local_key(), k) != Some(idx) && #[trigger] expected.dom().contains(k)
                    ==> expected[k] == self.nodes()[k],
            forall|k: Key|
                bucket_of(self.local_key(), k) == Some(idx)
                    ==> (#[trigger] expected.dom().contains(k)
                    <==> holds(after.buckets()[idx].nodes(), k)),
            forall|j: int|
                0 <= j < after.buckets()[idx].nodes().len() ==> expected[(
                #[trigger] after.buckets()[idx].nodes()[j]).peer.key]
                    == after.buckets()[idx].nodes()[j],
        ensures
            after.nodes() == expected,
    {
        let a = after.nodes();
        after.lemma_bucket_nodes(idx);
        assert forall|k: Key| a.dom().contains(k) <==> expected.dom().contains(k) by {
            if bucket_of(self.local_key(), k) != Some(idx) {
                if a.dom().contains(k) {
                    let (i, j) = choose|i: int, j: int| after.slot(k, i, j);
                    assert(node_at(after.buckets()[i].nodes(), k, j));
                    after.lemma_one_bucket(k, i);
                    assert(self.slot(k, i, j));
                }
                if self.nodes().dom().contains(k) {
                    let (i, j) = choose|i: int, j: int| self.slot(k, i, j);
                    assert(node_at(self.buckets()[i].nodes(), k, j));
                    self.lemma_one_bucket(k, i);
                    assert(after.slot(k, i, j));
                }
            }
        }
        assert forall|k: Key| a.dom().contains(k) implies a[k] == expected[k] by {
            let (i, j) = choose|i: int, j: int| after.slot(k, i, j);
            assert(node_at(after.buckets()[i].nodes(), k, j));
            after.lemma_one_bucket(k, i);
            after.lemma_node_at(i, j);
            if i != idx {
                self.lemma_node_at(i, j);
            }
        }
        assert(a =~= expected);
    }

    /// An empty table around `local_key`.
    pub fn new(local_key: Key, config: RoutingTableConfig) -> (t: RoutingTable)
        requires
            config.bucket_size >= 1,
        ensures
            t.wf(),
            t.local_key() == local_key,
            t.config() == config,
            t.keys() == Set::<Key>::empty(),
    {
        let mut buckets: Vec<KBucket> = Vec::new();
        let mut i: usize = 0;
        while i < 256
            invariant
                0 <= i <= 256,
                config.bucket_size >= 1,
                buckets@.len() == i,
                forall|j: int|
                    0 <= j < i ==> {
                        &&& (#[trigger] buckets@[j]).wf()
                        &&& buckets@[j].capacity() == config.bucket_size
                        &&& buckets@[j].nodes() == Seq::<Node>::empty()
                        &&& buckets@[j].pending() is None
                    },
            decreases 256 - i,
        {
            buckets.push(KBucket::new(config.bucket_size));
            i += 1;
        }
        let t = RoutingTable { local_key, buckets, config };
        proof {
            assert forall|i: int| 0 <= i < 256 implies #[trigger] t.bucket_wf(i) by {
                assert(t.buckets()[i].nodes() == Seq::<Node>::empty());
            }
            assert forall|k: Key| !t.contains(k) by {
                if t.contains(k) {
                    let i = choose|i: int|
                        0 <= i < t.buckets().len() && holds((#[trigger] t.buckets()[i]).nodes(), k);
                    let w = choose|w: int| node_at(t.buckets()[i].nodes(), k, w);
                    assert(false);
                }
            }
            assert(t.keys() =~= Set::<Key>::empty());
        }
        t
    }

    /// The key around which the table is built.
    pub fn local(&self) -> (k: Key)
        ensures
            k == self.local_key(),
    {
        self.local_key
    }

    /// The bucket with index `i`.
    pub fn bucket(&self, i: usize) -> (b: &KBucket)
        requires
            i < self.buckets().len(),
        ensures
            *b == self.buckets()[i as int],
    {
        &self.buckets[i]
    }

    /// The index of the bucket to which `key` belongs; `None` for the local key.
    pub fn bucket_index(&self, key: &Key) -> (r: Option<usize>)
        ensures
            r is None <==> *key == self.local_key(),
            r is Some ==> r->0 < 256 && bucket_of(self.local_key(), *key) == Some(r->0 as int),
    {
        self.local_key.bucket_index(key)
    }

    /// The node at `key`, if the table holds it.
    pub fn get(&self, key: &Key) -> (r: Option<&Node>)
        requires
            self.wf(),
        ensures
            r is Some <==> self.contains(*key),
            r is Some ==> r->0.peer.key == *key && self.has_node(r->0.peer, r->0.status),
            r is Some ==> self.nodes().dom().contains(*key) && *r->0 == self.nodes()[*key],
    {
        match self.bucket_index(key) {
            None => {
                proof {
                    if self.contains(*key) {
                        let i = choose|i: int|
                            0 <= i < self.buckets().len() && holds(
                                (#[trigger] self.buckets()[i]).nodes(),
                                *key,
                            );
                        self.lemma_one_bucket(*key, i);
                    }
                }
                None
            },
            Some(idx) => {
                let r = self.buckets[idx].get(key);
                proof {
                    if r is Some {
                        let w = choose|w: int|
                            node_at(self.buckets()[idx as int].nodes(), *key, w) && *r->0
                                == self.buckets()[idx as int].nodes()[w];
                        assert(self.buckets()[idx as int].nodes()[w].peer == r->0.peer);
                        self.lemma_node_at(idx as int, w);
                    } else if self.contains(*key) {
                        let i = choose|i: int|
                            0 <= i < self.buckets().len() && holds(
                                (#[trigger] self.buckets()[i]).nodes(),
                                *key,
                            );
                        self.lemma_one_bucket(*key, i);
                    }
                }
                r
            },
        }
    }

    /// Offers a peer to the table at time `now`.
    ///
    /// The local key is refused. Any other peer is offered to the bucket that
    /// its distance from the local key selects, and no other bucket changes.
    pub fn insert(&mut self, peer: Peer, addresses: Addresses, status: NodeStatus, now: u64) -> (r:
        InsertResult)
        requires
            old(self).wf(),
            addresses.wf(),
        ensures
            final(self).wf(),
            final(self).local_key() == old(self).local_key(),
            final(self).config() == old(self).config(),
            r is SelfEntry <==> peer.key == old(self).local_key(),
            r is SelfEntry ==> final(self).buckets() == old(self).buckets(),
            !(r is SelfEntry) ==> exists|idx: int|
                #![trigger old(self).buckets()[idx]]
                {
                    &&& 0 <= idx < 256
                    &&& bucket_of(old(self).local_key(), peer.key) == Some(idx)
                    &&& insert_step(
                        old(self).buckets()[idx].nodes(),
                        old(self).buckets()[idx].pending(),
                        old(self).config().bucket_size as nat,
                        Node { peer, addresses, status },
                        now,
                        old(self).config().pending_timeout,
                        final(self).buckets()[idx].nodes(),
                        final(self).buckets()[idx].pending(),
                        r,
                    )
                    &&& forall|j: int|
                        0 <= j < 256
                            && j != idx ==> final(self).buckets()[j] == old(self).buckets()[j]
                },
            final(self).keys() == keys_after_insert(old(self).keys(), peer.key, r),
            final(self).nodes() == nodes_after_insert(
                old(self).nodes(),
                Node { peer, addresses, status },
                r,
            ),
    {
        let idx = match self.bucket_index(&peer.key) {
            None => {
                return InsertResult::SelfEntry;
            },
            Some(idx) => idx,
        };
        let ghost before = *self;
        let node = Node { peer, addresses, status };
        assert(self.bucket_wf(idx as int));
        let r = self.buckets[idx].insert(node, now, self.config.pending_timeout);
        proof {
            let bucket = self.buckets()[idx as int];
            let old_nodes = before.buckets()[idx as int].nodes();
            let new_nodes = bucket.nodes();
            assert forall|j: int| 0 <= j < 256 implies #[trigger] self.bucket_wf(j) by {
                assert(before.bucket_wf(j));
                if j == idx {
                    assert forall|w: int| 0 <= w < new_nodes.len() implies bucket_of(
                        self.local_key(),
                        (#[trigger] new_nodes[w]).peer.key,
                    ) == Some(j) by {
                        if new_nodes[w] != node {
                            lemma_step_members(
                                old_nodes,
                                before.buckets()[idx as int].pending(),
                                node,
                                now,
                                before.config().pending_timeout,
                                new_nodes,
                                bucket.pending(),
                                before.config().bucket_size as nat,
                                r,
                            );
                            let v = choose|v: int| 0 <= v < old_nodes.len()
                                && old_nodes[v] == new_nodes[w];
                            assert(old_nodes[v].peer.key == new_nodes[w].peer.key);
                        }
                    }
                }
            }
            before.lemma_keys_after_insert(*self, idx as int, node, now, r);
            before.lemma_nodes_after_insert(*self, idx as int, node, now, r);
        }
        r
    }

    /// The nodes of a table in which one bucket took an insert step.
    proof fn lemma_nodes_after_insert(
        self,
        after: RoutingTable,
        idx: int,
        node: Node,
        now: u64,
        r: InsertResult,
    )
        requires
            self.wf(),
            after.wf(),
            after.local_key() == self.local_key(),
            0 <= idx < 256,
            bucket_of(self.local_key(), node.peer.key) == Some(idx),
            insert_step(
                self.buckets()[idx].nodes(),
                self.buckets()[idx].pending(),
                self.config().bucket_size as nat,
                node,
                now,
                self.config().pending_timeout,
                after.buckets()[idx].nodes(),
                after.buckets()[idx].pending(),
                r,
            ),
            forall|j: int| 0 <= j < 256 && j != idx ==> after.buckets()[j] == self.buckets()[j],
        ensures
            after.nodes() == nodes_after_insert(self.nodes(), node, r),
    {
        let key = node.peer.key;
        let old_nodes = self.buckets()[idx].nodes();
        let new_nodes = after.buckets()[idx].nodes();
        let expected = nodes_after_insert(self.nodes(), node, r);
        self.lemma_bucket_nodes(idx);
        assert(self.bucket_wf(idx));
        match r {
            InsertResult::Inserted => {
                lemma_push_holds(old_nodes, node);
                assert forall|w: int| 0 <= w < new_nodes.len() implies expected[(
                #[trigger] new_nodes[w]).peer.key] == new_nodes[w] by {
                    if w < old_nodes.len() {
                        assert(new_nodes[w] == old_nodes[w]);
                        assert(node_at(old_nodes, old_nodes[w].peer.key, w));
                    }
                }
            },
            InsertResult::Replaced(evicted) => {
                let i = choose|i: int|
                    #![trigger old_nodes[i]]
                    crate::bucket::first_disconnected(old_nodes, i) && r
                        == InsertResult::Replaced(old_nodes[i].peer) && new_nodes
                        == old_nodes.remove(i).push(node);
                lemma_remove_holds(old_nodes, i);
                lemma_push_holds(old_nodes.remove(i), node);
                assert(bucket_of(self.local_key(), old_nodes[i].peer.key) == Some(idx));
                assert forall|w: int| 0 <= w < new_nodes.len() implies expected[(
                #[trigger] new_nodes[w]).peer.key] == new_nodes[w] by {
                    if w < new_nodes.len() - 1 {
                        let w2 = if w < i { w } else { w + 1 };
                        assert(new_nodes[w] == old_nodes[w2]);
                        assert(old_nodes[w2].peer.key != old_nodes[i].peer.key);
                        assert(node_at(old_nodes, old_nodes[w2].peer.key, w2));
                    }
                }
            },
            _ => {
                assert(new_nodes == old_nodes);
            },
        }
        self.lemma_changed_bucket(after, idx, expected);
    }

    /// Looks at the pending candidate of every bucket at time `now`: each
    /// bucket takes the step that `apply_pending_step` describes. Returns
    /// what became of the candidates that were due, by bucket.
    pub fn apply_pending(&mut self, now: u64) -> (r: Vec<AppliedPending>)
        requires
            old(self).wf(),
        ensures
            final(self).wf(),
            final(self).local_key() == old(self).local_key(),
            final(self).config() == old(self).config(),
            pending_applied(*old(self), now, *final(self), r@),
    {
        let ghost before = *self;
        let mut out: Vec<AppliedPending> = Vec::new();
        let ghost mut rs: Seq<Option<AppliedPending>> = Seq::empty();
        let mut i: usize = 0;
        while i < 256
            invariant
                0 <= i <= 256,
                before.wf(),
                before == *old(self),
                self.local_key == before.local_key,
                self.config == before.config,
                self.buckets@.len() == 256,
                rs.len() == i,
                out@ == somes(rs),
                forall|j: int| 0 <= j < 256 ==> #[trigger] self.bucket_wf(j),
                forall|j: int| i <= j < 256 ==> #[trigger] self.buckets()[j] == before.buckets()[j],
                forall|j: int|
                    0 <= j < i ==> crate::bucket::apply_pending_step(
                        before.buckets()[j].nodes(),
                        before.buckets()[j].pending(),
                        before.config().bucket_size as nat,
                        now,
                        (#[trigger] self.buckets()[j]).nodes(),
                        self.buckets()[j].pending(),
                        rs[j],
                    ),
            decreases 256 - i,
        {
            let ghost prev = *self;
            let ghost prev_rs = rs;
            assert(self.bucket_wf(i as int));
            let r = self.buckets[i].apply_pending(now);
            match r {
                Some(applied) => {
                    out.push(applied);
                },
                None => {},
            }
            proof {
                rs = rs.push(r);
                assert(rs.drop_last() =~= prev_rs);
                let old_nodes = prev.buckets()[i as int].nodes();
                let new_nodes = self.buckets()[i as int].nodes();
                assert forall|j: int| 0 <= j < 256 implies #[trigger] self.bucket_wf(j) by {
                    assert(prev.bucket_wf(j));
                    if j == i {
                        assert forall|w: int| 0 <= w < new_nodes.len() implies bucket_of(
                            self.local_key(),
                            (#[trigger] new_nodes[w]).peer.key,
                        ) == Some(j) by {
                            lemma_applied_members(
                                old_nodes,
                                prev.buckets()[i as int].pending(),
                                prev.config().bucket_size as nat,
                                now,
                                new_nodes,
                                self.buckets()[i as int].pending(),
                                r,
                            );
                            if old_nodes.contains(new_nodes[w]) {
                                let v = choose|v: int|
                                    0 <= v < old_nodes.len() && old_nodes[v] == new_nodes[w];
                                assert(old_nodes[v].peer.key == new_nodes[w].peer.key);
                            }
                        }
                    } else {
                        assert(self.buckets()[j] == prev.buckets()[j]);
                    }
                }
                assert forall|j: int| 0 <= j < i + 1 implies crate::bucket::apply_pending_step(
                    before.buckets()[j].nodes(),
                    before.buckets()[j].pending(),
                    before.config().bucket_size as nat,
                    now,
                    (#[trigger] self.buckets()[j]).nodes(),
                    self.buckets()[j].pending(),
                    rs[j],
                ) by {
                    if j < i {
                        assert(self.buckets()[j] == prev.buckets()[j]);
                        assert(rs[j] == prev_rs[j]);
                    }
                }
            }
            i += 1;
        }
        out
    }

    /// The keys of a table in which one bucket took an insert step.
    proof fn lemma_keys_after_insert(
        self,
        after: RoutingTable,
        idx: int,
        node: Node,
        now: u64,
        r: InsertResult,
    )
        requires
            self.wf(),
            after.buckets().len() == 256,
            0 <= idx < 256,
            bucket_of(self.local_key(), node.peer.key) == Some(idx),
            insert_step(
                self.buckets()[idx].nodes(),
                self.buckets()[idx].pending(),
                self.config().bucket_size as nat,
                node,
                now,
                self.config().pending_timeout,
                after.buckets()[idx].nodes(),
                after.buckets()[idx].pending(),
                r,
            ),
            forall|j: int| 0 <= j < 256 && j != idx ==> after.buckets()[j] == self.buckets()[j],
        ensures
            after.keys() == keys_after_insert(self.keys(), node.peer.key, r),
    {
        let key = node.peer.key;
        let old_nodes = self.buckets()[idx].nodes();
        let new_nodes = after.buckets()[idx].nodes();
        let expected = keys_after_insert(self.keys(), key, r);
        assert(self.bucket_wf(idx));
        // How the keys of the one bucket changed.
        assert forall|k: Key| holds(new_nodes, k) <==> match r {
            InsertResult::Inserted => holds(old_nodes, k) || k == key,
            InsertResult::Replaced(evicted) => (holds(old_nodes, k) && k != evicted.key) || k
                == key,
            _ => holds(old_nodes, k),
        } by {
            match r {
                InsertResult::Inserted => {
                    lemma_push_holds(old_nodes, node);
                },
                InsertResult::Replaced(evicted) => {
                    let i = choose|i: int|
                        #![trigger old_nodes[i]]
                        crate::bucket::first_disconnected(old_nodes, i) && r
                            == InsertResult::Replaced(old_nodes[i].peer) && new_nodes
                            == old_nodes.remove(i).push(node);
                    lemma_remove_holds(old_nodes, i);
                    lemma_push_holds(old_nodes.remove(i), node);
                },
                _ => {},
            }
        }
        assert forall|k: Key| after.contains(k) <==> expected.contains(k) by {
            if after.contains(k) {
                let i = choose|i: int|
                    0 <= i < after.buckets().len()
                        && holds((#[trigger] after.buckets()[i]).nodes(), k);
                if i != idx {
                    assert(holds(self.buckets()[i].nodes(), k));
                    self.lemma_one_bucket(k, i);
                    assert(self.contains(k));
                    if r is Replaced {
                        let e = choose|e: int|
                            #![trigger old_nodes[e]]
                            crate::bucket::first_disconnected(old_nodes, e) && r
                                == InsertResult::Replaced(old_nodes[e].peer);
                        assert(node_at(old_nodes, old_nodes[e].peer.key, e));
                    }
                } else {
                    if holds(old_nodes, k) {
                        assert(self.contains(k));
                    }
                }
            }
            if expected.contains(k) {
                if self.contains(k)
                    && !(r is Inserted && k == key)
                    && !(r is Replaced && k == key) {
                    let i = choose|i: int|
                        0 <= i < self.buckets().len()
                            && holds((#[trigger] self.buckets()[i]).nodes(), k);
                    if i != idx {
                        assert(holds(after.buckets()[i].nodes(), k));
                    } else {
                        assert(holds(after.buckets()[idx].nodes(), k));
                    }
                } else {
                    assert(holds(after.buckets()[idx].nodes(), k));
                }
            }
        }
        assert(after.keys() =~= expected);
    }

    /// Takes note that the node at `key` was seen with the given status. The
    /// node becomes the one of its bucket that was seen last. Returns whether
    /// the table holds the key; if not, no node changes.
    pub fn update_status(&mut self, key: &Key, status: NodeStatus) -> (r: bool)
        requires
            old(self).wf(),
        ensures
            final(self).wf(),
            final(self).local_key() == old(self).local_key(),
            final(self).config() == old(self).config(),
            r == old(self).contains(*key),
            r ==> final(self).nodes() == old(self).nodes().insert(
                *key,
                Node {
                    peer: old(self).nodes()[*key].peer,
                    addresses: old(self).nodes()[*key].addresses,
                    status,
                },
            ),
            !r ==> final(self).nodes() == old(self).nodes(),
    {
        let ghost before = *self;
        let idx = match self.bucket_index(key) {
            None => {
                proof {
                    before.lemma_absent(*key, 0);
                }
                return false;
            },
            Some(idx) => idx,
        };
        assert(self.bucket_wf(idx as int));
        let r = self.buckets[idx].update_status(key, status);
        proof {
            let old_nodes = before.buckets()[idx as int].nodes();
            let new_nodes = self.buckets()[idx as int].nodes();
            before.lemma_bucket_nodes(idx as int);
            if r {
                let i = choose|i: int|
                    node_at(old_nodes, *key, i) && new_nodes == old_nodes.remove(i).push(
                        Node { peer: old_nodes[i].peer, addresses: old_nodes[i].addresses, status },
                    );
                let moved = Node {
                    peer: old_nodes[i].peer,
                    addresses: old_nodes[i].addresses,
                    status,
                };
                lemma_remove_push_holds(old_nodes, i, moved);
                assert forall|w: int| 0 <= w < new_nodes.len() implies bucket_of(
                    self.local_key(),
                    (#[trigger] new_nodes[w]).peer.key,
                ) == Some(idx as int) by {
                    if w < new_nodes.len() - 1 {
                        let w2 = if w < i { w } else { w + 1 };
                        assert(new_nodes[w] == old_nodes[w2]);
                    }
                }
                assert forall|j: int| 0 <= j < 256 implies #[trigger] self.bucket_wf(j) by {
                    assert(before.bucket_wf(j));
                }
                before.lemma_node_at(idx as int, i);
                let expected = before.nodes().insert(*key, moved);
                assert forall|w: int| 0 <= w < new_nodes.len() implies expected[(
                #[trigger] new_nodes[w]).peer.key] == new_nodes[w] by {
                    if w < new_nodes.len() - 1 {
                        let w2 = if w < i { w } else { w + 1 };
                        assert(new_nodes[w] == old_nodes[w2]);
                        assert(old_nodes[w2].peer.key != old_nodes[i].peer.key);
                    }
                }
                before.lemma_changed_bucket(*self, idx as int, expected);
                assert(holds(old_nodes, *key));
                assert(before.contains(*key));
            } else {
                assert forall|j: int| 0 <= j < 256 implies #[trigger] self.bucket_wf(j) by {
                    assert(before.bucket_wf(j));
                }
                before.lemma_changed_bucket(*self, idx as int, before.nodes());
                before.lemma_absent(*key, idx as int);
            }
        }
        r
    }

    /// A key that its own bucket does not hold is not in the table.
    proof fn lemma_absent(self, key: Key, idx: int)
        requires
            self.wf(),
            key == self.local_key() || (bucket_of(self.local_key(), key) == Some(idx) && 0 <= idx
                < 256 && !holds(self.buckets()[idx].nodes(), key)),
        ensures
            !self.contains(key),
            !self.nodes().dom().contains(key),
    {
        self.lemma_nodes_dom();
        if self.contains(key) {
            let i = choose|i: int|
                0 <= i < self.buckets().len() && holds((#[trigger] self.buckets()[i]).nodes(), key);
            self.lemma_one_bucket(key, i);
        }
    }

    /// Takes the node at `key` out of the table.
    pub fn remove(&mut self, key: &Key) -> (r: Option<Node>)
        requires
            old(self).wf(),
        ensures
            final(self).wf(),
            final(self).local_key() == old(self).local_key(),
            final(self).config() == old(self).config(),
            r is Some <==> old(self).contains(*key),
            r is Some ==> r->0 == old(self).nodes()[*key],
            final(self).nodes() == old(self).nodes().remove(*key),
    {
        let ghost before = *self;
        let idx = match self.bucket_index(key) {
            None => {
                proof {
                    before.lemma_absent(*key, 0);
                    assert(before.nodes().remove(*key) =~= before.nodes());
                }
                return None;
            },
            Some(idx) => idx,
        };
        assert(self.bucket_wf(idx as int));
        let r = self.buckets[idx].remove(key);
        proof {
            let old_nodes = before.buckets()[idx as int].nodes();
            let new_nodes = self.buckets()[idx as int].nodes();
            before.lemma_bucket_nodes(idx as int);
            let expected = before.nodes().remove(*key);
            if r is Some {
                let i = choose|i: int|
                    node_at(old_nodes, *key, i) && r->0 == old_nodes[i] && new_nodes
                        == old_nodes.remove(i);
                lemma_remove_holds(old_nodes, i);
                assert forall|w: int| 0 <= w < new_nodes.len() implies bucket_of(
                    self.local_key(),
                    (#[trigger] new_nodes[w]).peer.key,
                ) == Some(idx as int) && expected[new_nodes[w].peer.key] == new_nodes[w] by {
                    let w2 = if w < i { w } else { w + 1 };
                    assert(new_nodes[w] == old_nodes[w2]);
                    assert(old_nodes[w2].peer.key != old_nodes[i].peer.key);
                }
                before.lemma_node_at(idx as int, i);
                assert(holds(old_nodes, *key));
                assert(before.contains(*key));
            } else {
                before.lemma_absent(*key, idx as int);
                assert(expected =~= before.nodes());
            }
            assert forall|j: int| 0 <= j < 256 implies #[trigger] self.bucket_wf(j) by {
                assert(before.bucket_wf(j));
            }
            before.lemma_changed_bucket(*self, idx as int, expected);
        }
        r
    }

    /// Gives the node at `key` the list `addresses` in place of its own.
    /// Returns whether the table holds the key; if not, no node changes.
    pub fn set_addresses(&mut self, key: &Key, addresses: Addresses) -> (r: bool)
        requires
            old(self).wf(),
            addresses.wf(),
        ensures
            final(self).wf(),
            final(self).local_key() == old(self).local_key(),
            final(self).config() == old(self).config(),
            r == old(self).contains(*key),
            r ==> final(self).nodes() == old(self).nodes().insert(
                *key,
                Node {
                    peer: old(self).nodes()[*key].peer,
                    addresses,
                    status: old(self).nodes()[*key].status,
                },
            ),
            !r ==> final(self).nodes() == old(self).nodes(),
            forall|i: int|
                0 <= i < 256 ==> (#[trigger] final(self).buckets()[i]).nodes().len()
                    == old(self).buckets()[i].nodes().len(),
    {
        let ghost before = *self;
        let idx = match self.bucket_index(key) {
            None => {
                proof {
                    before.lemma_absent(*key, 0);
                }
                return false;
            },
            Some(idx) => idx,
        };
        assert(self.bucket_wf(idx as int));
        let r = self.buckets[idx].set_addresses(key, addresses);
        proof {
            let old_nodes = before.buckets()[idx as int].nodes();
            let new_nodes = self.buckets()[idx as int].nodes();
            before.lemma_bucket_nodes(idx as int);
            if r {
                let i = choose|i: int|
                    node_at(old_nodes, *key, i) && new_nodes == old_nodes.update(
                        i,
                        Node { peer: old_nodes[i].peer, addresses, status: old_nodes[i].status },
                    );
                let changed = Node {
                    peer: old_nodes[i].peer,
                    addresses,
                    status: old_nodes[i].status,
                };
                lemma_update_distinct(old_nodes, i, changed);
                before.lemma_node_at(idx as int, i);
                let expected = before.nodes().insert(*key, changed);
                assert forall|w: int| 0 <= w < new_nodes.len() implies bucket_of(
                    self.local_key(),
                    (#[trigger] new_nodes[w]).peer.key,
                ) == Some(idx as int) && expected[new_nodes[w].peer.key] == new_nodes[w] by {
                    if w != i {
                        assert(new_nodes[w] == old_nodes[w]);
                        assert(old_nodes[w].peer.key != old_nodes[i].peer.key);
                    }
                }
                assert forall|j: int| 0 <= j < 256 implies #[trigger] self.bucket_wf(j) by {
                    assert(before.bucket_wf(j));
                }
                before.lemma_changed_bucket(*self, idx as int, expected);
                assert(holds(old_nodes, *key));
                assert(before.contains(*key));
            } else {
                assert forall|j: int| 0 <= j < 256 implies #[trigger] self.bucket_wf(j) by {
                    assert(before.bucket_wf(j));
                }
                before.lemma_changed_bucket(*self, idx as int, before.nodes());
                before.lemma_absent(*key, idx as int);
            }
        }
        r
    }

    /// The nodes of the table that are closest to `target`, at most `limit` of
    /// them, closest first, each with its status.
    pub fn closest(&self, target: &Key, limit: usize) -> (r: Vec<Entry<NodeStatus>>)
        requires
            self.wf(),
        ensures
            is_closest(r@, self.keys(), *target, limit as nat),
            forall|x: int| 0 <= x < r@.len() ==> self.has_node((#[trigger] r@[x]).peer, r@[x].data),
    {
        let mut out: Vec<Entry<NodeStatus>> = Vec::new();
        let mut i: usize = 0;
        proof {
            assert(self.keys_below(0) =~= Set::<Key>::empty());
        }
        while i < 256
            invariant
                0 <= i <= 256,
                self.wf(),
                sorted(out@, *target),
                out@.len() <= limit,
                is_closest(out@, self.keys_below(i as int), *target, limit as nat),
                forall|x: int|
                    0 <= x < out@.len() ==> self.has_node((#[trigger] out@[x]).peer, out@[x].data),
            decreases 256 - i,
        {
            let bucket = &self.buckets[i];
            let n = bucket.len();
            let ghost nodes = bucket.nodes();
            let mut j: usize = 0;
            proof {
                assert(node_keys(nodes.take(0)) =~= Set::<Key>::empty());
                assert(self.keys_below(i as int).union(Set::<Key>::empty()) =~= self.keys_below(
                    i as int,
                ));
            }
            while j < n
                invariant
                    0 <= j <= n,
                    0 <= i < 256,
                    self.wf(),
                    *bucket == self.buckets()[i as int],
                    nodes == bucket.nodes(),
                    n == nodes.len(),
                    sorted(out@, *target),
                    out@.len() <= limit,
                    is_closest(
                        out@,
                        self.keys_below(i as int).union(node_keys(nodes.take(j as int))),
                        *target,
                        limit as nat,
                    ),
                    forall|x: int|
                        0 <= x < out@.len() ==> self.has_node(
                            (#[trigger] out@[x]).peer,
                            out@[x].data,
                        ),
                decreases n - j,
            {
                let node = bucket.node(j);
                let entry = Entry { peer: node.peer, data: node.status };
                let ghost before = out@;
                let ghost seen = self.keys_below(i as int).union(node_keys(nodes.take(j as int)));
                let r = offer(&mut out, target, limit, entry);
                proof {
                    lemma_offered_closest(before, out@, seen, *target, limit as nat, entry, r);
                    lemma_offered_members(before, out@, *target, limit as nat, entry, r);
                    assert(nodes.take(j + 1) =~= nodes.take(j as int).push(nodes[j as int]));
                    lemma_node_keys_push(nodes.take(j as int), nodes[j as int]);
                    assert(seen.insert(entry.peer.key) =~= self.keys_below(i as int).union(
                        node_keys(nodes.take(j + 1)),
                    ));
                    assert(self.buckets()[i as int].nodes()[j as int].peer == entry.peer);
                    assert(self.has_node(entry.peer, entry.data));
                    assert forall|x: int| 0 <= x < out@.len() implies self.has_node(
                        (#[trigger] out@[x]).peer,
                        out@[x].data,
                    ) by {
                        if out@[x] != entry {
                            let y = choose|y: int| 0 <= y < before.len() && before[y] == out@[x];
                            assert(self.has_node(before[y].peer, before[y].data));
                        }
                    }
                }
                j += 1;
            }
            proof {
                assert(nodes.take(n as int) =~= nodes);
                let a = self.keys_below(i as int).union(node_keys(nodes));
                let b = self.keys_below(i + 1);
                assert forall|k: Key| a.contains(k) <==> b.contains(k) by {
                    if a.contains(k) {
                        if self.contains_below(i as int, k) {
                            let w = choose|w: int|
                                0 <= w < i && w < self.buckets().len() && holds(
                                    (#[trigger] self.buckets()[w]).nodes(),
                                    k,
                                );
                            assert(self.contains_below(i + 1, k));
                        } else {
                            assert(holds(self.buckets()[i as int].nodes(), k));
                            assert(self.contains_below(i + 1, k));
                        }
                    }
                    if b.contains(k) {
                        let w = choose|w: int|
                            0 <= w < i + 1 && w < self.buckets().len() && holds(
                                (#[trigger] self.buckets()[w]).nodes(),
                                k,
                            );
                        if w < i {
                            assert(self.contains_below(i as int, k));
                        }
                    }
                }
                assert(a =~= b);
            }
            i += 1;
        }
        proof {
            let a = self.keys_below(256);
            let b = self.keys();
            assert forall|k: Key| a.contains(k) <==> b.contains(k) by {
                if a.contains(k) {
                    let w = choose|w: int|
                        0 <= w < 256 && w < self.buckets().len() && holds(
                            (#[trigger] self.buckets()[w]).nodes(),
                            k,
                        );
                    assert(self.contains(k));
                }
                if b.contains(k) {
                    let w = choose|w: int|
                        0 <= w < self.buckets().len()
                            && holds((#[trigger] self.buckets()[w]).nodes(), k);
                    assert(self.contains_below(256, k));
                }
            }
            assert(a =~= b);
        }
        out
    }
}

/// The keys of a list with one more node are the keys of the list and the
/// key of that node.
pub proof fn lemma_node_keys_push(s: Seq<Node>, node: Node)
    ensures
        node_keys(s.push(node)) == node_keys(s).insert(node.peer.key),
{
    lemma_push_holds(s, node);
    let a = node_keys(s.push(node));
    let b = node_keys(s).insert(node.peer.key);
    assert forall|k: Key| a.contains(k) <==> b.contains(k) by {
        assert(a.contains(k) == holds(s.push(node), k));
        assert(node_keys(s).contains(k) == holds(s, k));
    }
    assert(a =~= b);
}

/// After a look at the pending candidate, each node of the bucket is the
/// candidate or a node that the bucket held before.
pub proof fn lemma_applied_members(
    nodes: Seq<Node>,
    pending: Option<PendingNode>,
    capacity: nat,
    now: u64,
    nodes2: Seq<Node>,
    pending2: Option<PendingNode>,
    r: Option<AppliedPending>,
)
    requires
        crate::bucket::apply_pending_step(nodes, pending, capacity, now, nodes2, pending2, r),
    ensures
        forall|w: int|
            0 <= w < nodes2.len() ==> nodes.contains(#[trigger] nodes2[w]) || (pending is Some
                && nodes2[w] == pending->0.node),
{
    assert forall|w: int| 0 <= w < nodes2.len() implies nodes.contains(#[trigger] nodes2[w]) || (
    pending is Some && nodes2[w] == pending->0.node) by {
        if pending is Some && pending->0.deadline <= now {
            let p = pending->0;
            if nodes.len() < capacity {
                if w < nodes.len() {
                    assert(nodes2[w] == nodes[w]);
                }
            } else if !crate::bucket::all_connected(nodes) {
                let i = choose|i: int|
                    #![trigger nodes[i]]
                    crate::bucket::first_disconnected(nodes, i)
                        && nodes2 == nodes.remove(i).push(p.node);
                if w < nodes.len() - 1 {
                    let w2 = if w < i { w } else { w + 1 };
                    assert(nodes2[w] == nodes[w2]);
                }
            } else {
                assert(nodes2[w] == nodes[w]);
            }
        } else {
            assert(nodes2[w] == nodes[w]);
        }
    }
}

/// After an insert step, each node of the bucket is the offered node or a
/// node that the bucket held before.
pub proof fn lemma_step_members(
    nodes: Seq<Node>,
    pending: Option<PendingNode>,
    node: Node,
    now: u64,
    timeout: u64,
    nodes2: Seq<Node>,
    pending2: Option<PendingNode>,
    capacity: nat,
    r: InsertResult,
)
    requires
        insert_step(nodes, pending, capacity, node, now, timeout, nodes2, pending2, r),
    ensures
        forall|w: int| 0 <= w < nodes2.len() ==> (#[trigger] nodes2[w]) == node
            || nodes.contains(nodes2[w]),
{
    assert forall|w: int| 0 <= w < nodes2.len() implies (#[trigger] nodes2[w]) == node
        || nodes.contains(nodes2[w]) by {
        match r {
            InsertResult::Inserted => {
                if w < nodes.len() {
                    assert(nodes2[w] == nodes[w]);
                }
            },
            InsertResult::Replaced(_) => {
                let i = choose|i: int|
                    #![trigger nodes[i]]
                    crate::bucket::first_disconnected(nodes, i)
                        && nodes2 == nodes.remove(i).push(node);
                if w < nodes.len() - 1 {
                    let w2 = if w < i { w } else { w + 1 };
                    assert(nodes2[w] == nodes[w2]);
                }
            },
            _ => {
                assert(nodes2[w] == nodes[w]);
            },
        }
    }
}

/// A lookup of the peers closest to a key that the table holds finds that key
/// first: it is at distance zero from itself.
pub proof fn lemma_lookup_finds_key<T>(r: Seq<Entry<T>>, all: Set<Key>, key: Key, limit: nat)
    requires
        is_closest(r, all, key, limit),
        all.contains(key),
        limit >= 1,
    ensures
        r.len() >= 1,
        r[0].peer.key == key,
{
    lemma_distance_self(key);
    if !has_key(r, key) {
        assert(distance(r[0].peer.key, key) < distance(key, key));
    }
    let w = choose|w: int| 0 <= w < r.len() && (#[trigger] r[w]).peer.key == key;
    if w > 0 {
        assert(distance(r[0].peer.key, key) < distance(r[w].peer.key, key));
    }
}

/// A peer that entered the table is found by the next lookup of the peers
/// closest to its own key, whatever the number of peers asked for.
pub proof fn lemma_inserted_is_found<T>(
    keys_before: Set<Key>,
    key: Key,
    r: InsertResult,
    found: Seq<Entry<T>>,
    limit: nat,
)
    requires
        r is Inserted || r is Replaced,
        is_closest(found, keys_after_insert(keys_before, key, r), key, limit),
        limit >= 1,
    ensures
        has_key(found, key),
        found[0].peer.key == key,
{
    lemma_lookup_finds_key(found, keys_after_insert(keys_before, key, r), key, limit);
}

} // verus!
