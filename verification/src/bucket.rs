//! A k-bucket: the peers of a routing table whose distance from the local key
//! has the same highest bit.
//!
//! A bucket keeps at most `capacity` nodes in the order in which they were
//! last seen, the one seen longest ago first. When it is full, a new node
//! replaces the disconnected node that was seen longest ago. When every node
//! is connected, the new node waits as the pending candidate of the bucket
//! until a deadline, at which it takes the place of a node that has
//! disconnected in the meantime, or is dropped.

use crate::addresses::Addresses;
use crate::candidates::deadline_after;
use crate::key::Key;
use crate::nearest::Peer;
use vstd::prelude::*;

verus! {

/// Whether a connection to a node is open.
#[derive(Clone, Copy, Debug, PartialEq, Eq, Structural)]
pub enum NodeStatus {
    /// A connection to the node is open.
    Connected,
    /// No connection to the node is open.
    Disconnected,
}

/// A peer in a bucket.
#[derive(Debug)]
pub struct Node {
    pub peer: Peer,
    pub addresses: Addresses,
    pub status: NodeStatus,
}

/// The candidate that waits for a place in a full bucket.
#[derive(Debug)]
pub struct PendingNode {
    pub node: Node,
    /// The time at which the candidate is promoted or dropped.
    pub deadline: u64,
}

/// What became of a node that was offered to a bucket or a table.
#[derive(Clone, Copy, Debug, PartialEq, Eq)]
pub enum InsertResult {
    /// The node was added to a bucket that had room.
    Inserted,
    /// The bucket was full; the node took the place of this disconnected peer.
    Replaced(Peer),
    /// The bucket is full of connected nodes; the node waits as the pending
    /// candidate until the given time.
    Pending(u64),
    /// The bucket is full of connected nodes and another candidate is waiting.
    Full,
    /// The bucket holds the key already; nothing changed.
    Present,
    /// The key is the local key, which no bucket holds.
    SelfEntry,
}

/// What became of the pending candidate at its deadline.
#[derive(Clone, Copy, Debug, PartialEq, Eq)]
pub enum AppliedPending {
    /// The candidate entered the bucket, in place of the evicted peer if any.
    Promoted { inserted: Peer, evicted: Option<Peer> },
    /// Every node was still connected; the candidate was dropped.
    Dropped(Peer),
}

/// Position `i` holds the node at `key`.
pub open spec fn node_at(s: Seq<Node>, key: Key, i: int) -> bool {
    0 <= i < s.len() && s[i].peer.key == key
}

/// Some node of `s` is at `key`.
pub open spec fn holds(s: Seq<Node>, key: Key) -> bool {
    exists|i: int| node_at(s, key, i)
}

/// Position `i` holds the disconnected node that was seen longest ago.
pub open spec fn first_disconnected(s: Seq<Node>, i: int) -> bool {
    &&& 0 <= i < s.len()
    &&& s[i].status == NodeStatus::Disconnected
    &&& forall|j: int| 0 <= j < i ==> (#[trigger] s[j]).status == NodeStatus::Connected
}

/// Every node is connected.
pub open spec fn all_connected(s: Seq<Node>) -> bool {
    forall|i: int| 0 <= i < s.len() ==> (#[trigger] s[i]).status == NodeStatus::Connected
}

/// No two nodes have the same key.
pub open spec fn distinct_keys(s: Seq<Node>) -> bool {
    forall|i: int, j: int|
        0 <= i < s.len() && 0 <= j < s.len() && i != j ==> (#[trigger] s[i]).peer.key != (
        #[trigger] s[j]).peer.key
}

/// How a bucket changes when `node` is offered to it at time `now`.
pub open spec fn insert_step(
    nodes: Seq<Node>,
    pending: Option<PendingNode>,
    capacity: nat,
    node: Node,
    now: u64,
    timeout: u64,
    nodes2: Seq<Node>,
    pending2: Option<PendingNode>,
    r: InsertResult,
) -> bool {
    if holds(nodes, node.peer.key) {
        r == InsertResult::Present && nodes2 == nodes && pending2 == pending
    } else if pending is Some && pending->0.node.peer.key == node.peer.key {
        r == InsertResult::Pending(pending->0.deadline) && nodes2 == nodes && pending2 == pending
    } else if nodes.len() < capacity {
        r == InsertResult::Inserted && nodes2 == nodes.push(node) && pending2 == pending
    } else if !all_connected(nodes) {
        exists|i: int|
            #![trigger nodes[i]]
            first_disconnected(nodes, i) && r == InsertResult::Replaced(nodes[i].peer) && nodes2
                == nodes.remove(i).push(node) && pending2 == pending
    } else if pending is None {
        r == InsertResult::Pending(deadline_after(now, timeout)) && nodes2 == nodes && pending2
            == Some(PendingNode { node, deadline: deadline_after(now, timeout) })
    } else {
        r == InsertResult::Full && nodes2 == nodes && pending2 == pending
    }
}

/// How a bucket changes when its pending candidate is looked at at time `now`.
pub open spec fn apply_pending_step(
    nodes: Seq<Node>,
    pending: Option<PendingNode>,
    capacity: nat,
    now: u64,
    nodes2: Seq<Node>,
    pending2: Option<PendingNode>,
    r: Option<AppliedPending>,
) -> bool {
    match pending {
        None => r is None && nodes2 == nodes && pending2 == pending,
        Some(p) => {
            if p.deadline > now {
                r is None && nodes2 == nodes && pending2 == pending
            } else if nodes.len() < capacity {
                r == Some(AppliedPending::Promoted { inserted: p.node.peer, evicted: None })
                    && nodes2 == nodes.push(p.node) && pending2 is None
            } else if !all_connected(nodes) {
                exists|i: int|
                    #![trigger nodes[i]]
                    first_disconnected(nodes, i) && r == Some(
                        AppliedPending::Promoted {
                            inserted: p.node.peer,
                            evicted: Some(nodes[i].peer),
                        },
                    ) && nodes2 == nodes.remove(i).push(p.node) && pending2 is None
            } else {
                r == Some(AppliedPending::Dropped(p.node.peer))
                    && nodes2 == nodes
                    && pending2 is None
            }
        },
    }
}

/// A bucket of a routing table.
#[derive(Debug)]
pub struct KBucket {
    nodes: Vec<Node>,
    pending: Option<PendingNode>,
    capacity: usize,
}

impl KBucket {
    /// The nodes of the bucket, the one seen longest ago first.
    pub closed spec fn nodes(self) -> Seq<Node> {
        self.nodes@
    }

    /// The candidate that waits for a place, if any.
    pub closed spec fn pending(self) -> Option<PendingNode> {
        self.pending
    }

    /// The largest number of nodes in the bucket.
    pub closed spec fn capacity(self) -> nat {
        self.capacity as nat
    }

    /// The bucket is within its capacity, holds no key twice, and every node
    /// has an address. The pending candidate is no node of the bucket.
    pub open spec fn wf(self) -> bool {
        &&& self.capacity() >= 1
        &&& self.nodes().len() <= self.capacity()
        &&& distinct_keys(self.nodes())
        &&& forall|i: int| 0 <= i < self.nodes().len()
            ==> (#[trigger] self.nodes()[i]).addresses.wf()
        &&& self.pending() is Some ==> {
            &&& !holds(self.nodes(), self.pending()->0.node.peer.key)
            &&& self.pending()->0.node.addresses.wf()
        }
    }

    /// An empty bucket for up to `capacity` nodes.
    pub fn new(capacity: usize) -> (b: KBucket)
        requires
            capacity >= 1,
        ensures
            b.wf(),
            b.nodes() == Seq::<Node>::empty(),
            b.pending() is None,
            b.capacity() == capacity,
    {
        let b = KBucket { nodes: Vec::new(), pending: None, capacity };
        assert(!holds(b.nodes(), arbitrary()));
        b
    }

    /// The number of nodes in the bucket.
    pub fn len(&self) -> (n: usize)
        ensures
            n == self.nodes().len(),
    {
        self.nodes.len()
    }

    /// Whether the bucket holds no node.
    pub fn is_empty(&self) -> (r: bool)
        ensures
            r == (self.nodes().len() == 0),
    {
        self.nodes.len() == 0
    }

    /// The node at position `i`.
    pub fn node(&self, i: usize) -> (n: &Node)
        requires
            i < self.nodes().len(),
        ensures
            *n == self.nodes()[i as int],
    {
        &self.nodes[i]
    }

    /// The position of the node at `key`, if the bucket holds it.
    pub fn position(&self, key: &Key) -> (r: Option<usize>)
        ensures
            r is Some ==> node_at(self.nodes(), *key, r->0 as int),
            r is None ==> !holds(self.nodes(), *key),
    {
        let n = self.nodes.len();
        let mut i: usize = 0;
        while i < n
            invariant
                0 <= i <= n,
                n == self.nodes@.len(),
                forall|j: int| 0 <= j < i ==> !node_at(self.nodes@, *key, j),
            decreases n - i,
        {
            if self.nodes[i].peer.key.same(key) {
                return Some(i);
            }
            i += 1;
        }
        None
    }

    /// The node at `key`, if the bucket holds it.
    pub fn get(&self, key: &Key) -> (r: Option<&Node>)
        ensures
            r is Some ==> exists|i: int| node_at(self.nodes(), *key, i) && *r->0 == self.nodes()[i],
            r is None ==> !holds(self.nodes(), *key),
    {
        match self.position(key) {
            Some(i) => {
                assert(node_at(self.nodes(), *key, i as int));
                Some(&self.nodes[i])
            },
            None => None,
        }
    }

    /// Whether the pending candidate is at `key`.
    pub fn is_pending(&self, key: &Key) -> (r: bool)
        ensures
            r == (self.pending() is Some && self.pending()->0.node.peer.key == *key),
    {
        match &self.pending {
            Some(p) => p.node.peer.key.same(key),
            None => false,
        }
    }

    /// The position of the disconnected node that was seen longest ago.
    fn oldest_disconnected(&self) -> (r: Option<usize>)
        ensures
            r is Some ==> first_disconnected(self.nodes(), r->0 as int),
            r is None ==> all_connected(self.nodes()),
    {
        let n = self.nodes.len();
        let mut i: usize = 0;
        while i < n
            invariant
                0 <= i <= n,
                n == self.nodes@.len(),
                forall|j: int| 0 <= j < i ==> (#[trigger] self.nodes@[j]).status
                    == NodeStatus::Connected,
            decreases n - i,
        {
            if self.nodes[i].status == NodeStatus::Disconnected {
                return Some(i);
            }
            i += 1;
        }
        None
    }

    /// Offers `node` to the bucket at time `now`.
    ///
    /// A key that the bucket holds, or that is waiting, stays as it is. A
    /// bucket with room takes the node as the one seen last. A full bucket
    /// gives the place of its disconnected node seen longest ago to the node.
    /// A bucket full of connected nodes lets the node wait for `timeout`, if
    /// no other candidate is waiting.
    pub fn insert(&mut self, node: Node, now: u64, timeout: u64) -> (r: InsertResult)
        requires
            old(self).wf(),
            node.addresses.wf(),
        ensures
            final(self).wf(),
            final(self).capacity() == old(self).capacity(),
            insert_step(
                old(self).nodes(),
                old(self).pending(),
                old(self).capacity(),
                node,
                now,
                timeout,
                final(self).nodes(),
                final(self).pending(),
                r,
            ),
    {
        let ghost before = self.nodes@;
        let key = node.peer.key;
        if self.position(&key).is_some() {
            return InsertResult::Present;
        }
        match &self.pending {
            Some(p) => {
                if p.node.peer.key.same(&key) {
                    return InsertResult::Pending(p.deadline);
                }
            },
            None => {},
        }
        if self.nodes.len() < self.capacity {
            self.nodes.push(node);
            proof {
                lemma_push_distinct(before, node);
                lemma_push_holds(before, node);
            }
            return InsertResult::Inserted;
        }
        match self.oldest_disconnected() {
            Some(i) => {
                let evicted = self.nodes.remove(i);
                proof {
                    lemma_remove_distinct(before, i as int);
                    lemma_remove_holds(before, i as int);
                    lemma_push_distinct(before.remove(i as int), node);
                    lemma_push_holds(before.remove(i as int), node);
                    assert(!all_connected(before));
                }
                self.nodes.push(node);
                InsertResult::Replaced(evicted.peer)
            },
            None => {
                if self.pending.is_none() {
                    let deadline = if timeout > u64::MAX - now {
                        u64::MAX
                    } else {
                        now + timeout
                    };
                    self.pending = Some(PendingNode { node, deadline });
                    InsertResult::Pending(deadline)
                } else {
                    InsertResult::Full
                }
            },
        }
    }

    /// Looks at the pending candidate at time `now`. Before its deadline
    /// nothing happens. At the deadline the candidate enters the bucket if
    /// there is room or a disconnected node to evict, and is dropped otherwise.
    pub fn apply_pending(&mut self, now: u64) -> (r: Option<AppliedPending>)
        requires
            old(self).wf(),
        ensures
            final(self).wf(),
            final(self).capacity() == old(self).capacity(),
            apply_pending_step(
                old(self).nodes(),
                old(self).pending(),
                old(self).capacity(),
                now,
                final(self).nodes(),
                final(self).pending(),
                r,
            ),
    {
        let ghost before = self.nodes@;
        let due = match &self.pending {
            Some(p) => p.deadline <= now,
            None => false,
        };
        if !due {
            return None;
        }
        let p = match self.pending.take() {
            Some(p) => p,
            None => {
                return None;
            },
        };
        let inserted = p.node.peer;
        if self.nodes.len() < self.capacity {
            self.nodes.push(p.node);
            proof {
                lemma_push_distinct(before, p.node);
            }
            return Some(AppliedPending::Promoted { inserted, evicted: None });
        }
        match self.oldest_disconnected() {
            Some(i) => {
                let evicted = self.nodes.remove(i);
                proof {
                    lemma_remove_distinct(before, i as int);
                    lemma_remove_holds(before, i as int);
                    lemma_push_distinct(before.remove(i as int), p.node);
                    assert(!all_connected(before));
                }
                self.nodes.push(p.node);
                Some(AppliedPending::Promoted { inserted, evicted: Some(evicted.peer) })
            },
            None => Some(AppliedPending::Dropped(inserted)),
        }
    }

    /// Takes note that the node at `key` was seen with the given status: the
    /// node becomes the one seen last. The pending candidate at `key` takes
    /// the status where it waits. Returns whether the bucket holds the key.
    pub fn update_status(&mut self, key: &Key, status: NodeStatus) -> (r: bool)
        requires
            old(self).wf(),
        ensures
            final(self).wf(),
            final(self).capacity() == old(self).capacity(),
            r == holds(old(self).nodes(), *key),
            r ==> final(self).pending() == old(self).pending() && exists|i: int|
                node_at(old(self).nodes(), *key, i)
                    && final(self).nodes() == old(self).nodes().remove(i).push(
                    Node {
                        peer: old(self).nodes()[i].peer,
                        addresses: old(self).nodes()[i].addresses,
                        status,
                    },
                ),
            !r ==> final(self).nodes() == old(self).nodes(),
            !r && !(old(self).pending() is Some && old(self).pending()->0.node.peer.key == *key)
                ==> final(self).pending() == old(self).pending(),
            !r && old(self).pending() is Some && old(self).pending()->0.node.peer.key == *key
                ==> final(self).pending() == Some(
                PendingNode {
                    node: Node {
                        peer: old(self).pending()->0.node.peer,
                        addresses: old(self).pending()->0.node.addresses,
                        status,
                    },
                    deadline: old(self).pending()->0.deadline,
                },
            ),
    {
        let ghost before = self.nodes@;
        match self.position(key) {
            Some(i) => {
                let node = self.nodes.remove(i);
                let moved = Node { peer: node.peer, addresses: node.addresses, status };
                proof {
                    assert(node_at(before, *key, i as int));
                    lemma_remove_distinct(before, i as int);
                    lemma_remove_holds(before, i as int);
                    lemma_push_distinct(before.remove(i as int), moved);
                    lemma_push_holds(before.remove(i as int), moved);
                    lemma_remove_push_holds(before, i as int, moved);
                }
                self.nodes.push(moved);
                true
            },
            None => {
                if self.is_pending(key) {
                    match self.pending.take() {
                        Some(p) => {
                            let node = Node {
                                peer: p.node.peer,
                                addresses: p.node.addresses,
                                status,
                            };
                            self.pending = Some(PendingNode { node, deadline: p.deadline });
                        },
                        None => {},
                    }
                }
                false
            },
        }
    }

    /// Takes the node at `key` out of the bucket.
    pub fn remove(&mut self, key: &Key) -> (r: Option<Node>)
        requires
            old(self).wf(),
        ensures
            final(self).wf(),
            final(self).capacity() == old(self).capacity(),
            final(self).pending() == old(self).pending(),
            r is Some <==> holds(old(self).nodes(), *key),
            r is None ==> final(self).nodes() == old(self).nodes(),
            r is Some ==> exists|i: int|
                node_at(old(self).nodes(), *key, i)
                    && r->0 == old(self).nodes()[i]
                    && final(self).nodes() == old(self).nodes().remove(i),
    {
        let ghost before = self.nodes@;
        match self.position(key) {
            Some(i) => {
                let node = self.nodes.remove(i);
                proof {
                    assert(node_at(before, *key, i as int));
                    lemma_remove_distinct(before, i as int);
                    lemma_remove_holds(before, i as int);
                }
                Some(node)
            },
            None => None,
        }
    }

    /// Gives the node at `key` the list `addresses` in place of its own.
    /// Returns whether the bucket holds the key; if not, nothing changes.
    pub fn set_addresses(&mut self, key: &Key, addresses: Addresses) -> (r: bool)
        requires
            old(self).wf(),
            addresses.wf(),
        ensures
            final(self).wf(),
            final(self).capacity() == old(self).capacity(),
            final(self).pending() == old(self).pending(),
            r == holds(old(self).nodes(), *key),
            !r ==> final(self).nodes() == old(self).nodes(),
            r ==> exists|i: int|
                node_at(old(self).nodes(), *key, i)
                    && final(self).nodes() == old(self).nodes().update(
                    i,
                    Node {
                        peer: old(self).nodes()[i].peer,
                        addresses,
                        status: old(self).nodes()[i].status,
                    },
                ),
    {
        let ghost before = self.nodes@;
        match self.position(key) {
            Some(i) => {
                let peer = self.nodes[i].peer;
                let status = self.nodes[i].status;
                let node = Node { peer, addresses, status };
                proof {
                    assert(node_at(before, *key, i as int));
                    lemma_update_distinct(before, i as int, node);
                }
                self.nodes.set(i, node);
                true
            },
            None => false,
        }
    }
}

/// A list of distinct keys with a node at a new key has distinct keys.
pub proof fn lemma_push_distinct(s: Seq<Node>, node: Node)
    requires
        distinct_keys(s),
        !holds(s, node.peer.key),
    ensures
        distinct_keys(s.push(node)),
{
    let t = s.push(node);
    assert forall|i: int, j: int| 0 <= i < t.len() && 0 <= j < t.len() && i != j implies (
    #[trigger] t[i]).peer.key != (#[trigger] t[j]).peer.key by {
        if i < s.len() && j < s.len() {
            assert(t[i] == s[i] && t[j] == s[j]);
        } else if i < s.len() {
            assert(t[i] == s[i]);
            assert(!node_at(s, node.peer.key, i));
        } else {
            assert(t[j] == s[j]);
            assert(!node_at(s, node.peer.key, j));
        }
    }
}

/// The keys of a list with one more node are the keys of the list and the
/// key of that node.
pub proof fn lemma_push_holds(s: Seq<Node>, node: Node)
    ensures
        forall|k: Key| holds(s.push(node), k) <==> (holds(s, k) || k == node.peer.key),
{
    let t = s.push(node);
    assert forall|k: Key| holds(t, k) <==> (holds(s, k) || k == node.peer.key) by {
        if holds(t, k) {
            let i = choose|i: int| node_at(t, k, i);
            if i < s.len() {
                assert(node_at(s, k, i));
            }
        }
        if holds(s, k) {
            let i = choose|i: int| node_at(s, k, i);
            assert(node_at(t, k, i));
        }
        if k == node.peer.key {
            assert(node_at(t, k, s.len() as int));
        }
    }
}

/// A list of distinct keys without one of its nodes has distinct keys.
pub proof fn lemma_remove_distinct(s: Seq<Node>, i: int)
    requires
        distinct_keys(s),
        0 <= i < s.len(),
    ensures
        distinct_keys(s.remove(i)),
{
    let t = s.remove(i);
    assert forall|a: int, b: int| 0 <= a < t.len() && 0 <= b < t.len() && a != b implies (
    #[trigger] t[a]).peer.key != (#[trigger] t[b]).peer.key by {
        let a2 = if a < i { a } else { a + 1 };
        let b2 = if b < i { b } else { b + 1 };
        assert(t[a] == s[a2]);
        assert(t[b] == s[b2]);
    }
}

/// The keys of a list of distinct keys without one of its nodes are the keys
/// of the list but that node's.
pub proof fn lemma_remove_holds(s: Seq<Node>, i: int)
    requires
        distinct_keys(s),
        0 <= i < s.len(),
    ensures
        forall|k: Key| holds(s.remove(i), k) <==> (holds(s, k) && k != s[i].peer.key),
{
    let t = s.remove(i);
    assert forall|k: Key| holds(t, k) <==> (holds(s, k) && k != s[i].peer.key) by {
        if holds(t, k) {
            let a = choose|a: int| node_at(t, k, a);
            let a2 = if a < i { a } else { a + 1 };
            assert(t[a] == s[a2]);
            assert(node_at(s, k, a2));
        }
        if holds(s, k) && k != s[i].peer.key {
            let a = choose|a: int| node_at(s, k, a);
            let a2 = if a < i { a } else { a - 1 };
            assert(t[a2] == s[a]);
            assert(node_at(t, k, a2));
        }
    }
}

/// Moving a node to the end of a list of distinct keys leaves the keys as they are.
pub proof fn lemma_remove_push_holds(s: Seq<Node>, i: int, node: Node)
    requires
        distinct_keys(s),
        0 <= i < s.len(),
        node.peer.key == s[i].peer.key,
    ensures
        forall|k: Key| holds(s.remove(i).push(node), k) <==> holds(s, k),
{
    lemma_remove_holds(s, i);
    lemma_push_holds(s.remove(i), node);
    assert(node_at(s, s[i].peer.key, i));
}

/// Replacing a node by one at the same key keeps the keys distinct and the same.
pub proof fn lemma_update_distinct(s: Seq<Node>, i: int, node: Node)
    requires
        distinct_keys(s),
        0 <= i < s.len(),
        node.peer.key == s[i].peer.key,
    ensures
        distinct_keys(s.update(i, node)),
        forall|k: Key| holds(s.update(i, node), k) <==> holds(s, k),
{
    let t = s.update(i, node);
    assert forall|a: int, b: int| 0 <= a < t.len() && 0 <= b < t.len() && a != b implies (
    #[trigger] t[a]).peer.key != (#[trigger] t[b]).peer.key by {
        assert(t[a].peer.key == s[a].peer.key);
        assert(t[b].peer.key == s[b].peer.key);
    }
    assert forall|k: Key| holds(t, k) <==> holds(s, k) by {
        if holds(t, k) {
            let a = choose|a: int| node_at(t, k, a);
            assert(t[a].peer.key == s[a].peer.key);
            assert(node_at(s, k, a));
        }
        if holds(s, k) {
            let a = choose|a: int| node_at(s, k, a);
            assert(t[a].peer.key == s[a].peer.key);
            assert(node_at(t, k, a));
        }
    }
}

} // verus!
