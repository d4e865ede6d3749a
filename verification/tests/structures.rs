use kademlia::addresses::Addresses;
use kademlia::bootstrap::BootstrapStatus;
use kademlia::bucket::{AppliedPending, InsertResult, KBucket, Node, NodeStatus};
use kademlia::bytes::{bytes_copy, bytes_eq, list_copy, list_position};
use kademlia::jobs::{AddProviderJob, PutRecordJob};
use kademlia::key::Key;
use kademlia::nearest::Peer;
use kademlia::peer::PeerId;
use kademlia::progress::{bootstrap_advance, get_record_outcome, put_record_outcome};
use kademlia::providers::ProviderStore;
use kademlia::query::{ProgressStep, QueryStats, Quorum};
use kademlia::record::{exp_decrease, ProviderRecord, Record};
use kademlia::random::Generator;
use kademlia::event::{BootstrapOk, GetRecordError, GetRecordOk, PutRecordError, PutRecordOk};
use kademlia::select::{SelectMuxerUpgrade, Selected};
use kademlia::serve::{closer_peers, count_nodes_between, expiry_on_arrival};
use kademlia::store::{MemoryStoreConfig, RecordStore, StoreError};
use kademlia::table::{RoutingTable, RoutingTableConfig};
use kademlia::upgrade::{
    Authenticate, Builder, ConnectionStep, DialUpgradeFuture, ListenerUpgradeFuture, Multiplex,
    Progress, Stage, TransportEvent, TransportUpgradeError, Upgrade, Version, NO_TIMEOUT,
};

fn key(last: u8) -> Key {
    let mut bytes = [0u8; 32];
    bytes[31] = last;
    Key::from_bytes(bytes)
}

fn peer(last: u8) -> Peer {
    Peer { id: PeerId::from_bytes(&[last]).unwrap(), key: key(last) }
}

fn node(last: u8, status: NodeStatus) -> Node {
    Node { peer: peer(last), addresses: Addresses::new(vec![last]), status }
}

fn bucket_keys(bucket: &KBucket) -> Vec<u8> {
    (0..bucket.len()).map(|i| bucket.node(i).peer.key.bytes[31]).collect()
}

#[test]
fn bytes_helpers() {
    assert!(bytes_eq(&[1, 2], &[1, 2]));
    assert!(!bytes_eq(&[1, 2], &[1, 3]));
    assert!(!bytes_eq(&[1, 2], &[1, 2, 3]));
    assert!(bytes_eq(&[], &[]));
    assert_eq!(bytes_copy(&[7, 8, 9]), vec![7, 8, 9]);
    let list = vec![vec![1], vec![2, 2], vec![1]];
    assert_eq!(list_copy(&list), list);
    assert_eq!(list_position(&list, &[1]), Some(0));
    assert_eq!(list_position(&list, &[2, 2]), Some(1));
    assert_eq!(list_position(&list, &[3]), None);
}

#[test]
fn addresses_insert_remove_replace() {
    let mut a = Addresses::new(vec![1]);
    assert_eq!(a.len(), 1);
    assert_eq!(a.first(), &vec![1]);
    assert!(a.insert(vec![2]));
    assert!(!a.insert(vec![1]));
    assert_eq!(a.to_vec(), vec![vec![1], vec![2]]);
    assert!(a.contains(&[2]));
    assert!(!a.contains(&[3]));
    assert!(a.replace(&[1], vec![9]));
    assert!(!a.replace(&[1], vec![8]));
    assert_eq!(a.to_vec(), vec![vec![9], vec![2]]);
    assert_eq!(a.get(1), vec![2]);
    assert_eq!(a.remove(&[9]), Ok(()));
    assert_eq!(a.to_vec(), vec![vec![2]]);
    // Removing what is not there changes nothing.
    assert_eq!(a.remove(&[7]), Ok(()));
    // The last address stays.
    assert_eq!(a.remove(&[2]), Err(()));
    assert_eq!(a.to_vec(), vec![vec![2]]);
    assert_eq!(a.duplicate().to_vec(), vec![vec![2]]);
}

#[test]
fn bucket_takes_nodes_while_it_has_room() {
    let mut b = KBucket::new(2);
    assert!(b.is_empty());
    assert_eq!(b.insert(node(1, NodeStatus::Connected), 0, 60), InsertResult::Inserted);
    assert_eq!(b.insert(node(2, NodeStatus::Disconnected), 0, 60), InsertResult::Inserted);
    assert_eq!(b.insert(node(1, NodeStatus::Disconnected), 0, 60), InsertResult::Present);
    assert_eq!(bucket_keys(&b), vec![1, 2]);
    assert_eq!(b.position(&key(2)), Some(1));
    assert_eq!(b.position(&key(3)), None);
    assert_eq!(b.get(&key(1)).unwrap().status, NodeStatus::Connected);
    assert!(b.get(&key(3)).is_none());
}

#[test]
fn full_bucket_replaces_its_oldest_disconnected_node() {
    let mut b = KBucket::new(3);
    b.insert(node(1, NodeStatus::Connected), 0, 60);
    b.insert(node(2, NodeStatus::Disconnected), 0, 60);
    b.insert(node(3, NodeStatus::Disconnected), 0, 60);
    assert_eq!(b.insert(node(4, NodeStatus::Connected), 0, 60), InsertResult::Replaced(peer(2)));
    assert_eq!(bucket_keys(&b), vec![1, 3, 4]);
}

#[test]
fn bucket_full_of_connected_nodes_keeps_one_candidate() {
    let mut b = KBucket::new(2);
    b.insert(node(1, NodeStatus::Connected), 0, 60);
    b.insert(node(2, NodeStatus::Connected), 0, 60);
    assert_eq!(b.insert(node(3, NodeStatus::Connected), 100, 60), InsertResult::Pending(160));
    assert!(b.is_pending(&key(3)));
    // The candidate that waits stays as it is.
    assert_eq!(b.insert(node(3, NodeStatus::Connected), 120, 60), InsertResult::Pending(160));
    // A second candidate is turned away.
    assert_eq!(b.insert(node(4, NodeStatus::Connected), 100, 60), InsertResult::Full);
    assert_eq!(bucket_keys(&b), vec![1, 2]);
    // Before the deadline nothing happens.
    assert_eq!(b.apply_pending(159), None);
    // At the deadline every node is still connected: the candidate is dropped.
    assert_eq!(b.apply_pending(160), Some(AppliedPending::Dropped(peer(3))));
    assert!(!b.is_pending(&key(3)));
    assert_eq!(b.apply_pending(161), None);
    assert_eq!(bucket_keys(&b), vec![1, 2]);
}

#[test]
fn candidate_takes_the_place_of_a_node_that_disconnected() {
    let mut b = KBucket::new(2);
    b.insert(node(1, NodeStatus::Connected), 0, 60);
    b.insert(node(2, NodeStatus::Connected), 0, 60);
    assert_eq!(b.insert(node(3, NodeStatus::Connected), 0, 60), InsertResult::Pending(60));
    // Node 1 disconnects and becomes the node seen last.
    assert!(b.update_status(&key(1), NodeStatus::Disconnected));
    assert_eq!(bucket_keys(&b), vec![2, 1]);
    assert_eq!(
        b.apply_pending(60),
        Some(AppliedPending::Promoted { inserted: peer(3), evicted: Some(peer(1)) })
    );
    assert_eq!(bucket_keys(&b), vec![2, 3]);
}

#[test]
fn candidate_enters_a_bucket_that_got_room() {
    let mut b = KBucket::new(2);
    b.insert(node(1, NodeStatus::Connected), 0, 60);
    b.insert(node(2, NodeStatus::Connected), 0, 60);
    b.insert(node(3, NodeStatus::Connected), 0, u64::MAX);
    assert_eq!(b.remove(&key(1)).map(|n| n.peer), Some(peer(1)));
    assert!(b.remove(&key(1)).is_none());
    // The deadline of the candidate is the end of time.
    assert_eq!(b.apply_pending(u64::MAX - 1), None);
    assert_eq!(
        b.apply_pending(u64::MAX),
        Some(AppliedPending::Promoted { inserted: peer(3), evicted: None })
    );
    assert_eq!(bucket_keys(&b), vec![2, 3]);
}

#[test]
fn bucket_update_status_of_candidate_and_addresses() {
    let mut b = KBucket::new(1);
    b.insert(node(1, NodeStatus::Connected), 0, 60);
    b.insert(node(2, NodeStatus::Connected), 0, 60);
    // The key is not in the bucket; the candidate takes the status.
    assert!(!b.update_status(&key(2), NodeStatus::Disconnected));
    assert!(!b.update_status(&key(9), NodeStatus::Disconnected));
    assert!(b.set_addresses(&key(1), Addresses::new(vec![42])));
    assert!(!b.set_addresses(&key(2), Addresses::new(vec![42])));
    assert_eq!(b.get(&key(1)).unwrap().addresses.to_vec(), vec![vec![42]]);
}

fn table() -> RoutingTable {
    RoutingTable::new(key(0), RoutingTableConfig { bucket_size: 2, pending_timeout: 60 })
}

fn closest_keys(t: &RoutingTable, target: &Key, limit: usize) -> Vec<u8> {
    t.closest(target, limit).iter().map(|e| e.peer.key.bytes[31]).collect()
}

#[test]
fn table_refuses_the_local_key() {
    let mut t = table();
    assert_eq!(t.local(), key(0));
    let local = Peer { id: PeerId::from_bytes(&[0]).unwrap(), key: key(0) };
    assert_eq!(
        t.insert(local, Addresses::new(vec![1]), NodeStatus::Connected, 0),
        InsertResult::SelfEntry
    );
    assert_eq!(t.bucket_index(&key(0)), None);
    assert!(t.closest(&key(0), 10).is_empty());
}

#[test]
fn table_puts_each_peer_into_the_bucket_of_its_distance() {
    let mut t = table();
    for k in [1u8, 2, 3, 4, 8] {
        assert_eq!(
            t.insert(peer(k), Addresses::new(vec![k]), NodeStatus::Disconnected, 0),
            InsertResult::Inserted
        );
    }
    assert_eq!(bucket_keys(t.bucket(0)), vec![1]);
    assert_eq!(bucket_keys(t.bucket(1)), vec![2, 3]);
    assert_eq!(bucket_keys(t.bucket(2)), vec![4]);
    assert_eq!(bucket_keys(t.bucket(3)), vec![8]);
    assert_eq!(t.bucket_index(&key(3)), Some(1));
    // Bucket 2 takes 5; then it is full, and 6 replaces the oldest
    // disconnected node, which is 4.
    assert_eq!(
        t.insert(peer(5), Addresses::new(vec![5]), NodeStatus::Connected, 0),
        InsertResult::Inserted
    );
    assert_eq!(
        t.insert(peer(6), Addresses::new(vec![6]), NodeStatus::Connected, 0),
        InsertResult::Replaced(peer(4))
    );
    assert_eq!(
        t.insert(peer(7), Addresses::new(vec![7]), NodeStatus::Connected, 10),
        InsertResult::Pending(70)
    );
    assert_eq!(
        t.insert(peer(5), Addresses::new(vec![5]), NodeStatus::Connected, 0),
        InsertResult::Present
    );
    assert!(t.get(&key(4)).is_none());
    assert_eq!(t.get(&key(6)).unwrap().peer, peer(6));
}

#[test]
fn table_lookup_gives_the_closest_peers_in_order() {
    let mut t = table();
    for k in [1u8, 2, 3, 4, 8, 9] {
        t.insert(peer(k), Addresses::new(vec![k]), NodeStatus::Disconnected, 0);
    }
    // Around 9: the distances are 8^9=1, 9^9=0, 1^9=8, 2^9=11, 3^9=10, 4^9=13.
    assert_eq!(closest_keys(&t, &key(9), 4), vec![9, 8, 1, 3]);
    assert_eq!(closest_keys(&t, &key(9), 100), vec![9, 8, 1, 3, 2, 4]);
    assert_eq!(closest_keys(&t, &key(9), 0), Vec::<u8>::new());
    // A peer that was inserted is found first by a lookup of its own key.
    for k in [1u8, 2, 3, 4, 8, 9] {
        assert_eq!(closest_keys(&t, &key(k), 1), vec![k]);
    }
}

#[test]
fn table_updates_and_removes_nodes() {
    let mut t = table();
    t.insert(peer(2), Addresses::new(vec![2]), NodeStatus::Disconnected, 0);
    t.insert(peer(3), Addresses::new(vec![3]), NodeStatus::Disconnected, 0);
    assert!(t.update_status(&key(2), NodeStatus::Connected));
    assert!(!t.update_status(&key(5), NodeStatus::Connected));
    assert!(!t.update_status(&key(0), NodeStatus::Connected));
    assert_eq!(bucket_keys(t.bucket(1)), vec![3, 2]);
    assert_eq!(t.get(&key(2)).unwrap().status, NodeStatus::Connected);
    assert!(t.set_addresses(&key(3), Addresses::new(vec![33])));
    assert!(!t.set_addresses(&key(9), Addresses::new(vec![33])));
    assert_eq!(t.get(&key(3)).unwrap().addresses.to_vec(), vec![vec![33]]);
    assert_eq!(t.remove(&key(3)).map(|n| n.peer), Some(peer(3)));
    assert!(t.remove(&key(3)).is_none());
    assert!(t.remove(&key(0)).is_none());
    assert_eq!(closest_keys(&t, &key(0), 10), vec![2]);
}

#[test]
fn table_applies_the_candidates_of_all_buckets() {
    let mut t = table();
    for k in [2u8, 3, 4, 5] {
        t.insert(peer(k), Addresses::new(vec![k]), NodeStatus::Connected, 0);
    }
    assert_eq!(
        t.insert(peer(6), Addresses::new(vec![6]), NodeStatus::Connected, 0),
        InsertResult::Pending(60)
    );
    assert!(t.apply_pending(59).is_empty());
    t.update_status(&key(4), NodeStatus::Disconnected);
    assert_eq!(
        t.apply_pending(60),
        vec![AppliedPending::Promoted { inserted: peer(6), evicted: Some(peer(4)) }]
    );
    assert_eq!(bucket_keys(t.bucket(2)), vec![5, 6]);
}

#[test]
fn closer_peers_leave_out_the_one_that_asks() {
    let mut t = RoutingTable::new(key(0), RoutingTableConfig { bucket_size: 20, pending_timeout: 60 });
    for k in 1u8..=30 {
        t.insert(peer(k), Addresses::new(vec![k, k]), NodeStatus::Connected, 0);
    }
    let found = closer_peers(&t, &key(0), &key(2), 3);
    assert_eq!(found.iter().map(|i| i.peer.key.bytes[31]).collect::<Vec<_>>(), vec![1, 3, 4]);
    assert_eq!(found[1].addresses, vec![vec![3, 3]]);
    // The one that asks is not in the table: the closest are cut at the limit.
    let found = closer_peers(&t, &key(0), &key(99), 3);
    assert_eq!(found.iter().map(|i| i.peer.key.bytes[31]).collect::<Vec<_>>(), vec![1, 2, 3]);
    // Fewer nodes than the limit.
    let found = closer_peers(&t, &key(0), &key(30), 100);
    assert_eq!(found.len(), 29);
    assert!(closer_peers(&t, &key(0), &key(1), 0).is_empty());
}

#[test]
fn count_of_nodes_between_the_local_key_and_a_target() {
    let mut t = RoutingTable::new(key(0), RoutingTableConfig { bucket_size: 20, pending_timeout: 60 });
    for k in [1u8, 2, 4, 5, 6, 7, 12] {
        t.insert(peer(k), Addresses::new(vec![k]), NodeStatus::Connected, 0);
    }
    // The local key is at distance 5 from the target 5; closer are 5 (0),
    // 4 (1), 7 (2), 6 (3) and 1 (4).
    assert_eq!(count_nodes_between(&t, &key(5)), 5);
    assert_eq!(count_nodes_between(&t, &key(0)), 0);
}

#[test]
fn expiry_of_a_record_on_arrival() {
    // No time to live: the record does not expire.
    assert_eq!(expiry_on_arrival(100, None, Some(50), 0), None);
    // The time to live is halved for each node beyond the closest.
    assert_eq!(expiry_on_arrival(100, Some(80), None, 0), Some(180));
    assert_eq!(expiry_on_arrival(100, Some(80), None, 3), Some(110));
    assert_eq!(expiry_on_arrival(100, Some(80), None, 64), Some(100));
    // The earlier expiry holds.
    assert_eq!(expiry_on_arrival(100, Some(80), Some(150), 0), Some(150));
    assert_eq!(expiry_on_arrival(100, Some(80), Some(200), 0), Some(180));
    assert_eq!(expiry_on_arrival(u64::MAX - 1, Some(80), None, 0), Some(u64::MAX));
}

#[test]
fn exp_decrease_halves_and_clamps() {
    assert_eq!(exp_decrease(1024, 0), 1024);
    assert_eq!(exp_decrease(1024, 1), 512);
    assert_eq!(exp_decrease(1024, 10), 1);
    assert_eq!(exp_decrease(1024, 11), 0);
    assert_eq!(exp_decrease(u64::MAX, 63), 1);
    assert_eq!(exp_decrease(u64::MAX, 64), 0);
    assert_eq!(exp_decrease(u64::MAX, u32::MAX), 0);
    assert_eq!(exp_decrease(172_800, 3), 21_600);
}

fn small_store() -> RecordStore {
    RecordStore::new(MemoryStoreConfig {
        max_records: 2,
        max_value_bytes: 4,
        max_providers_per_key: 2,
        max_provided_keys: 2,
    })
}

#[test]
fn store_gives_back_what_was_put() {
    let mut s = small_store();
    let r = Record {
        key: vec![1],
        value: vec![9, 9],
        publisher: Some(PeerId::from_bytes(&[5]).unwrap()),
        expires: Some(77),
    };
    assert_eq!(s.put(r.clone()), Ok(()));
    assert_eq!(s.peek(&[1]), Some(&r));
    assert_eq!(s.len(), 1);
    assert!(s.peek(&[2]).is_none());
    // A second record under the key takes the place of the first.
    let r2 = Record::new(vec![1], vec![7]);
    assert_eq!(s.put(r2.clone()), Ok(()));
    assert_eq!(s.peek(&[1]), Some(&r2));
    assert_eq!(s.len(), 1);
    assert_eq!(s.record(0), &r2);
}

#[test]
fn store_refuses_large_values_and_new_keys_when_full() {
    let mut s = small_store();
    assert_eq!(s.put(Record::new(vec![1], vec![0; 4])), Err(StoreError::ValueTooLarge));
    assert_eq!(s.put(Record::new(vec![1], vec![0; 3])), Ok(()));
    assert_eq!(s.put(Record::new(vec![2], vec![])), Ok(()));
    assert_eq!(s.put(Record::new(vec![3], vec![])), Err(StoreError::MaxRecords));
    // A key that is held is still taken.
    assert_eq!(s.put(Record::new(vec![2], vec![1])), Ok(()));
    // The size is checked first.
    assert_eq!(s.put(Record::new(vec![3], vec![0; 9])), Err(StoreError::ValueTooLarge));
    s.remove(&[1]);
    s.remove(&[1]);
    assert_eq!(s.len(), 1);
    assert_eq!(s.put(Record::new(vec![3], vec![])), Ok(()));
}

#[test]
fn store_removes_expired_records() {
    let mut s = RecordStore::new(MemoryStoreConfig::default());
    for (k, e) in [(1u8, Some(10)), (2, None), (3, Some(20)), (4, Some(10))] {
        let mut r = Record::new(vec![k], vec![k]);
        r.expires = e;
        assert!(!r.is_expired(9));
        s.put(r).unwrap();
    }
    assert_eq!(s.remove_expired(9), 0);
    assert_eq!(s.remove_expired(10), 2);
    assert!(s.peek(&[1]).is_none());
    assert!(s.peek(&[2]).is_some());
    assert!(s.peek(&[3]).is_some());
    assert!(s.peek(&[4]).is_none());
    assert_eq!(s.remove_expired(u64::MAX), 1);
    assert_eq!(s.len(), 1);
}

#[test]
fn default_store_limits() {
    let c = MemoryStoreConfig::default();
    assert_eq!(c.max_records, 1024);
    assert_eq!(c.max_value_bytes, 65 * 1024);
    assert_eq!(c.max_providers_per_key, 20);
    assert_eq!(c.max_provided_keys, 1024);
}

fn provider(key: u8, id: &[u8]) -> ProviderRecord {
    ProviderRecord::new(vec![key], PeerId::from_bytes(id).unwrap(), vec![id.to_vec()])
}

#[test]
fn providers_are_kept_by_distance_from_the_local_key() {
    let local = PeerId::from_bytes(&[0]).unwrap();
    let config = MemoryStoreConfig { max_providers_per_key: 3, ..MemoryStoreConfig::default() };
    let mut s = ProviderStore::new(local.key(), config);
    let ids: Vec<Vec<u8>> = (1u8..=6).map(|i| vec![i]).collect();
    for id in &ids {
        assert_eq!(s.add_provider(provider(7, id)), Ok(()));
    }
    let mut expected = ids.clone();
    expected.sort_by_key(|id| PeerId::from_bytes(id).unwrap().key().distance(&local.key()));
    expected.truncate(3);
    let held: Vec<Vec<u8>> = s.providers(&[7]).iter().map(|r| r.provider.to_bytes()).collect();
    assert_eq!(held, expected);
    assert!(s.providers(&[8]).is_empty());
    assert_eq!(s.num_keys(), 1);
    // The record of a provider that is held is replaced.
    let mut again = provider(7, &expected[0]);
    again.expires = Some(5);
    assert_eq!(s.add_provider(again), Ok(()));
    assert_eq!(s.providers(&[7])[0].expires, Some(5));
    assert_eq!(s.providers(&[7]).len(), 3);
    // Removal.
    let gone = PeerId::from_bytes(&expected[1]).unwrap().key();
    assert_eq!(s.remove_provider(&[7], &gone).map(|r| r.provider.to_bytes()), Some(expected[1].clone()));
    assert!(s.remove_provider(&[7], &gone).is_none());
    assert!(s.remove_provider(&[9], &gone).is_none());
    assert_eq!(s.providers(&[7]).len(), 2);
}

#[test]
fn provider_store_limits_the_number_of_keys() {
    let local = PeerId::from_bytes(&[0]).unwrap();
    let config = MemoryStoreConfig { max_provided_keys: 1, ..MemoryStoreConfig::default() };
    let mut s = ProviderStore::new(local.key(), config);
    assert_eq!(s.add_provider(provider(1, &[1])), Ok(()));
    assert_eq!(s.add_provider(provider(2, &[1])), Err(StoreError::MaxProvidedKeys));
    assert_eq!(s.add_provider(provider(1, &[2])), Ok(()));
    // When the last provider of a key is gone, the key is free again.
    let k1 = PeerId::from_bytes(&[1]).unwrap().key();
    let k2 = PeerId::from_bytes(&[2]).unwrap().key();
    s.remove_provider(&[1], &k1);
    s.remove_provider(&[1], &k2);
    assert_eq!(s.num_keys(), 0);
    assert_eq!(s.add_provider(provider(2, &[1])), Ok(()));
}

#[test]
fn provided_lists_the_records_of_the_local_peer() {
    let local = PeerId::from_bytes(&[0]).unwrap();
    let mut s = ProviderStore::new(local.key(), MemoryStoreConfig::default());
    s.add_provider(provider(1, &[0])).unwrap();
    s.add_provider(provider(1, &[5])).unwrap();
    s.add_provider(provider(2, &[6])).unwrap();
    s.add_provider(provider(3, &[0])).unwrap();
    let keys: Vec<Vec<u8>> = s.provided().into_iter().map(|r| r.key).collect();
    assert_eq!(keys, vec![vec![1], vec![3]]);
    assert_eq!(s.local(), local.key());
}

#[test]
fn progress_steps_count_up() {
    let first = ProgressStep::first();
    assert_eq!(first, ProgressStep { count: 1, last: false });
    assert_eq!(ProgressStep::first_and_last(), ProgressStep { count: 1, last: true });
    let second = first.next();
    assert_eq!(second, ProgressStep { count: 2, last: false });
    assert_eq!(second.terminal(), ProgressStep { count: 2, last: true });
    assert_eq!(second.terminal().next(), ProgressStep { count: 3, last: false });
    let top = ProgressStep { count: usize::MAX, last: false };
    assert_eq!(top.next().count, usize::MAX);
}

#[test]
fn query_stats_count_and_merge() {
    let mut s = QueryStats::empty();
    assert_eq!(s.num_requests(), 0);
    assert_eq!(s.duration(), None);
    s.on_request();
    s.on_request();
    s.on_request();
    s.on_success();
    s.on_failure();
    assert_eq!((s.num_requests(), s.num_successes(), s.num_failures()), (3, 1, 1));
    assert_eq!(s.num_pending(), 1);
    s.start = Some(10);
    assert_eq!(s.duration(), None);
    s.end = Some(25);
    assert_eq!(s.duration(), Some(15));
    let other = QueryStats { requests: 2, success: 2, failure: 0, start: Some(5), end: Some(20) };
    let m = s.merge(other);
    assert_eq!((m.requests, m.success, m.failure), (5, 3, 1));
    assert_eq!((m.start, m.end), (Some(5), Some(25)));
    let half = QueryStats { start: None, end: None, ..other };
    assert_eq!((s.merge(half).start, half.merge(s).end), (Some(10), Some(25)));
    // Counts stop at the largest that fits.
    let full = QueryStats { requests: u32::MAX, success: u32::MAX, failure: 1, start: None, end: None };
    assert_eq!(full.merge(full).requests, u32::MAX);
    assert_eq!(full.num_pending(), 0);
    let mut f = full;
    f.on_request();
    assert_eq!(f.requests, u32::MAX);
    let odd = QueryStats { requests: 1, success: 2, failure: 2, start: Some(9), end: Some(3) };
    assert_eq!(odd.num_pending(), 0);
    assert_eq!(odd.duration(), Some(0));
}

#[test]
fn quorum_evaluation() {
    assert_eq!(Quorum::One.eval(20), 1);
    assert_eq!(Quorum::Majority.eval(20), 11);
    assert_eq!(Quorum::Majority.eval(1), 1);
    assert_eq!(Quorum::Majority.eval(5), 3);
    assert_eq!(Quorum::All.eval(20), 20);
    assert_eq!(Quorum::N(4).eval(20), 4);
    assert_eq!(Quorum::N(40).eval(20), 20);
}

#[test]
fn bootstrap_reports_what_remains() {
    let step = ProgressStep { count: 3, last: false };
    let p = bootstrap_advance(peer(1), vec![peer(2), peer(3)], step);
    assert_eq!(p.event, BootstrapOk { peer: peer(1), num_remaining: 2 });
    assert_eq!(p.step, ProgressStep { count: 3, last: false });
    assert_eq!(p.next, Some((peer(2), vec![peer(3)])));
    let p = bootstrap_advance(peer(3), vec![], step);
    assert_eq!(p.event, BootstrapOk { peer: peer(3), num_remaining: 0 });
    assert_eq!(p.step, ProgressStep { count: 3, last: true });
    assert_eq!(p.next, None);
}

#[test]
fn put_record_succeeds_at_the_quorum() {
    assert_eq!(
        put_record_outcome(vec![1], vec![peer(1), peer(2)], 2),
        Ok(PutRecordOk { key: vec![1] })
    );
    assert_eq!(put_record_outcome(vec![1], vec![], 0), Ok(PutRecordOk { key: vec![1] }));
    assert_eq!(
        put_record_outcome(vec![1], vec![peer(1)], 2),
        Err(PutRecordError::QuorumFailed { key: vec![1], success: vec![peer(1)], quorum: 2 })
    );
}

#[test]
fn get_record_outcomes() {
    assert_eq!(
        get_record_outcome(vec![1], 0, 1, vec![peer(1)]),
        Err(GetRecordError::NotFound { key: vec![1], closest_peers: vec![peer(1)] })
    );
    assert_eq!(
        get_record_outcome(vec![1], 2, 3, vec![peer(1)]),
        Err(GetRecordError::QuorumFailed { key: vec![1], found: 2, quorum: 3 })
    );
    assert_eq!(
        get_record_outcome(vec![1], 3, 3, vec![peer(1)]),
        Ok(GetRecordOk::FinishedWithNoAdditionalRecord { cache_candidates: vec![peer(1)] })
    );
}

#[test]
fn put_record_job_runs_over_the_store() {
    let local = PeerId::from_bytes(&[0]).unwrap();
    let other = PeerId::from_bytes(&[1]).unwrap();
    let mut store = RecordStore::new(MemoryStoreConfig::default());
    let own = Record { key: vec![1], value: vec![1], publisher: Some(local), expires: None };
    let foreign = Record { key: vec![2], value: vec![2], publisher: Some(other), expires: Some(500) };
    let stale = Record { key: vec![3], value: vec![3], publisher: None, expires: Some(150) };
    let skipped = Record::new(vec![4], vec![4]);
    for r in [&own, &foreign, &stale, &skipped] {
        store.put(r.clone()).unwrap();
    }
    let mut job = PutRecordJob::new(local, 100, Some(1000), Some(50), 0);
    assert!(!job.is_running());
    job.skip(vec![4]);
    // The time of the first run has not come.
    assert_eq!(job.poll(&mut store, 99), None);
    // A run that does not publish leaves the records of the local peer out.
    assert_eq!(job.poll(&mut store, 100), Some(foreign.clone()));
    assert!(job.is_running());
    assert_eq!(job.poll(&mut store, 100), Some(stale.clone()));
    assert_eq!(job.poll(&mut store, 100), None);
    assert!(!job.is_running());
    // The next run is due after the interval. The skipped key is taken again.
    assert_eq!(job.poll(&mut store, 199), None);
    assert_eq!(job.poll(&mut store, 200), Some(foreign.clone()));
    // The stale record has expired by now: it leaves the store.
    assert_eq!(job.poll(&mut store, 200), Some(skipped.clone()));
    assert!(store.peek(&[3]).is_none());
    assert_eq!(job.poll(&mut store, 200), None);
    // A run that publishes takes the record of the local peer and gives it
    // the time to live.
    job.asap(true, 250);
    let published = Record { expires: Some(300), ..own.clone() };
    assert_eq!(job.poll(&mut store, 250), Some(published));
    assert_eq!(job.poll(&mut store, 250), Some(foreign));
    assert_eq!(job.poll(&mut store, 250), Some(skipped));
    assert_eq!(job.poll(&mut store, 250), None);
    // The stored record keeps its lack of an expiry.
    assert_eq!(store.peek(&[1]), Some(&own));
}

#[test]
fn add_provider_job_runs_over_what_is_provided() {
    let local = PeerId::from_bytes(&[0]).unwrap();
    let mut store = ProviderStore::new(local.key(), MemoryStoreConfig::default());
    let mut stale = provider(1, &[0]);
    stale.expires = Some(50);
    store.add_provider(stale).unwrap();
    store.add_provider(provider(2, &[0])).unwrap();
    store.add_provider(provider(3, &[9])).unwrap();
    let mut job = AddProviderJob::new(100, 0);
    assert_eq!(job.poll(&mut store, 99), None);
    assert!(!job.is_running());
    // The expired record is dropped, and the local peer with it.
    assert_eq!(job.poll(&mut store, 100).map(|r| r.key), Some(vec![2]));
    assert!(store.providers(&[1]).is_empty());
    assert_eq!(job.poll(&mut store, 100), None);
    assert_eq!(job.poll(&mut store, 150), None);
    job.asap(150);
    assert_eq!(job.poll(&mut store, 150).map(|r| r.key), Some(vec![2]));
    assert!(job.is_running());
}

#[test]
fn bootstrap_schedule() {
    let mut s = BootstrapStatus::new(Some(300), Some(2), 1000);
    assert_eq!(s.next_periodic, Some(1300));
    assert!(!s.poll(1299));
    assert!(s.poll(1300));
    assert_eq!(s.next_periodic, Some(1600));
    // A new peer lets a bootstrap follow after the throttle time.
    s.on_new_peer(1400);
    assert!(!s.poll(1401));
    s.on_new_peer(1401);
    assert!(!s.poll(1402));
    assert!(s.poll(1403));
    assert!(!s.poll(1404));
    // While a bootstrap is under way none is due.
    s.on_started(1500);
    assert_eq!(s.next_periodic, Some(1800));
    s.on_new_peer(1500);
    assert_eq!(s.throttled, None);
    assert!(!s.poll(5000));
    s.on_finish();
    s.on_finish();
    assert_eq!(s.in_progress, 0);
    assert!(s.poll(5000));
    // Both can be switched off.
    let mut off = BootstrapStatus::new(None, None, 0);
    off.on_new_peer(1);
    assert!(!off.poll(u64::MAX));
}

#[test]
fn selection_tags_and_selects() {
    let s = SelectMuxerUpgrade::new("yamux", 7u8);
    assert_eq!(s.0, "yamux");
    assert_eq!(s.1, 7);
    let info = SelectMuxerUpgrade::<&str, u8>::protocol_info(vec!["/a", "/b"], vec![1u8]);
    assert_eq!(
        info,
        vec![Selected::First("/a"), Selected::First("/b"), Selected::Second(1u8)]
    );
    let none = SelectMuxerUpgrade::<&str, u8>::protocol_info(Vec::<&str>::new(), Vec::<u8>::new());
    assert!(none.is_empty());
    assert_eq!(
        s.clone().upgrade_inbound(Selected::<&str, u8>::First("/a")),
        Selected::First(("yamux", "/a"))
    );
    assert_eq!(
        s.upgrade_outbound(Selected::<&str, u8>::Second(1)),
        Selected::Second((7u8, 1u8))
    );
}

fn remote() -> PeerId {
    PeerId::from_bytes(&[9, 9]).unwrap()
}

#[test]
fn dial_upgrade_future_steps() {
    let mut f = DialUpgradeFuture::new("upgrade");
    assert!(f.is_connecting());
    let pending: Progress<Result<(PeerId, u8), &str>> = Progress::Pending;
    assert!(matches!(f.on_connection::<u8, &str, ()>(pending), ConnectionStep::Pending));
    assert!(f.is_connecting());
    match f.on_connection::<u8, &str, ()>(Progress::Ready(Ok((remote(), 5)))) {
        ConnectionStep::Apply { conn, upgrade, version } => {
            assert_eq!(conn, 5);
            assert_eq!(upgrade, "upgrade");
            assert_eq!(version, Some(Version::V1));
        }
        _ => panic!("the upgrade was to be applied"),
    }
    assert!(!f.is_connecting());
    assert!(matches!(f.stage, Stage::Upgrading(p) if p == remote()));
    let waiting: Progress<Result<(PeerId, u16), TransportUpgradeError<&str, &str>>> =
        f.on_upgrade(Progress::Pending);
    assert!(matches!(waiting, Progress::Pending));
    let failed: Progress<Result<(PeerId, u16), TransportUpgradeError<&str, &str>>> =
        f.on_upgrade(Progress::Ready(Err("refused")));
    assert!(matches!(failed, Progress::Ready(Err(TransportUpgradeError::Upgrade("refused")))));
    let done: Progress<Result<(PeerId, u16), TransportUpgradeError<&str, &str>>> =
        f.on_upgrade(Progress::Ready(Ok(77u16)));
    assert!(matches!(done, Progress::Ready(Ok((p, 77))) if p == remote()));
}

#[test]
fn dial_upgrade_future_fails_with_the_transport() {
    let mut f = DialUpgradeFuture::new(1u8);
    let failed: Progress<Result<(PeerId, u8), &str>> = Progress::Ready(Err("unreachable"));
    assert!(matches!(
        f.on_connection::<u8, &str, ()>(failed),
        ConnectionStep::Failed(TransportUpgradeError::Transport("unreachable"))
    ));
    assert!(f.is_connecting());
}

#[test]
fn listener_upgrade_future_has_no_version_to_choose() {
    let mut f = ListenerUpgradeFuture::new(1u8);
    assert!(f.is_connecting());
    match f.on_connection::<u8, &str, ()>(Progress::Ready(Ok((remote(), 5)))) {
        ConnectionStep::Apply { conn, upgrade, version } => {
            assert_eq!((conn, upgrade, version), (5, 1, None));
        }
        _ => panic!("the upgrade was to be applied"),
    }
    let done: Progress<Result<(PeerId, u16), TransportUpgradeError<&str, &str>>> =
        f.on_upgrade(Progress::Ready(Ok(3u16)));
    assert!(matches!(done, Progress::Ready(Ok((p, 3))) if p == remote()));
}

#[test]
fn multiplex_hands_out_the_peer_once() {
    let mut m = Multiplex { peer_id: Some(remote()), upgrade: 1u8, version: Version::V1 };
    let pending: Progress<Result<u8, &str>> = Progress::Pending;
    assert!(matches!(m.poll(pending), Progress::Pending));
    let failed: Progress<Result<u8, &str>> = Progress::Ready(Err("no"));
    assert!(matches!(m.poll(failed), Progress::Ready(Err("no"))));
    assert_eq!(m.peer_id, Some(remote()));
    let ready: Progress<Result<u8, &str>> = Progress::Ready(Ok(4));
    assert!(matches!(m.poll(ready), Progress::Ready(Ok((p, 4))) if p == remote()));
    assert_eq!(m.peer_id, None);
    let a = Authenticate { upgrade: 1u8, version: Version::V1Lazy };
    let outcome: Progress<Result<(PeerId, u8), &str>> = Progress::Ready(Ok((remote(), 2)));
    assert!(matches!(a.poll(outcome), Progress::Ready(Ok((p, 2))) if p == remote()));
}

#[test]
fn builder_stacks_the_stages() {
    let multiplexed = Builder::new("tcp", Version::V1Lazy)
        .authenticate("noise")
        .apply("ws")
        .multiplex("yamux");
    let and_then = multiplexed.0;
    assert_eq!(and_then.fun.upgrade, "yamux");
    assert_eq!(and_then.fun.version, Version::V1Lazy);
    assert_eq!(and_then.fun.peer_id, None);
    let upgrade = and_then.transport;
    assert_eq!(upgrade.upgrade, "ws");
    assert_eq!(upgrade.inner.transport, "tcp");
    assert_eq!(upgrade.inner.fun.upgrade, "noise");
    assert_eq!(upgrade.inner.fun.version, Version::V1Lazy);
    let ext = Builder::new(1u8, Version::V1).authenticate(2u8).multiplex_ext(3u8);
    assert_eq!(ext.0.fun.upgrade, 3);
    assert_eq!(ext.boxed().transport.transport, 1);
}

#[test]
fn multiplexed_timeouts() {
    let m = Builder::new(1u8, Version::V1).authenticate(2u8).multiplex(3u8);
    let both = m.timeout(20);
    assert_eq!((both.0.outgoing_timeout, both.0.incoming_timeout), (20, 20));
    let out = m.outbound_timeout(5);
    assert_eq!((out.0.outgoing_timeout, out.0.incoming_timeout), (5, NO_TIMEOUT));
    let inc = m.inbound_timeout(6);
    assert_eq!((inc.0.outgoing_timeout, inc.0.incoming_timeout), (NO_TIMEOUT, 6));
    assert_eq!(NO_TIMEOUT, 100 * 365 * 24 * 3600);
}

#[test]
fn upgrade_maps_transport_errors() {
    let u = Upgrade::new("inner", "upgrade");
    let failed: Result<(u8, DialUpgradeFuture<&str>), TransportUpgradeError<&str, &str>> =
        u.dial(Err("refused"));
    assert!(matches!(failed, Err(TransportUpgradeError::Transport("refused"))));
    let dialing: Result<(u8, DialUpgradeFuture<&str>), TransportUpgradeError<&str, &str>> =
        u.dial(Ok(1u8));
    let (future, state) = dialing.ok().unwrap();
    assert_eq!(future, 1);
    // The dial is followed by the upgrade of the transport.
    assert!(matches!(state.stage, Stage::Connecting(Some("upgrade"))));
    let listening: Result<(), TransportUpgradeError<&str, &str>> = u.listen_on(Err("in use"));
    assert!(matches!(listening, Err(TransportUpgradeError::Transport("in use"))));
    let fine: Result<(), TransportUpgradeError<&str, &str>> = u.listen_on(Ok(()));
    assert!(fine.is_ok());
}

type Upgraded = Progress<
    TransportEvent<(u8, ListenerUpgradeFuture<&'static str>), TransportUpgradeError<&'static str, ()>>,
>;

#[test]
fn upgrade_maps_what_the_listener_reports() {
    let u = Upgrade::new("inner", "upgrade");
    let pending: Upgraded = u.poll(Progress::Pending);
    assert!(matches!(pending, Progress::Pending));
    let new: Upgraded = u.poll(Progress::Ready(TransportEvent::NewAddress {
        listener_id: 3,
        listen_addr: vec![1, 2],
    }));
    match new {
        Progress::Ready(TransportEvent::NewAddress { listener_id, listen_addr }) => {
            assert_eq!((listener_id, listen_addr), (3, vec![1, 2]));
        }
        _ => panic!("the event has changed its kind"),
    }
    let expired: Upgraded = u.poll(Progress::Ready(TransportEvent::AddressExpired {
        listener_id: 3,
        listen_addr: vec![1, 2],
    }));
    match expired {
        Progress::Ready(TransportEvent::AddressExpired { listener_id, listen_addr }) => {
            assert_eq!((listener_id, listen_addr), (3, vec![1, 2]));
        }
        _ => panic!("the event has changed its kind"),
    }
    let incoming: Upgraded = u.poll(Progress::Ready(TransportEvent::Incoming {
        listener_id: 4,
        upgrade: 9u8,
        local_addr: vec![1],
        send_back_addr: vec![2],
    }));
    match incoming {
        Progress::Ready(TransportEvent::Incoming {
            listener_id,
            upgrade: (future, following),
            local_addr,
            send_back_addr,
        }) => {
            assert_eq!((listener_id, future), (4, 9));
            assert_eq!((local_addr, send_back_addr), (vec![1], vec![2]));
            // The upgrade waits for the connection, not yet applied.
            assert!(matches!(following.stage, Stage::Connecting(Some("upgrade"))));
        }
        _ => panic!("the event has changed its kind"),
    }
    let closed: Upgraded = u.poll(Progress::Ready(TransportEvent::ListenerClosed {
        listener_id: 5,
        reason: Err("gone"),
    }));
    assert!(matches!(
        closed,
        Progress::Ready(TransportEvent::ListenerClosed {
            listener_id: 5,
            reason: Err(TransportUpgradeError::Transport("gone"))
        })
    ));
    let closed: Upgraded = u.poll(Progress::Ready(TransportEvent::ListenerClosed {
        listener_id: 5,
        reason: Ok(()),
    }));
    assert!(matches!(
        closed,
        Progress::Ready(TransportEvent::ListenerClosed { listener_id: 5, reason: Ok(()) })
    ));
    let error: Upgraded = u.poll(Progress::Ready(TransportEvent::ListenerError {
        listener_id: 6,
        error: "bad",
    }));
    assert!(matches!(
        error,
        Progress::Ready(TransportEvent::ListenerError {
            listener_id: 6,
            error: TransportUpgradeError::Transport("bad")
        })
    ));
}

#[test]
fn transport_upgrade_error_text() {
    let t: TransportUpgradeError<u8, u8> = TransportUpgradeError::Transport(1);
    let u: TransportUpgradeError<u8, u8> = TransportUpgradeError::Upgrade(2);
    assert_eq!(t.message("connection refused"), "Transport error: connection refused");
    assert_eq!(u.message("no protocol"), "Upgrade error: no protocol");
    assert!(t.is_transport());
    assert!(!u.is_transport());
}

#[test]
fn random_key_lies_in_its_bucket() {
    let local = Key::new(b"local");
    for index in [0usize, 1, 7, 8, 9, 100, 254, 255] {
        for _ in 0..20 {
            let k = local.random_in_bucket(index);
            assert_eq!(local.bucket_index(&k), Some(index));
        }
    }
    let zero = Key::from_bytes([0u8; 32]);
    assert_eq!(zero.in_bucket(0, &[0xffu8; 32]).bytes[31], 1);
    assert_eq!(zero.in_bucket(3, &[0xffu8; 32]).bytes[31], 0x0f);
    assert_eq!(zero.in_bucket(3, &[0u8; 32]).bytes[31], 0x08);
    let top = zero.in_bucket(255, &[0u8; 32]);
    assert_eq!(top.bytes[0], 0x80);
    assert!(top.bytes[1..].iter().all(|b| *b == 0));
}

#[test]
fn random_peer_ids_differ() {
    let a = PeerId::random();
    let b = PeerId::random();
    assert_ne!(a, b);
    assert_eq!(a.to_bytes().len(), 32);
    assert!(a.same(&a));
    assert!(!a.same(&b));
}

#[test]
fn generators_of_one_seed_draw_the_same_peers() {
    let mut a = Generator::seeded(42);
    let mut b = Generator::seeded(42);
    let mut c = Generator::seeded(43);
    let drawn: Vec<PeerId> = (0..5).map(|_| a.peer_id()).collect();
    for id in &drawn {
        assert_eq!(id.to_bytes().len(), 32);
        assert_eq!(b.peer_id(), *id);
        assert_ne!(c.peer_id(), *id);
    }
    // A generator goes on to other peers.
    assert_ne!(drawn[0], drawn[1]);
    let mut d = Generator::random();
    assert_ne!(d.peer_id(), d.peer_id());
}

#[test]
fn provider_store_drops_the_expired_providers_of_a_key() {
    let local = PeerId::from_bytes(&[0]).unwrap();
    let mut s = ProviderStore::new(local.key(), MemoryStoreConfig::default());
    for i in 1u8..=5 {
        let mut record = provider(7, &[i]);
        // The providers with an even number expire at 100, the others at 200.
        record.expires = Some(if i % 2 == 0 { 100 } else { 200 });
        assert_eq!(s.add_provider(record), Ok(()));
    }
    let mut lasting = provider(8, &[6]);
    lasting.expires = Some(50);
    assert_eq!(s.add_provider(lasting), Ok(()));
    let order: Vec<Vec<u8>> = s.providers(&[7]).iter().map(|r| r.provider.to_bytes()).collect();
    assert_eq!(s.remove_expired(&[7], 99), 0);
    assert_eq!(s.providers(&[7]).len(), 5);
    // At 100 the two providers with an even number leave; the others stay
    // in their order.
    assert_eq!(s.remove_expired(&[7], 100), 2);
    let held: Vec<Vec<u8>> = s.providers(&[7]).iter().map(|r| r.provider.to_bytes()).collect();
    let expected: Vec<Vec<u8>> = order.into_iter().filter(|id| id[0] % 2 == 1).collect();
    assert_eq!(held, expected);
    // The providers of another key are not looked at.
    assert_eq!(s.providers(&[8]).len(), 1);
    assert_eq!(s.remove_expired(&[9], 1000), 0);
    // When the last provider of a key leaves, the key leaves with it.
    assert_eq!(s.num_keys(), 2);
    assert_eq!(s.remove_expired(&[7], 200), 3);
    assert!(s.providers(&[7]).is_empty());
    assert_eq!(s.num_keys(), 1);
}

#[test]
fn store_gives_no_record_that_has_expired() {
    let mut s = RecordStore::new(MemoryStoreConfig::default());
    let mut short = Record::new(vec![1], vec![10]);
    short.expires = Some(100);
    let lasting = Record::new(vec![2], vec![20]);
    s.put(short.clone()).unwrap();
    s.put(lasting.clone()).unwrap();
    assert_eq!(s.get(&[1], 99), Some(&short));
    // At its time the record has expired: it is held, and not given.
    assert_eq!(s.get(&[1], 100), None);
    assert_eq!(s.peek(&[1]), Some(&short));
    assert_eq!(s.get(&[2], u64::MAX), Some(&lasting));
    assert_eq!(s.get(&[3], 0), None);
}

#[test]
fn a_store_that_allows_no_provider_takes_none() {
    let local = PeerId::from_bytes(&[0]).unwrap();
    let config = MemoryStoreConfig { max_providers_per_key: 0, ..MemoryStoreConfig::default() };
    let mut s = ProviderStore::new(local.key(), config);
    assert_eq!(s.add_provider(provider(7, &[1])), Ok(()));
    assert!(s.providers(&[7]).is_empty());
    assert_eq!(s.num_keys(), 0);
}
