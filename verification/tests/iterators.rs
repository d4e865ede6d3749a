use kademlia::candidates::{PeerState, PeersIterState};
use kademlia::closest_peers::{ClosestPeersIter, ClosestPeersIterConfig};
use kademlia::disjoint_peers::ClosestDisjointPeersIter;
use kademlia::fixed_peers::FixedPeersIter;
use kademlia::key::Key;
use kademlia::nearest::{closer, offer, Entry, Offer, Peer};
use kademlia::peer::PeerId;

fn key(last: u8) -> Key {
    let mut bytes = [0u8; 32];
    bytes[31] = last;
    Key::from_bytes(bytes)
}

fn peer(last: u8) -> Peer {
    Peer { id: PeerId::from_bytes(&[last]).unwrap(), key: key(last) }
}

fn config(parallelism: usize, num_results: usize) -> ClosestPeersIterConfig {
    ClosestPeersIterConfig { parallelism, num_results, required: num_results, peer_timeout: 10 }
}

fn keys_of(peers: &[Peer]) -> Vec<u8> {
    peers.iter().map(|p| p.key.bytes[31]).collect()
}

#[test]
fn closer_compares_distances_to_the_target() {
    let target = key(0);
    assert!(closer(&key(1), &key(2), &target));
    assert!(!closer(&key(2), &key(1), &target));
    assert!(!closer(&key(2), &key(2), &target));
    // Around another target the order changes: 6 ^ 7 = 1, 6 ^ 1 = 7.
    assert!(closer(&key(7), &key(1), &key(6)));
}

#[test]
fn offer_keeps_the_list_sorted_and_bounded() {
    let target = key(0);
    let mut list: Vec<Entry<u8>> = Vec::new();
    assert_eq!(offer(&mut list, &target, 3, Entry { peer: peer(5), data: 0 }), Offer::Inserted(0));
    assert_eq!(offer(&mut list, &target, 3, Entry { peer: peer(9), data: 1 }), Offer::Inserted(1));
    assert_eq!(offer(&mut list, &target, 3, Entry { peer: peer(2), data: 2 }), Offer::Inserted(0));
    assert_eq!(list.iter().map(|e| e.peer.key.bytes[31]).collect::<Vec<_>>(), vec![2, 5, 9]);
    // A key that is there stays as it is.
    assert_eq!(offer(&mut list, &target, 3, Entry { peer: peer(5), data: 7 }), Offer::Known(1));
    assert_eq!(list[1].data, 0);
    // A farther key does not enter a full list.
    assert_eq!(offer(&mut list, &target, 3, Entry { peer: peer(12), data: 3 }), Offer::TooFar);
    // A closer key pushes the farthest out.
    assert_eq!(offer(&mut list, &target, 3, Entry { peer: peer(3), data: 4 }), Offer::Inserted(1));
    assert_eq!(list.iter().map(|e| e.peer.key.bytes[31]).collect::<Vec<_>>(), vec![2, 3, 5]);
}

#[test]
fn offer_with_limit_zero_takes_nothing() {
    let mut list: Vec<Entry<()>> = Vec::new();
    assert_eq!(offer(&mut list, &key(0), 0, Entry { peer: peer(1), data: () }), Offer::TooFar);
    assert!(list.is_empty());
}

#[test]
fn closest_iter_hands_out_peers_closest_first() {
    let known = vec![peer(8), peer(1), peer(4), peer(2)];
    let mut it = ClosestPeersIter::with_config(config(2, 3), key(0), &known);
    assert_eq!(it.next(100), PeersIterState::Waiting(Some(peer(1))));
    assert_eq!(it.next(100), PeersIterState::Waiting(Some(peer(2))));
    // Two requests are in flight: the iterator is at capacity.
    assert_eq!(it.next(100), PeersIterState::WaitingAtCapacity);
    assert!(it.on_success(&key(1), &vec![]));
    assert_eq!(it.next(101), PeersIterState::Waiting(Some(peer(4))));
    assert!(it.on_success(&key(2), &vec![]));
    // Peer 8 is not among the three closest and is never contacted.
    assert_eq!(it.next(102), PeersIterState::Waiting(None));
    assert!(it.on_success(&key(4), &vec![]));
    assert_eq!(it.next(103), PeersIterState::Finished);
    assert!(it.is_finished());
    assert_eq!(keys_of(&it.into_result()), vec![1, 2, 4]);
}

#[test]
fn closest_iter_takes_up_reported_peers() {
    let known = vec![peer(8)];
    let mut it = ClosestPeersIter::with_config(config(3, 2), key(0), &known);
    assert_eq!(it.next(0), PeersIterState::Waiting(Some(peer(8))));
    assert!(it.on_success(&key(8), &vec![peer(3), peer(5), peer(8), peer(3)]));
    // The two closest known are 3 and 5 now; 8 has left the list.
    assert_eq!(it.next(1), PeersIterState::Waiting(Some(peer(3))));
    assert_eq!(it.next(1), PeersIterState::Waiting(Some(peer(5))));
    assert!(it.on_success(&key(5), &vec![peer(1)]));
    assert!(it.on_success(&key(3), &vec![]));
    // Peer 1 is closer than both and takes the place of 5.
    assert_eq!(it.next(2), PeersIterState::Waiting(Some(peer(1))));
    assert!(it.on_success(&key(1), &vec![]));
    assert_eq!(it.next(3), PeersIterState::Finished);
    assert_eq!(keys_of(&it.into_result()), vec![1, 3]);
}

#[test]
fn closest_iter_ignores_results_it_does_not_wait_for() {
    let known = vec![peer(1), peer(2)];
    let mut it = ClosestPeersIter::with_config(config(1, 2), key(0), &known);
    // Not contacted yet.
    assert!(!it.on_success(&key(1), &vec![peer(3)]));
    assert!(!it.on_failure(&key(1)));
    // Unknown peer.
    assert!(!it.on_success(&key(9), &vec![]));
    assert_eq!(it.next(0), PeersIterState::Waiting(Some(peer(1))));
    assert!(it.on_failure(&key(1)));
    // A second result for the same request is not expected.
    assert!(!it.on_success(&key(1), &vec![]));
    assert!(!it.on_failure(&key(1)));
    assert_eq!(it.next(0), PeersIterState::Waiting(Some(peer(2))));
    assert!(it.on_success(&key(2), &vec![]));
    assert_eq!(it.next(0), PeersIterState::Finished);
    // Nothing is taken once the iterator is done.
    assert!(!it.on_success(&key(2), &vec![]));
    assert_eq!(keys_of(&it.into_result()), vec![2]);
}

#[test]
fn closest_iter_fails_requests_at_their_deadline() {
    let known = vec![peer(1), peer(2)];
    let mut it = ClosestPeersIter::with_config(config(1, 2), key(0), &known);
    assert_eq!(it.next(100), PeersIterState::Waiting(Some(peer(1))));
    // One second before the deadline the request is in flight.
    assert_eq!(it.next(109), PeersIterState::WaitingAtCapacity);
    // At the deadline it has failed and the next peer is handed out.
    assert_eq!(it.next(110), PeersIterState::Waiting(Some(peer(2))));
    // The late answer is not taken.
    assert!(!it.on_success(&key(1), &vec![]));
    assert_eq!(it.next(120), PeersIterState::Finished);
    assert!(it.into_result().is_empty());
}

#[test]
fn closest_iter_deadline_saturates() {
    let known = vec![peer(1)];
    let cfg = ClosestPeersIterConfig {
        parallelism: 1,
        num_results: 1,
        required: 1,
        peer_timeout: u64::MAX,
    };
    let mut it = ClosestPeersIter::with_config(cfg, key(0), &known);
    assert_eq!(it.next(5), PeersIterState::Waiting(Some(peer(1))));
    assert_eq!(it.next(u64::MAX - 1), PeersIterState::WaitingAtCapacity);
    assert_eq!(it.next(u64::MAX), PeersIterState::Finished);
}

#[test]
fn closest_iter_without_peers_is_done_at_once() {
    let mut it = ClosestPeersIter::with_config(config(3, 20), key(0), &vec![]);
    assert_eq!(it.next(0), PeersIterState::Finished);
    assert!(it.into_result().is_empty());
}

#[test]
fn closest_iter_finish_ends_the_iteration() {
    let known = vec![peer(1), peer(2)];
    let mut it = ClosestPeersIter::with_config(config(1, 2), key(0), &known);
    assert_eq!(it.next(0), PeersIterState::Waiting(Some(peer(1))));
    assert!(it.on_success(&key(1), &vec![]));
    it.finish();
    assert!(it.is_finished());
    assert_eq!(it.next(0), PeersIterState::Finished);
    assert_eq!(keys_of(&it.into_result()), vec![1]);
}

#[test]
fn closest_iter_is_content_with_the_required_number() {
    let known = vec![peer(1), peer(2), peer(3)];
    let cfg = ClosestPeersIterConfig { parallelism: 1, num_results: 3, required: 1, peer_timeout: 10 };
    let mut it = ClosestPeersIter::with_config(cfg, key(0), &known);
    assert_eq!(it.next(0), PeersIterState::Waiting(Some(peer(1))));
    assert!(it.on_success(&key(1), &vec![]));
    assert_eq!(it.next(0), PeersIterState::Finished);
}

#[test]
fn closest_iter_add_peer_offers_a_candidate() {
    let mut it = ClosestPeersIter::with_config(config(1, 2), key(0), &vec![peer(4)]);
    assert_eq!(it.add_peer(peer(2)), Offer::Inserted(0));
    assert_eq!(it.add_peer(peer(4)), Offer::Known(1));
    assert_eq!(it.add_peer(peer(9)), Offer::TooFar);
    assert_eq!(it.next(0), PeersIterState::Waiting(Some(peer(2))));
    assert!(it.on_answer(&key(2)));
    assert_eq!(it.config(), config(1, 2));
    assert_eq!(it.target(), key(0));
}

#[test]
fn fixed_iter_contacts_each_peer_once_in_order() {
    let peers = vec![peer(5), peer(1), peer(5), peer(3)];
    let mut it = FixedPeersIter::with_peers(&peers, 2, 10);
    assert_eq!(it.next(0), PeersIterState::Waiting(Some(peer(5))));
    assert_eq!(it.next(0), PeersIterState::Waiting(Some(peer(1))));
    assert_eq!(it.next(0), PeersIterState::WaitingAtCapacity);
    assert!(it.on_success(&key(1)));
    assert!(!it.on_success(&key(1)));
    assert_eq!(it.next(0), PeersIterState::Waiting(Some(peer(3))));
    assert_eq!(it.next(0), PeersIterState::WaitingAtCapacity);
    assert!(it.on_failure(&key(5)));
    assert_eq!(it.next(0), PeersIterState::Waiting(None));
    assert!(it.on_success(&key(3)));
    assert_eq!(it.next(0), PeersIterState::Finished);
    assert!(it.is_finished());
    assert_eq!(keys_of(&it.into_result()), vec![1, 3]);
}

#[test]
fn fixed_iter_without_peers_is_done_at_once() {
    let mut it = FixedPeersIter::with_peers(&vec![], 3, 10);
    assert!(!it.is_finished());
    assert_eq!(it.next(0), PeersIterState::Finished);
    assert!(it.is_finished());
}

#[test]
fn fixed_iter_fails_requests_at_their_deadline() {
    let mut it = FixedPeersIter::with_peers(&vec![peer(1)], 1, 10);
    assert_eq!(it.next(50), PeersIterState::Waiting(Some(peer(1))));
    assert_eq!(it.next(59), PeersIterState::WaitingAtCapacity);
    assert_eq!(it.next(60), PeersIterState::Finished);
    assert!(!it.on_success(&key(1)));
    assert!(it.into_result().is_empty());
}

#[test]
fn fixed_iter_finish_ends_the_iteration() {
    let mut it = FixedPeersIter::with_peers(&vec![peer(1), peer(2)], 1, 10);
    assert_eq!(it.next(0), PeersIterState::Waiting(Some(peer(1))));
    it.finish();
    assert_eq!(it.next(0), PeersIterState::Finished);
    assert!(!it.on_success(&key(1)));
}

#[test]
fn disjoint_iter_gives_each_peer_to_one_path() {
    let known = vec![peer(1), peer(2), peer(3), peer(4), peer(2)];
    let mut it = ClosestDisjointPeersIter::with_config(config(1, 3), key(0), &known, 2);
    // Path 0 holds 1 and 3, path 1 holds 2 and 4.
    assert_eq!(it.next(0), PeersIterState::Waiting(Some(peer(1))));
    assert_eq!(it.next(0), PeersIterState::Waiting(Some(peer(2))));
    assert_eq!(it.next(0), PeersIterState::WaitingAtCapacity);
    // The answer of 1 reports 2, which path 1 has, and the new peers 6 and 7.
    assert!(it.on_success(&key(1), &vec![peer(2), peer(6), peer(7)]));
    assert_eq!(it.next(1), PeersIterState::Waiting(Some(peer(3))));
    assert!(it.on_success(&key(2), &vec![]));
    assert_eq!(it.next(1), PeersIterState::Waiting(Some(peer(4))));
    assert!(it.on_success(&key(3), &vec![]));
    assert!(it.on_success(&key(4), &vec![]));
    // The turn was path 0's, since four new peers had been handed out
    // before: 6 went to path 0 and 7 to path 1.
    assert_eq!(it.next(2), PeersIterState::Waiting(Some(peer(6))));
    assert_eq!(it.next(2), PeersIterState::Waiting(Some(peer(7))));
    assert!(!it.is_finished());
    assert!(it.on_failure(&key(7)));
    assert!(it.on_success(&key(6), &vec![]));
    assert_eq!(it.next(3), PeersIterState::Finished);
    assert!(it.is_finished());
    assert_eq!(keys_of(&it.into_result()), vec![1, 2, 3]);
}

#[test]
fn disjoint_iter_is_done_only_when_every_path_is() {
    let known = vec![peer(1), peer(2)];
    let mut it = ClosestDisjointPeersIter::with_config(config(1, 2), key(0), &known, 2);
    assert_eq!(it.next(0), PeersIterState::Waiting(Some(peer(1))));
    assert_eq!(it.next(0), PeersIterState::Waiting(Some(peer(2))));
    assert!(it.on_success(&key(1), &vec![]));
    // Path 0 is done; path 1 still waits.
    assert_eq!(it.next(1), PeersIterState::WaitingAtCapacity);
    assert!(!it.is_finished());
    assert!(it.on_success(&key(2), &vec![]));
    assert_eq!(it.next(2), PeersIterState::Finished);
    assert_eq!(keys_of(&it.into_result()), vec![1, 2]);
}

#[test]
fn disjoint_iter_finish_ends_every_path() {
    let known = vec![peer(1), peer(2)];
    let mut it = ClosestDisjointPeersIter::with_config(config(1, 2), key(0), &known, 2);
    assert_eq!(it.next(0), PeersIterState::Waiting(Some(peer(1))));
    it.finish();
    assert!(it.is_finished());
    assert_eq!(it.next(0), PeersIterState::Finished);
    assert!(!it.on_success(&key(1), &vec![]));
    assert!(!it.on_failure(&key(1)));
}

#[test]
fn peer_state_is_plain_data() {
    assert_ne!(PeerState::Waiting(3), PeerState::Waiting(4));
    assert_eq!(PeerState::NotContacted, PeerState::NotContacted);
}
