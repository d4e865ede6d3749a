//! Nodes that talk to each other in memory: the behaviour of each is polled
//! in turn, and the requests it hands out are carried to the node of the
//! peer, whose response is carried back at once.

use std::collections::{HashMap, HashSet};
use std::time::Duration;

use kademlia::behaviour::{Behaviour, PutRecordPhase, QueryInfo, ToSwarm};
use kademlia::config::{BucketInserts, Config, StoreInserts, JOBS_MAX_QUERIES, K_VALUE};
use kademlia::event::{
    Event, GetProvidersOk, GetRecordError, GetRecordOk, InboundRequest, PeerRecord, QueryResult,
};
use kademlia::key::{Distance, Key};
use kademlia::nearest::Peer;
use kademlia::peer::PeerId;
use kademlia::query::{ProgressStep, QueryId, Quorum};
use kademlia::record::{exp_decrease, Record};
use kademlia::store::MemoryStoreConfig;
use quickcheck::{quickcheck, Arbitrary, Gen, QuickCheck};
use rand::{rngs::StdRng, thread_rng, Rng, SeedableRng};

/// The time at which the tests run, in seconds.
const NOW: u64 = 1_000;

struct Swarm {
    behaviour: Behaviour,
    address: Vec<u8>,
}

impl Swarm {
    fn local_peer_id(&self) -> PeerId {
        self.behaviour.local_peer().id
    }

    fn behaviour_mut(&mut self) -> &mut Behaviour {
        &mut self.behaviour
    }

    fn behaviour(&self) -> &Behaviour {
        &self.behaviour
    }
}

/// A request that waits until its receiver is polled.
struct Held {
    from: usize,
    to: usize,
    query_id: QueryId,
    request: kademlia::message::Request,
}

/// What polling a swarm once brought.
enum Polled {
    Event(Event),
    Progress,
    Pending,
}

fn build_node() -> Swarm {
    build_node_with_config(Config::new())
}

fn build_node_with_config(cfg: Config) -> Swarm {
    let local_id = PeerId::random();
    let behaviour = Behaviour::new(local_id, cfg, MemoryStoreConfig::default(), NOW);
    let address: Vec<u8> = thread_rng().gen::<u64>().to_be_bytes().to_vec();
    let mut swarm = Swarm { behaviour, address: address.clone() };
    swarm.behaviour.add_external_address(address);
    swarm
}

/// Builds swarms. Does *not* connect the nodes together.
fn build_nodes(num: usize) -> Vec<Swarm> {
    build_nodes_with_config(num, Config::new())
}

/// Builds swarms. Does *not* connect the nodes together.
fn build_nodes_with_config(num: usize, cfg: Config) -> Vec<Swarm> {
    (0..num).map(|_| build_node_with_config(cfg)).collect()
}

fn build_connected_nodes(total: usize, step: usize) -> Vec<Swarm> {
    build_connected_nodes_with_config(total, step, Config::new())
}

fn build_connected_nodes_with_config(total: usize, step: usize, cfg: Config) -> Vec<Swarm> {
    let mut swarms = build_nodes_with_config(total, cfg);
    let swarm_ids: Vec<_> =
        swarms.iter().map(|swarm| (swarm.address.clone(), swarm.local_peer_id())).collect();

    let mut i = 0;
    for (j, (addr, peer_id)) in swarm_ids.iter().enumerate().skip(1) {
        if i < swarm_ids.len() {
            swarms[i].behaviour_mut().add_address(peer_id, addr.clone(), NOW);
        }
        if j % step == 0 {
            i += step;
        }
    }

    swarms
}

fn build_fully_connected_nodes_with_config(total: usize, cfg: Config) -> Vec<Swarm> {
    let mut swarms = build_nodes_with_config(total, cfg);
    let swarm_addr_and_peer_id: Vec<_> =
        swarms.iter().map(|swarm| (swarm.address.clone(), swarm.local_peer_id())).collect();

    for swarm in swarms.iter_mut() {
        for (addr, peer) in &swarm_addr_and_peer_id {
            swarm.behaviour_mut().add_address(peer, addr.clone(), NOW);
        }
    }

    swarms
}

fn random_key() -> Vec<u8> {
    thread_rng().gen::<[u8; 32]>().to_vec()
}

fn index_of(swarms: &[Swarm], key: &Key) -> Option<usize> {
    swarms.iter().position(|s| s.behaviour.local_peer().key == *key)
}

/// Carries a request from swarm `from` to swarm `to` and the response back.
fn deliver(
    swarms: &mut [Swarm],
    from: usize,
    to: usize,
    query_id: QueryId,
    request: kademlia::message::Request,
) {
    let from_peer = swarms[from].behaviour.local_peer();
    let to_peer = swarms[to].behaviour.local_peer();
    let to_address = swarms[to].address.clone();
    // The one that dials learns the address; the one that listens does not.
    swarms[from].behaviour.on_connection_established(&to_peer.id);
    swarms[from].behaviour.on_protocol_confirmed(&to_peer.id, to_address, NOW);
    swarms[to].behaviour.on_connection_established(&from_peer.id);
    swarms[to].behaviour.on_protocol_confirmed_without_address(&from_peer.id);
    match swarms[to].behaviour.on_request(&from_peer, request, NOW) {
        Some(response) => swarms[from].behaviour.on_response(query_id, &to_peer, response),
        None => swarms[from].behaviour.on_request_failed(query_id, &to_peer.key),
    }
}

/// Polls swarm `i` once. Requests to the swarms in `asleep` are held back.
fn poll_swarm(swarms: &mut [Swarm], i: usize, asleep: &[usize], held: &mut Vec<Held>) -> Polled {
    match swarms[i].behaviour.poll(NOW) {
        None => Polled::Pending,
        Some(ToSwarm::GenerateEvent(e)) => Polled::Event(e),
        Some(ToSwarm::SendRequest { peer, query_id, request }) => {
            send(swarms, i, &peer, query_id, request, asleep, held);
            Polled::Progress
        }
        Some(ToSwarm::Dial { peer }) => {
            match index_of(swarms, &peer.key) {
                None => swarms[i].behaviour.on_dial_failure(&peer.id),
                Some(to) => {
                    // The connection is there at once; what has waited for
                    // it is sent.
                    let from_peer = swarms[i].behaviour.local_peer();
                    let released = swarms[i].behaviour.on_connection_established(&peer.id);
                    swarms[to].behaviour.on_connection_established(&from_peer.id);
                    for waiting in released {
                        send(swarms, i, &peer, waiting.query_id, waiting.request, asleep, held);
                    }
                }
            }
            Polled::Progress
        }
    }
}

/// Sends a request of swarm `i` on its way, or tells the swarm that it has
/// failed if the peer is not there.
fn send(
    swarms: &mut [Swarm],
    i: usize,
    peer: &Peer,
    query_id: QueryId,
    request: kademlia::message::Request,
    asleep: &[usize],
    held: &mut Vec<Held>,
) {
    match index_of(swarms, &peer.key) {
        None => swarms[i].behaviour.on_request_failed(query_id, &peer.key),
        Some(to) => {
            if asleep.contains(&to) {
                held.push(Held { from: i, to, query_id, request });
            } else {
                deliver(swarms, i, to, query_id, request);
            }
        }
    }
}

/// Polls all swarms in turn until `on_event` says that the test is over.
/// Panics when nothing moves any more.
fn run(swarms: &mut Vec<Swarm>, mut on_event: impl FnMut(&mut Vec<Swarm>, usize, Event) -> bool) {
    let mut held = Vec::new();
    loop {
        let mut progressed = false;
        for i in 0..swarms.len() {
            loop {
                match poll_swarm(swarms, i, &[], &mut held) {
                    Polled::Event(e) => {
                        progressed = true;
                        if on_event(swarms, i, e) {
                            return;
                        }
                    }
                    Polled::Progress => progressed = true,
                    Polled::Pending => break,
                }
            }
        }
        assert!(progressed, "the network is at rest before the test is over");
    }
}

fn distances(key: &Key, peers: Vec<PeerId>) -> Vec<Distance> {
    peers.into_iter().map(|p| p.key().distance(key)).collect()
}

#[derive(Clone, Debug)]
struct Seed([u8; 32]);

impl Arbitrary for Seed {
    fn arbitrary(g: &mut Gen) -> Seed {
        let seed = core::array::from_fn(|_| u8::arbitrary(g));
        Seed(seed)
    }
}

#[test]
fn bootstrap() {
    fn prop(seed: Seed) {
        let mut rng = StdRng::from_seed(seed.0);

        let num_total = rng.gen_range(2..20);
        // When looking for the closest node to a key, Kademlia considers
        // K_VALUE nodes to query at initialization. If `num_group` is larger
        // than K_VALUE the remaining locally known nodes will not be
        // considered. Given that no other node is aware of them, they would be
        // lost entirely. To prevent the above restrict `num_group` to be equal
        // or smaller than K_VALUE.
        let num_group = rng.gen_range(1..(num_total % K_VALUE) + 2);

        let mut cfg = Config::new();
        // Disabling periodic bootstrap and automatic bootstrap to prevent the bootstrap from
        // triggering automatically.
        cfg.set_periodic_bootstrap_interval(None);
        cfg.set_automatic_bootstrap_throttle(None);
        if rng.gen() {
            cfg.disjoint_query_paths(true);
        }

        let mut swarms = build_connected_nodes_with_config(num_total, num_group, cfg);

        let swarm_ids: Vec<_> = swarms.iter().map(Swarm::local_peer_id).collect();

        let qid = swarms[0].behaviour_mut().bootstrap(NOW).unwrap();

        // Expected known peers
        let expected_known = swarm_ids.iter().skip(1).cloned().collect::<HashSet<_>>();
        let mut first = true;

        // Run test
        run(&mut swarms, |swarms, i, event| match event {
            Event::OutboundQueryProgressed { id, result: QueryResult::Bootstrap(Ok(ok)), .. } => {
                assert_eq!(id, qid);
                assert_eq!(i, 0);
                if first {
                    // Bootstrapping must start with a self-lookup.
                    assert_eq!(ok.peer.id, swarm_ids[0]);
                }
                first = false;
                if ok.num_remaining == 0 {
                    assert_eq!(
                        swarms[i].behaviour().queries().size(),
                        0,
                        "Expect no remaining queries when `num_remaining` is zero.",
                    );
                    let mut known = HashSet::new();
                    let table = swarms[i].behaviour().routing_table();
                    for b in 0..256 {
                        let bucket = table.bucket(b);
                        for e in 0..bucket.len() {
                            known.insert(bucket.node(e).peer.id);
                        }
                    }
                    assert_eq!(expected_known, known);
                    return true;
                }
                false
            }
            // Ignore any other event.
            _ => false,
        });
    }

    QuickCheck::new().tests(10).quickcheck(prop as fn(_) -> _)
}

#[test]
fn query_iter() {
    fn run_once(rng: &mut impl Rng) {
        let num_total = rng.gen_range(2..20);
        let mut config = Config::new();
        // Disabling periodic bootstrap and automatic bootstrap to prevent the bootstrap from
        // triggering automatically.
        config.set_periodic_bootstrap_interval(None);
        config.set_automatic_bootstrap_throttle(None);
        let mut swarms = build_connected_nodes_with_config(num_total, 1, config);
        let swarm_ids: Vec<_> = swarms.iter().map(Swarm::local_peer_id).collect();

        // Ask the first peer in the list to search a random peer. The search should
        // propagate forwards through the list of peers.
        let search_target = PeerId::random();
        let search_target_key = search_target.key();
        let qid = swarms[0].behaviour_mut().get_closest_peers(search_target.to_bytes());

        match swarms[0].behaviour_mut().query(qid) {
            Some(q) => match &q.info {
                QueryInfo::GetClosestPeers { key, step, .. } => {
                    assert_eq!(&key[..], search_target.to_bytes().as_slice());
                    assert_eq!(step.count, 1);
                }
                i => panic!("Unexpected query info: {i:?}"),
            },
            None => panic!("Query not found: {qid:?}"),
        }

        // Set up expectations.
        let expected_swarm_id = swarm_ids[0];
        let expected_peer_ids: Vec<_> = swarm_ids.iter().skip(1).cloned().collect();
        let mut expected_distances = distances(&search_target_key, expected_peer_ids.clone());
        expected_distances.sort();

        // Run test
        run(&mut swarms, |swarms, i, event| match event {
            Event::OutboundQueryProgressed {
                id,
                result: QueryResult::GetClosestPeers(Ok(ok)),
                ..
            } => {
                assert_eq!(id, qid);
                assert_eq!(&ok.key[..], search_target.to_bytes().as_slice());
                assert_eq!(swarm_ids[i], expected_swarm_id);
                assert_eq!(swarms[i].behaviour().queries().size(), 0);
                let peer_ids = ok.peers.into_iter().map(|p| p.id).collect::<Vec<_>>();
                assert!(expected_peer_ids.iter().all(|p| peer_ids.contains(p)));
                let key = Key::new(&ok.key);
                assert_eq!(expected_distances, distances(&key, peer_ids));
                true
            }
            // Ignore any other event.
            _ => false,
        });
    }

    let mut rng = thread_rng();
    for _ in 0..10 {
        run_once(&mut rng)
    }
}

#[test]
fn unresponsive_not_returned_direct() {
    // Build one node. It contains fake addresses to non-existing nodes. We ask it to find a
    // random peer. We make sure that no fake address is returned.

    let mut swarms = build_nodes(1);

    // Add fake addresses.
    for _ in 0..10 {
        swarms[0].behaviour_mut().add_address(&PeerId::random(), vec![10u8, 0], NOW);
    }

    // Ask first to search a random value.
    let search_target = PeerId::random();
    swarms[0].behaviour_mut().get_closest_peers(search_target.to_bytes());

    run(&mut swarms, |_, _, event| match event {
        Event::OutboundQueryProgressed { result: QueryResult::GetClosestPeers(Ok(ok)), .. } => {
            assert_eq!(&ok.key[..], search_target.to_bytes().as_slice());
            assert_eq!(ok.peers.len(), 0);
            true
        }
        // Ignore any other event.
        _ => false,
    });
}

#[test]
fn unresponsive_not_returned_indirect() {
    // Build two nodes. Node #2 knows about node #1. Node #1 contains fake addresses to
    // non-existing nodes. We ask node #2 to find a random peer. We make sure that no fake address
    // is returned.

    let mut swarms = build_nodes(2);

    // Add fake addresses to first.
    for _ in 0..10 {
        swarms[0].behaviour_mut().add_address(&PeerId::random(), vec![10u8, 0], NOW);
    }

    // Connect second to first.
    let first_peer_id = swarms[0].local_peer_id();
    let first_address = swarms[0].address.clone();
    swarms[1].behaviour_mut().add_address(&first_peer_id, first_address, NOW);

    // Ask second to search a random value.
    let search_target = PeerId::random();
    swarms[1].behaviour_mut().get_closest_peers(search_target.to_bytes());

    run(&mut swarms, |_, _, event| match event {
        Event::OutboundQueryProgressed { result: QueryResult::GetClosestPeers(Ok(ok)), .. } => {
            assert_eq!(&ok.key[..], search_target.to_bytes().as_slice());
            assert_eq!(ok.peers.len(), 1);
            assert_eq!(ok.peers[0].id, first_peer_id);
            true
        }
        // Ignore any other event.
        _ => false,
    });
}

// Test the result of get_closest_peers with different num_results
// Note that the result is capped after exceeds K_VALUE
#[test]
fn get_closest_with_different_num_results() {
    let k_value = K_VALUE;
    for replication_factor in [5, k_value / 2, k_value] {
        for num_results in k_value / 2..k_value * 2 {
            get_closest_with_different_num_results_inner(num_results, replication_factor)
        }
    }
}

fn get_closest_with_different_num_results_inner(num_results: usize, replication_factor: usize) {
    let k_value = K_VALUE;
    let num_of_nodes = 3 * k_value;
    let mut cfg = Config::new();
    cfg.set_replication_factor(replication_factor);
    let mut swarms = build_connected_nodes_with_config(num_of_nodes, replication_factor - 1, cfg);

    // Ask first to search a random value.
    let search_target = PeerId::random();
    if num_results == 0 {
        panic!("Unexpected NonZeroUsize val of {num_results}");
    }
    swarms[0].behaviour_mut().get_n_closest_peers(search_target.to_bytes(), num_results);

    run(&mut swarms, |_, _, event| match event {
        Event::OutboundQueryProgressed { result: QueryResult::GetClosestPeers(Ok(ok)), .. } => {
            assert_eq!(&ok.key[..], search_target.to_bytes().as_slice());
            if num_results > k_value {
                assert_eq!(ok.peers.len(), k_value, "Failed with replication_factor: {replication_factor}, num_results: {num_results}");
            } else {
                assert_eq!(ok.peers.len(), num_results, "Failed with replication_factor: {replication_factor}, num_results: {num_results}");
            }
            true
        }
        // Ignore any other event.
        _ => false,
    });
}

#[test]
fn get_record_not_found() {
    let mut swarms = build_nodes(3);

    let swarm_ids: Vec<_> = swarms.iter().map(|swarm| swarm.local_peer_id()).collect();

    let (second, third) = (swarms[1].address.clone(), swarms[2].address.clone());
    swarms[0].behaviour_mut().add_address(&swarm_ids[1], second, NOW);
    swarms[1].behaviour_mut().add_address(&swarm_ids[2], third, NOW);

    let target_key = random_key();
    let qid = swarms[0].behaviour_mut().get_record(target_key.clone(), Quorum::One, NOW);

    run(&mut swarms, |_, _, event| match event {
        Event::OutboundQueryProgressed { id, result: QueryResult::GetRecord(Err(e)), .. } => {
            assert_eq!(id, qid);
            if let GetRecordError::NotFound { key, closest_peers } = e {
                assert_eq!(key, target_key);
                assert_eq!(closest_peers.len(), 2);
                assert!(closest_peers.iter().any(|p| p.id == swarm_ids[1]));
                assert!(closest_peers.iter().any(|p| p.id == swarm_ids[2]));
                true
            } else {
                panic!("Unexpected error result: {e:?}");
            }
        }
        // Ignore any other event.
        _ => false,
    });
}

#[test]
fn get_record() {
    let mut swarms = build_nodes(3);

    // Let first peer know of second peer and second peer know of third peer.
    for i in 0..2 {
        let (peer_id, address) = (swarms[i + 1].local_peer_id(), swarms[i + 1].address.clone());
        swarms[i].behaviour_mut().add_address(&peer_id, address, NOW);
    }

    let record = Record::new(random_key(), vec![4, 5, 6]);

    swarms[2].behaviour_mut().store_put(record.clone()).unwrap();
    let qid = swarms[0].behaviour_mut().get_record(record.key.clone(), Quorum::One, NOW);

    run(&mut swarms, |_, _, event| match event {
        Event::OutboundQueryProgressed {
            id,
            result: QueryResult::GetRecord(Ok(r)),
            step: ProgressStep { count, last },
            ..
        } => {
            assert_eq!(id, qid);
            if count == 1 {
                assert!(!last);
                assert!(matches!(r, GetRecordOk::FoundRecord(_)));
                if let GetRecordOk::FoundRecord(r) = r {
                    assert_eq!(r.record, record);
                }
            } else if last {
                assert_eq!(count, 2);
                assert!(matches!(r, GetRecordOk::FinishedWithNoAdditionalRecord { .. }));
            }
            true
        }
        // Ignore any other event.
        _ => false,
    });
}

#[test]
fn get_record_many() {
    // The sizes are fixed: twelve nodes, ten answers asked for.
    let num_nodes = 12;
    let mut swarms = build_connected_nodes(num_nodes, 3);
    let num_results = 10;

    let record = Record::new(random_key(), vec![4, 5, 6]);

    for swarm in swarms.iter_mut().take(num_nodes) {
        swarm.behaviour_mut().store_put(record.clone()).unwrap();
    }

    let quorum = Quorum::N(num_results);
    let qid = swarms[0].behaviour_mut().get_record(record.key.clone(), quorum, NOW);

    let mut records = Vec::new();
    run(&mut swarms, |_, _, event| match event {
        Event::OutboundQueryProgressed {
            id,
            result: QueryResult::GetRecord(Ok(r)),
            step: ProgressStep { count: _, last },
            ..
        } => {
            assert_eq!(id, qid);
            if let GetRecordOk::FoundRecord(r) = r {
                assert_eq!(r.record, record);
                records.push(r);
            }

            last
        }
        // Ignore any other event.
        _ => false,
    });
    assert_eq!(records.len(), num_results);
}

/// User code should be able to start queries beyond the internal
/// query limit for background jobs.
#[test]
fn exceed_jobs_max_queries() {
    let mut swarm = build_node();
    let num = JOBS_MAX_QUERIES + 1;
    for _ in 0..num {
        swarm.behaviour_mut().get_closest_peers(PeerId::random().to_bytes());
    }

    assert_eq!(swarm.behaviour_mut().queries().size(), num);

    for _ in 0..num {
        // There are no other nodes, so the queries finish instantly.
        loop {
            if let Some(e) = swarm.behaviour_mut().poll(NOW) {
                match e {
                    ToSwarm::GenerateEvent(Event::OutboundQueryProgressed {
                        result: QueryResult::GetClosestPeers(Ok(r)),
                        ..
                    }) => break assert!(r.peers.is_empty()),
                    ToSwarm::GenerateEvent(Event::ModeChanged { .. }) => {}
                    ToSwarm::GenerateEvent(e) => panic!("Unexpected event: {e:?}"),
                    _ => {}
                }
            } else {
                panic!("Expected event")
            }
        }
    }
}

#[test]
fn exp_decr_expiration_overflow() {
    fn prop_no_panic(ttl: Duration, factor: u32) {
        exp_decrease(ttl.as_secs(), factor);
    }

    // Right shifting a u64 by >63 results in a panic.
    prop_no_panic(Duration::from_secs(Config::new().record_ttl.unwrap()), 64);

    quickcheck(prop_no_panic as fn(_, _))
}

#[test]
fn disjoint_query_does_not_finish_before_all_paths_did() {
    let mut config = Config::new();
    config.disjoint_query_paths(true);
    // I.e. setting the amount disjoint paths to be explored to 2.
    config.set_parallelism(2);
    // Disabling periodic bootstrap and automatic bootstrap to prevent the bootstrap from triggering
    // automatically.
    config.set_periodic_bootstrap_interval(None);
    config.set_automatic_bootstrap_throttle(None);

    let alice = build_node_with_config(config);
    let trudy = build_node(); // Trudy the intrudor, an adversary.
    let bob = build_node();

    let key = random_key();
    let record_bob = Record::new(key.clone(), b"bob".to_vec());
    let record_trudy = Record::new(key.clone(), b"trudy".to_vec());

    let mut swarms = vec![alice, trudy, bob];
    let (alice, trudy, bob) = (0usize, 1usize, 2usize);

    // Make `bob` and `trudy` aware of their version of the record searched by
    // `alice`.
    swarms[bob].behaviour_mut().store_put(record_bob.clone()).unwrap();
    swarms[trudy].behaviour_mut().store_put(record_trudy).unwrap();

    // Make `trudy` and `bob` known to `alice`.
    let (trudy_id, trudy_address) = (swarms[trudy].local_peer_id(), swarms[trudy].address.clone());
    let (bob_id, bob_address) = (swarms[bob].local_peer_id(), swarms[bob].address.clone());
    swarms[alice].behaviour_mut().add_address(&trudy_id, trudy_address, NOW);
    swarms[alice].behaviour_mut().add_address(&bob_id, bob_address, NOW);

    // Have `alice` query the Dht for `key`, for the records of both.
    swarms[alice].behaviour_mut().get_record(key, Quorum::N(2), NOW);

    // Poll only `alice` and `trudy` expecting `alice` not yet to return a query
    // result as it is not able to connect to `bob` just yet.
    let mut held = Vec::new();
    loop {
        let mut progressed = false;
        for i in [alice, trudy] {
            loop {
                match poll_swarm(&mut swarms, i, &[bob], &mut held) {
                    Polled::Event(Event::OutboundQueryProgressed {
                        result: QueryResult::GetRecord(result),
                        step,
                        ..
                    }) => {
                        progressed = true;
                        if i != alice {
                            panic!("Expected `QueryResult` from Alice.")
                        }
                        if step.last {
                            panic!(
                                "Expected query not to finish until all \
                                 disjoint paths have been explored.",
                            );
                        }
                        match result {
                            Ok(GetRecordOk::FoundRecord(r)) => {
                                assert_eq!(r.peer.map(|p| p.id), Some(trudy_id));
                            }
                            Ok(_) => {}
                            Err(e) => panic!("{e:?}"),
                        }
                    }
                    // Ignore any other event.
                    Polled::Event(_) | Polled::Progress => progressed = true,
                    Polled::Pending => break,
                }
            }
        }
        // Make sure not to wait until connections to `bob` time out.
        if !progressed {
            break;
        }
    }

    // Make sure `alice` has exactly one query with `trudy`'s record only.
    assert_eq!(1, swarms[alice].behaviour().queries().size());

    match &swarms[alice].behaviour().queries().query(0).info {
        QueryInfo::GetRecord { step, .. } => {
            assert_eq!(step.count, 2);
        }
        i => panic!("Unexpected query info: {i:?}"),
    }

    // Poll `alice` and `bob` expecting `alice` to return a successful query
    // result as it is now able to explore the second disjoint path.
    for h in held.drain(..) {
        deliver(&mut swarms, h.from, h.to, h.query_id, h.request);
    }
    let mut records = Vec::new();
    let mut none_held = Vec::new();
    'outer: loop {
        let mut progressed = false;
        for i in [alice, bob] {
            loop {
                match poll_swarm(&mut swarms, i, &[], &mut none_held) {
                    Polled::Event(Event::OutboundQueryProgressed {
                        result: QueryResult::GetRecord(result),
                        step,
                        ..
                    }) => {
                        progressed = true;
                        if i != alice {
                            panic!("Expected `QueryResult` from Alice.")
                        }
                        match result {
                            Ok(ok) => {
                                if let GetRecordOk::FoundRecord(record) = ok {
                                    records.push(record);
                                }
                                if records.len() == 1 {
                                    break 'outer;
                                }
                                if step.last {
                                    break;
                                }
                            }
                            Err(e) => unreachable!("{:?}", e),
                        }
                    }
                    // Ignore any other event.
                    Polled::Event(_) | Polled::Progress => progressed = true,
                    Polled::Pending => break,
                }
            }
        }
        assert!(progressed, "Expected Kademlia behaviour not to finish.");
    }

    assert_eq!(1, records.len());
    assert!(records.contains(&PeerRecord {
        peer: Some(swarms[bob].behaviour().local_peer()),
        record: record_bob,
    }));
}

/// Tests that peers are not automatically inserted into
/// the routing table with `BucketInserts::Manual`.
#[test]
fn manual_bucket_inserts() {
    let mut cfg = Config::new();
    cfg.set_kbucket_inserts(BucketInserts::Manual);
    // 1 -> 2 -> [3 -> ...]
    let mut swarms = build_connected_nodes_with_config(3, 1, cfg);
    // The peers and their addresses for which we expect `RoutablePeer` events.
    let mut expected = swarms
        .iter()
        .skip(2)
        .map(|s| {
            let pid = s.local_peer_id();
            let addr = s.address.clone();
            (addr, pid)
        })
        .collect::<HashMap<_, _>>();
    // We collect the peers for which a `RoutablePeer` event
    // was received in here to check at the end of the test
    // that none of them was inserted into a bucket.
    let mut routable = Vec::new();
    // Start an iterative query from the first peer.
    swarms[0].behaviour_mut().get_closest_peers(PeerId::random().to_bytes());
    run(&mut swarms, |swarms, i, event| match event {
        Event::RoutablePeer { peer, address } => {
            assert_eq!(peer.id, expected.remove(&address).expect("Missing address"));
            routable.push(peer);
            if expected.is_empty() {
                for peer in routable.iter() {
                    let table = swarms[i].behaviour().routing_table();
                    let index = table.bucket_index(&peer.key).unwrap();
                    let bucket = table.bucket(index);
                    assert!((0..bucket.len()).all(|e| bucket.node(e).peer.id != peer.id));
                }
                return true;
            }
            false
        }
        _ => false,
    });
}

#[test]
fn network_behaviour_on_address_change() {
    let local_peer_id = PeerId::random();

    let remote_peer_id = PeerId::random();
    let old_address: Vec<u8> = vec![1];
    let new_address: Vec<u8> = vec![2];

    let mut kademlia =
        Behaviour::new(local_peer_id, Config::new(), MemoryStoreConfig::default(), NOW);

    // Mimic a connection being established.
    kademlia.on_connection_established(&remote_peer_id);

    // At this point the remote is not yet known to support the
    // configured protocol name, so the peer is not yet in the
    // local routing table and hence no addresses are known.
    assert!(kademlia.addresses_of_peer(&remote_peer_id.key()).is_empty());

    // Mimic the connection handler confirming the protocol for
    // the test connection, so that the peer is added to the routing table.
    kademlia.on_protocol_confirmed(&remote_peer_id, old_address.clone(), NOW);

    assert_eq!(vec![old_address.clone()], kademlia.addresses_of_peer(&remote_peer_id.key()));

    kademlia.on_address_change(&remote_peer_id, &old_address, new_address.clone());

    assert_eq!(vec![new_address], kademlia.addresses_of_peer(&remote_peer_id.key()));
}

/// A key of a record, drawn at random.
#[derive(Clone, Debug)]
struct ArbitraryKey(Vec<u8>);

impl Arbitrary for ArbitraryKey {
    fn arbitrary(g: &mut Gen) -> ArbitraryKey {
        let bytes: [u8; 32] = core::array::from_fn(|_| u8::arbitrary(g));
        ArbitraryKey(bytes.to_vec())
    }
}

#[test]
fn get_providers_single() {
    fn prop(key: ArbitraryKey) {
        let key = key.0;
        let mut single_swarm = build_node();
        single_swarm.behaviour_mut().start_providing(key.clone()).expect("could not provide");

        let mut swarms = vec![single_swarm];
        run(&mut swarms, |_, _, event| match event {
            Event::OutboundQueryProgressed { result: QueryResult::StartProviding(Ok(_)), .. } => {
                true
            }
            Event::ModeChanged { .. } => false,
            e => panic!("Unexpected event: {e:?}"),
        });

        let query_id = swarms[0].behaviour_mut().get_providers(key, NOW);
        let local = swarms[0].local_peer_id();

        run(&mut swarms, |_, _, event| match event {
            Event::OutboundQueryProgressed {
                id,
                result: QueryResult::GetProviders(Ok(ok)),
                step: index,
                ..
            } if id == query_id => {
                if index.last {
                    assert!(matches!(ok, GetProvidersOk::FinishedWithNoAdditionalRecord { .. }));
                    true
                } else {
                    assert!(matches!(ok, GetProvidersOk::FoundProviders { .. }));
                    if let GetProvidersOk::FoundProviders { providers, .. } = ok {
                        assert_eq!(providers.len(), 1);
                        assert!(providers.iter().any(|p| p.id == local));
                    }
                    false
                }
            }
            e => panic!("Unexpected event: {e:?}"),
        });
    }
    QuickCheck::new().tests(10).quickcheck(prop as fn(_))
}

fn get_providers_limit<const N: usize>() {
    fn prop<const N: usize>(key: ArbitraryKey) {
        let key = key.0;
        let mut swarms = build_nodes(3);

        // Let first peer know of second peer and second peer know of third peer.
        for i in 0..2 {
            let (peer_id, address) = (swarms[i + 1].local_peer_id(), swarms[i + 1].address.clone());
            swarms[i].behaviour_mut().add_address(&peer_id, address, NOW);
        }

        // Provide the content on peer 2 and 3.
        for swarm in swarms.iter_mut().take(3).skip(1) {
            swarm.behaviour_mut().start_providing(key.clone()).expect("could not provide");
        }

        // Query with expecting a single provider.
        let query_id = swarms[0].behaviour_mut().get_providers(key.clone(), NOW);

        let mut all_providers: Vec<PeerId> = vec![];

        run(&mut swarms, |swarms, i, event| match event {
            Event::OutboundQueryProgressed {
                id,
                result: QueryResult::GetProviders(Ok(ok)),
                step: index,
                ..
            } if i == 0 && id == query_id => {
                if index.last {
                    assert!(matches!(ok, GetProvidersOk::FinishedWithNoAdditionalRecord { .. }));
                    assert_eq!(all_providers.len(), N);
                    true
                } else {
                    assert!(matches!(ok, GetProvidersOk::FoundProviders { .. }));
                    if let GetProvidersOk::FoundProviders { key: found_key, providers } = ok {
                        // There are a total of 2 providers.
                        assert_eq!(key, found_key);
                        for provider in &providers {
                            // Providers should be either 2 or 3
                            assert_ne!(swarms[i].local_peer_id(), provider.id);
                        }
                        all_providers.extend(providers.iter().map(|p| p.id));

                        // If we have all providers, finish.
                        if all_providers.len() == N {
                            swarms[i].behaviour_mut().finish_query(id);
                        }
                    }
                    true
                }
            }
            _ => false,
        });
    }

    QuickCheck::new().tests(10).quickcheck(prop::<N> as fn(_))
}

#[test]
fn get_providers_limit_n_1() {
    get_providers_limit::<1>();
}

#[test]
fn get_providers_limit_n_2() {
    get_providers_limit::<2>();
}

#[test]
fn get_providers_limit_n_5() {
    get_providers_limit::<5>();
}

// Test that nodes respond with K amount of peers even when replication factor is set lower than K.
#[test]
fn get_closest_peers_should_return_up_to_k_peers() {
    let k_value = K_VALUE;

    // Rplication factor should not influence the amount of peers returned in `GetClosestPeers`.
    for replication_factor in 5..k_value + 1 {
        // Should be enough nodes for every node to have >= K nodes in their RT.
        let num_of_nodes = 3 * k_value;

        let mut cfg = Config::new();
        cfg.set_replication_factor(replication_factor);

        let mut swarms = build_connected_nodes_with_config(num_of_nodes, replication_factor - 1, cfg);

        // Ask first node to search for a random peer.
        let search_target = PeerId::random();
        swarms[0].behaviour_mut().get_closest_peers(search_target.to_bytes());

        run(&mut swarms, |_, _, event| match event {
            Event::OutboundQueryProgressed { result: QueryResult::GetClosestPeers(Ok(ok)), .. } => {
                assert_eq!(&ok.key[..], search_target.to_bytes().as_slice());
                // Verify that we get K_VALUE amount of peers even with lower
                // replication factor.
                assert_eq!(
                    ok.peers.len(),
                    k_value,
                    "Expected K_VALUE ({}) peers but got {}",
                    k_value,
                    ok.peers.len()
                );
                true
            }
            // Ignore any other event.
            _ => false,
        });
    }
}

/// A record drawn at random.
#[derive(Clone, Debug)]
struct ArbitraryRecord(Record);

impl Arbitrary for ArbitraryRecord {
    fn arbitrary(g: &mut Gen) -> ArbitraryRecord {
        let key: [u8; 32] = core::array::from_fn(|_| u8::arbitrary(g));
        ArbitraryRecord(Record {
            key: key.to_vec(),
            value: Vec::arbitrary(g),
            publisher: if bool::arbitrary(g) { Some(PeerId::random()) } else { None },
            expires: if bool::arbitrary(g) { Some(NOW + u64::arbitrary(g) % 60) } else { None },
        })
    }
}

/// Polls all swarms in turn until none has anything to do.
fn run_until_rest(swarms: &mut Vec<Swarm>, mut on_event: impl FnMut(&mut Vec<Swarm>, usize, Event)) {
    let mut held = Vec::new();
    loop {
        let mut progressed = false;
        for i in 0..swarms.len() {
            loop {
                match poll_swarm(swarms, i, &[], &mut held) {
                    Polled::Event(e) => {
                        progressed = true;
                        on_event(swarms, i, e);
                    }
                    Polled::Progress => progressed = true,
                    Polled::Pending => break,
                }
            }
        }
        if !progressed {
            return;
        }
    }
}

/// A node joining a fully connected network via three (ALPHA_VALUE) bootnodes
/// should be able to put a record to the X closest nodes of the network where X
/// is equal to the configured replication factor.
#[test]
fn put_record() {
    fn prop(records: Vec<ArbitraryRecord>, seed: Seed, filter_records: bool, drop_records: bool) {
        let mut rng = StdRng::from_seed(seed.0);
        let replication_factor = rng.gen_range(1..(K_VALUE / 2) + 1);
        // At least 4 nodes, 1 under test + 3 bootnodes.
        let num_total = usize::max(4, replication_factor * 2);

        let mut config = Config::new();
        config.set_replication_factor(replication_factor);
        // Disabling periodic bootstrap and automatic bootstrap to prevent the bootstrap from
        // triggering automatically.
        config.set_periodic_bootstrap_interval(None);
        config.set_automatic_bootstrap_throttle(None);
        if rng.gen() {
            config.disjoint_query_paths(true);
        }

        if filter_records {
            config.set_record_filtering(StoreInserts::FilterBoth);
        }

        let mut swarms = {
            let mut fully_connected_swarms =
                build_fully_connected_nodes_with_config(num_total - 1, config);

            let mut single_swarm = build_node_with_config(config);
            // Connect `single_swarm` to three bootnodes.
            for swarm in fully_connected_swarms.iter().take(3) {
                single_swarm.behaviour_mut().add_address(
                    &swarm.local_peer_id(),
                    swarm.address.clone(),
                    NOW,
                );
            }

            let mut swarms = vec![single_swarm];
            swarms.append(&mut fully_connected_swarms);
            swarms
        };

        let records = records
            .into_iter()
            .take(num_total)
            .map(|r| {
                let mut r = r.0;
                // We don't want records to expire prematurely, as they would
                // be removed from storage and no longer replicated, but we still
                // want to check that an explicitly set expiration is preserved.
                r.expires = r.expires.map(|t| t + 60);
                (r.key.clone(), r)
            })
            .collect::<HashMap<_, _>>();

        // Initiate put_record queries.
        let mut qids = HashSet::new();
        for r in records.values() {
            let qid = swarms[0].behaviour_mut().put_record(r.clone(), Quorum::All, NOW).unwrap();
            match swarms[0].behaviour_mut().query(qid) {
                Some(q) => match &q.info {
                    QueryInfo::PutRecord { phase, record, .. } => {
                        assert_eq!(phase, &PutRecordPhase::GetClosestPeers);
                        assert_eq!(record.key, r.key);
                        assert_eq!(record.value, r.value);
                        assert!(record.expires.is_some());
                        qids.insert(qid);
                    }
                    i => panic!("Unexpected query info: {i:?}"),
                },
                None => panic!("Query not found: {qid:?}"),
            }
        }

        // Each test run republishes all records once.
        let mut republished = false;
        // The accumulated results for one round of publishing.
        let mut results = Vec::new();

        loop {
            // Poll all swarms until they are "Pending".
            run_until_rest(&mut swarms, |swarms, i, event| match event {
                Event::OutboundQueryProgressed {
                    id,
                    result: QueryResult::PutRecord(res),
                    stats,
                    step: index,
                }
                | Event::OutboundQueryProgressed {
                    id,
                    result: QueryResult::RepublishRecord(res),
                    stats,
                    step: index,
                } => {
                    assert!(qids.is_empty() || qids.remove(&id));
                    assert!(stats.duration().is_some());
                    assert!(stats.num_successes() >= replication_factor as u32);
                    assert!(stats.num_requests() >= stats.num_successes());
                    assert_eq!(stats.num_failures(), 0);
                    assert_eq!(index.count, 1);
                    assert!(index.last);
                    match res {
                        Err(e) => panic!("{e:?}"),
                        Ok(ok) => {
                            assert!(records.contains_key(&ok.key));
                            let record = swarms[i].behaviour().store().peek(&ok.key).unwrap();
                            results.push(record.clone());
                        }
                    }
                }
                Event::InboundRequest { request: InboundRequest::PutRecord { record, .. } } => {
                    if !drop_records {
                        if let Some(record) = record {
                            assert_eq!(config.record_filtering, StoreInserts::FilterBoth);
                            // Accept the record
                            swarms[i].behaviour_mut().store_put(record).expect("record is stored");
                        } else {
                            assert_eq!(config.record_filtering, StoreInserts::Unfiltered);
                        }
                    }
                }
                // Ignore any other event.
                _ => (),
            });

            // All swarms are at rest: the results of the round are in.
            assert_eq!(results.len(), records.len());

            // Consume the results, checking that each record was replicated
            // correctly to the closest peers to the key.
            while let Some(r) = results.pop() {
                let expected = records.get(&r.key).unwrap();

                assert_eq!(r.key, expected.key);
                assert_eq!(r.value, expected.value);
                assert_eq!(r.expires, expected.expires);
                assert_eq!(r.publisher, Some(swarms[0].local_peer_id()));

                let key = Key::new(&r.key);
                let mut expected =
                    swarms.iter().skip(1).map(Swarm::local_peer_id).collect::<Vec<_>>();
                expected.sort_by(|id1, id2| {
                    id1.key().distance(&key).cmp(&id2.key().distance(&key))
                });

                let expected =
                    expected.into_iter().take(replication_factor).collect::<HashSet<_>>();

                let actual = swarms
                    .iter()
                    .skip(1)
                    .filter_map(|swarm| {
                        if swarm.behaviour().store().peek(&r.key).is_some() {
                            Some(swarm.local_peer_id())
                        } else {
                            None
                        }
                    })
                    .collect::<HashSet<_>>();

                if config.record_filtering != StoreInserts::Unfiltered && drop_records {
                    assert_eq!(actual.len(), 0);
                } else {
                    assert_eq!(actual.len(), replication_factor);

                    let actual_not_expected = actual.difference(&expected).collect::<Vec<&PeerId>>();
                    assert!(
                        actual_not_expected.is_empty(),
                        "Did not expect records to be stored on nodes {actual_not_expected:?}.",
                    );

                    let expected_not_actual = expected.difference(&actual).collect::<Vec<&PeerId>>();
                    assert!(
                        expected_not_actual.is_empty(),
                        "Expected record to be stored on nodes {expected_not_actual:?}.",
                    );
                }
            }

            if republished {
                assert_eq!(swarms[0].behaviour().store().len(), records.len());
                assert_eq!(swarms[0].behaviour().queries().size(), 0);
                for k in records.keys() {
                    swarms[0].behaviour_mut().remove_record(k);
                }
                assert_eq!(swarms[0].behaviour().store().len(), 0);
                // All records have been republished, thus the test is complete.
                return;
            }

            // Tell the replication job to republish asap.
            swarms[0].behaviour_mut().replicate_asap(true, NOW);
            republished = true;
        }
    }

    QuickCheck::new().tests(4).quickcheck(prop as fn(_, _, _, _) -> _)
}

/// A node joining a fully connected network via three (ALPHA_VALUE) bootnodes
/// should be able to add itself as a provider to the X closest nodes of the
/// network where X is equal to the configured replication factor.
#[test]
fn add_provider() {
    fn prop(keys: Vec<ArbitraryKey>, seed: Seed) {
        let mut rng = StdRng::from_seed(seed.0);
        let replication_factor = rng.gen_range(1..(K_VALUE / 2) + 1);
        // At least 4 nodes, 1 under test + 3 bootnodes.
        let num_total = usize::max(4, replication_factor * 2);

        let mut config = Config::new();
        config.set_replication_factor(replication_factor);
        // Disabling periodic bootstrap and automatic bootstrap to prevent the bootstrap from
        // triggering automatically.
        config.set_periodic_bootstrap_interval(None);
        config.set_automatic_bootstrap_throttle(None);
        if rng.gen() {
            config.disjoint_query_paths(true);
        }

        let mut swarms = {
            let mut fully_connected_swarms =
                build_fully_connected_nodes_with_config(num_total - 1, config);

            let mut single_swarm = build_node_with_config(config);
            // Connect `single_swarm` to three bootnodes.
            for swarm in fully_connected_swarms.iter().take(3) {
                single_swarm.behaviour_mut().add_address(
                    &swarm.local_peer_id(),
                    swarm.address.clone(),
                    NOW,
                );
            }

            let mut swarms = vec![single_swarm];
            swarms.append(&mut fully_connected_swarms);
            swarms
        };

        let keys: HashSet<_> = keys.into_iter().take(num_total).map(|k| k.0).collect();

        // Each test run publishes all records twice.
        let mut republished = false;
        // The accumulated results for one round of publishing.
        let mut results = Vec::new();

        // Initiate the first round of publishing.
        let mut qids = HashSet::new();
        for k in &keys {
            let qid = swarms[0].behaviour_mut().start_providing(k.clone()).unwrap();
            qids.insert(qid);
        }

        loop {
            // Poll all swarms until they are "Pending".
            run_until_rest(&mut swarms, |_, _, event| match event {
                Event::OutboundQueryProgressed {
                    id, result: QueryResult::StartProviding(res), ..
                }
                | Event::OutboundQueryProgressed {
                    id,
                    result: QueryResult::RepublishProvider(res),
                    ..
                } => {
                    assert!(qids.is_empty() || qids.remove(&id));
                    match res {
                        Err(e) => panic!("{e:?}"),
                        Ok(ok) => {
                            assert!(keys.contains(&ok.key));
                            results.push(ok.key);
                        }
                    }
                }
                // Ignore any other event.
                _ => (),
            });

            // All swarms are at rest: all requests of the round have been sent.
            assert_eq!(results.len(), keys.len());

            // A round of publishing is complete. Consume the results, checking that
            // each key was published to the `replication_factor` closest peers.
            while let Some(key) = results.pop() {
                // Collect the nodes that have a provider record for `key`.
                let actual = swarms
                    .iter()
                    .skip(1)
                    .filter_map(|swarm| {
                        if swarm.behaviour().provider_store().providers(&key).len() == 1 {
                            Some(swarm.local_peer_id())
                        } else {
                            None
                        }
                    })
                    .collect::<HashSet<_>>();

                assert_eq!(actual.len(), replication_factor);

                let mut expected =
                    swarms.iter().skip(1).map(Swarm::local_peer_id).collect::<Vec<_>>();
                let kbucket_key = Key::new(&key);
                expected.sort_by(|id1, id2| {
                    id1.key().distance(&kbucket_key).cmp(&id2.key().distance(&kbucket_key))
                });

                let expected =
                    expected.into_iter().take(replication_factor).collect::<HashSet<_>>();

                assert_eq!(actual, expected);
            }

            // One round of publishing is complete.
            assert!(results.is_empty());
            for swarm in &swarms {
                assert_eq!(swarm.behaviour().queries().size(), 0);
            }

            if republished {
                assert_eq!(swarms[0].behaviour().provider_store().provided().len(), keys.len());
                for k in &keys {
                    swarms[0].behaviour_mut().stop_providing(k);
                }
                assert_eq!(swarms[0].behaviour().provider_store().provided().len(), 0);
                // All records have been republished, thus the test is complete.
                return;
            }

            // Initiate the second round of publishing by telling the
            // periodic provider job to run asap.
            swarms[0].behaviour_mut().provide_asap(NOW);
            republished = true;
        }
    }

    QuickCheck::new().tests(3).quickcheck(prop as fn(_, _))
}
