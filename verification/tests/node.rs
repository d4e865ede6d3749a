//! One node on its own: what it answers, stores and reports.

use std::collections::HashMap;

use kademlia::behaviour::{
    AddProviderContext, AddProviderPhase, Behaviour, Polled, PutRecordContext, PutRecordPhase,
    QueryInfo, RoutingUpdate, ToSwarm,
};
use kademlia::bucket::{AppliedPending, NodeStatus};
use kademlia::config::{BucketInserts, Config, Mode, StoreInserts, K_VALUE};
use kademlia::event::{
    AddProviderError, BootstrapError, Event, GetClosestPeersError, GetClosestPeersOk,
    GetProvidersError, GetProvidersOk, GetRecordError, InboundRequest, NoKnownPeers,
    PutRecordError, PutRecordOk, QueryResult,
};
use kademlia::key::Key;
use kademlia::message::{PeerInfo, Request, Response};
use kademlia::nearest::Peer;
use kademlia::peer::PeerId;
use kademlia::query::{QueryId, Quorum};
use kademlia::record::Record;
use kademlia::store::{MemoryStoreConfig, StoreError};

const NOW: u64 = 1_000;

fn id(n: u8) -> PeerId {
    PeerId::from_bytes(&[n, n, n]).unwrap()
}

fn peer(n: u8) -> Peer {
    Peer::new(id(n))
}

/// A node that can be reached, and so serves requests.
fn node_with(config: Config) -> Behaviour {
    let mut b = Behaviour::new(id(0), config, MemoryStoreConfig::default(), NOW);
    b.add_external_address(vec![0]);
    assert_eq!(b.poll(NOW), Some(ToSwarm::GenerateEvent(Event::ModeChanged { new_mode: Mode::Server })));
    b
}

fn node() -> Behaviour {
    node_with(Config::new())
}

fn drain(b: &mut Behaviour) -> Vec<Event> {
    let mut events = Vec::new();
    while let Some(ToSwarm::GenerateEvent(e)) = b.poll(NOW) {
        events.push(e);
    }
    events
}

#[test]
fn default_configuration() {
    let c = Config::new();
    assert_eq!(c.query_config.replication_factor, K_VALUE);
    assert_eq!(c.query_config.parallelism, 3);
    assert_eq!(c.query_config.timeout, 60);
    assert_eq!(c.query_config.peer_timeout, 10);
    assert!(!c.query_config.disjoint_query_paths);
    assert_eq!(c.record_ttl, Some(48 * 60 * 60));
    assert_eq!(c.record_replication_interval, Some(60 * 60));
    assert_eq!(c.record_publication_interval, Some(22 * 60 * 60));
    assert_eq!(c.provider_record_ttl, Some(48 * 60 * 60));
    assert_eq!(c.provider_publication_interval, Some(12 * 60 * 60));
    assert_eq!(c.record_filtering, StoreInserts::Unfiltered);
    assert_eq!(c.kbucket_inserts, BucketInserts::OnConnected);
    assert_eq!(c.periodic_bootstrap_interval, Some(5 * 60));
    assert!(c.is_valid());
    let mut c = c;
    c.set_query_timeout(5);
    assert_eq!(c.query_config.timeout, 5);
    // A record is stored at one peer at least, and at a bucket's worth at most.
    c.set_replication_factor(1);
    assert!(c.is_valid());
    c.query_config.replication_factor = 0;
    assert!(!c.is_valid());
    c.query_config.replication_factor = K_VALUE + 1;
    assert!(!c.is_valid());
    c.set_replication_factor(K_VALUE);
    c.query_config.parallelism = 0;
    assert!(!c.is_valid());
    c.set_parallelism(K_VALUE);
    assert!(c.is_valid());
}

#[test]
fn record_filtering_hands_the_record_to_the_user() {
    let mut config = Config::new();
    config.set_record_filtering(StoreInserts::FilterBoth);
    let mut b = node_with(config);
    let record = Record::new(vec![1, 2, 3], vec![4, 5]);
    let response = b.on_request(&peer(7), Request::PutValue { record: record.clone() }, NOW);
    assert_eq!(response, Some(Response::PutValue { key: vec![1, 2, 3], value: vec![4, 5] }));
    // The record is not in the store.
    assert!(b.store().peek(&[1, 2, 3]).is_none());
    let events = drain(&mut b);
    assert_eq!(events.len(), 1);
    let handed = match &events[0] {
        Event::InboundRequest {
            request: InboundRequest::PutRecord { source, record: Some(handed) },
        } => {
            assert_eq!(*source, peer(7));
            handed.clone()
        }
        e => panic!("{e:?}"),
    };
    assert_eq!(handed.key, record.key);
    assert_eq!(handed.value, record.value);
    // The record expires after the time to live.
    assert_eq!(handed.expires, Some(NOW + 48 * 60 * 60));
    // The user accepts it.
    assert_eq!(b.store_put(handed.clone()), Ok(()));
    assert_eq!(b.store().peek(&[1, 2, 3]), Some(&handed));
}

#[test]
fn unfiltered_records_are_stored_as_they_arrive() {
    let mut b = node();
    let mut record = Record::new(vec![1], vec![2]);
    record.publisher = Some(id(9));
    record.expires = Some(NOW + 10);
    let response = b.on_request(&peer(7), Request::PutValue { record: record.clone() }, NOW);
    assert_eq!(response, Some(Response::PutValue { key: vec![1], value: vec![2] }));
    // The earlier expiry holds.
    assert_eq!(b.store().peek(&[1]), Some(&record));
    assert_eq!(
        drain(&mut b),
        vec![Event::InboundRequest {
            request: InboundRequest::PutRecord { source: peer(7), record: None }
        }]
    );
}

#[test]
fn a_record_of_the_local_peer_is_not_taken_back() {
    let mut b = node();
    let mut record = Record::new(vec![1], vec![2]);
    record.publisher = Some(id(0));
    let response = b.on_request(&peer(7), Request::PutValue { record }, NOW);
    assert_eq!(response, Some(Response::PutValue { key: vec![1], value: vec![2] }));
    assert!(b.store().peek(&[1]).is_none());
    assert!(drain(&mut b).is_empty());
}

#[test]
fn a_record_that_the_store_refuses_gets_no_response() {
    let mut b = node();
    let record = Record::new(vec![1], vec![0; 65 * 1024]);
    assert_eq!(b.on_request(&peer(7), Request::PutValue { record }, NOW), None);
    assert!(drain(&mut b).is_empty());
}

#[test]
fn a_client_serves_no_requests() {
    let mut b = node();
    b.add_address(&id(1), vec![1], NOW);
    b.on_connection_established(&id(1));
    drain(&mut b);
    b.set_mode(Some(Mode::Client));
    assert_eq!(b.get_mode(), Mode::Client);
    assert_eq!(drain(&mut b), vec![Event::ModeChanged { new_mode: Mode::Client }]);
    b.set_mode(Some(Mode::Client));
    assert!(drain(&mut b).is_empty());
    let record = Record::new(vec![1], vec![2]);
    assert_eq!(b.on_request(&peer(7), Request::PutValue { record }, NOW), None);
    assert_eq!(b.on_request(&peer(7), Request::FindNode { key: vec![1] }, NOW), None);
    assert!(b.store().peek(&[1]).is_none());
    assert!(drain(&mut b).is_empty());
}

#[test]
fn find_node_names_the_closest_peers_without_the_one_that_asks() {
    let mut b = node();
    for n in 1..=30u8 {
        assert_eq!(b.add_address(&id(n), vec![n], NOW), RoutingUpdate::Success);
    }
    drain(&mut b);
    let target = vec![5u8; 8];
    let response = b.on_request(&peer(3), Request::FindNode { key: target.clone() }, NOW);
    let closer = match response {
        Some(Response::FindNode { closer_peers }) => closer_peers,
        r => panic!("{r:?}"),
    };
    let target_key = Key::new(&target);
    let mut expected: Vec<Peer> = (1..=30u8).filter(|n| *n != 3).map(peer).collect();
    expected.sort_by_key(|p| p.key.distance(&target_key));
    expected.truncate(K_VALUE);
    assert_eq!(closer.iter().map(|i| i.peer).collect::<Vec<_>>(), expected);
    assert!(closer.iter().all(|i| i.addresses == vec![vec![i.peer.id.to_bytes()[0]]]));
    assert_eq!(
        drain(&mut b),
        vec![Event::InboundRequest { request: InboundRequest::FindNode { num_closer_peers: 20 } }]
    );
}

#[test]
fn an_expired_record_is_not_handed_out() {
    let mut b = node();
    let mut stale = Record::new(vec![1], vec![1]);
    stale.expires = Some(NOW);
    let mut live = Record::new(vec![2], vec![2]);
    live.expires = Some(NOW + 1);
    b.store_put(stale).unwrap();
    b.store_put(live.clone()).unwrap();
    let r = b.on_request(&peer(7), Request::GetValue { key: vec![1] }, NOW);
    assert_eq!(r, Some(Response::GetValue { record: None, closer_peers: vec![] }));
    // The expired record is gone.
    assert_eq!(b.store().len(), 1);
    let r = b.on_request(&peer(7), Request::GetValue { key: vec![2] }, NOW);
    assert_eq!(r, Some(Response::GetValue { record: Some(live), closer_peers: vec![] }));
    let r = b.on_request(&peer(7), Request::GetValue { key: vec![3] }, NOW);
    assert_eq!(r, Some(Response::GetValue { record: None, closer_peers: vec![] }));
    let events = drain(&mut b);
    assert_eq!(
        events,
        vec![
            Event::InboundRequest {
                request: InboundRequest::GetRecord { num_closer_peers: 0, present_locally: false }
            },
            Event::InboundRequest {
                request: InboundRequest::GetRecord { num_closer_peers: 0, present_locally: true }
            },
            Event::InboundRequest {
                request: InboundRequest::GetRecord { num_closer_peers: 0, present_locally: false }
            },
        ]
    );
}

#[test]
fn providers_are_noted_for_the_peer_that_asks_only() {
    let mut b = node();
    let provider = PeerInfo { peer: peer(7), addresses: vec![vec![7]] };
    let request = Request::AddProvider { key: vec![1], provider: provider.clone() };
    // Another peer cannot name peer 7 as a provider.
    assert_eq!(b.on_request(&peer(8), request.clone(), NOW), None);
    assert!(b.provider_store().providers(&[1]).is_empty());
    assert_eq!(b.on_request(&peer(7), request, NOW), Some(Response::Ack));
    let held = b.provider_store().providers(&[1]);
    assert_eq!(held.len(), 1);
    assert_eq!(held[0].provider, id(7));
    assert_eq!(held[0].expires, Some(NOW + 48 * 60 * 60));
    assert_eq!(held[0].addresses, vec![vec![7]]);
    let r = b.on_request(&peer(8), Request::GetProviders { key: vec![1] }, NOW);
    assert_eq!(
        r,
        Some(Response::GetProviders { closer_peers: vec![], providers: vec![provider] })
    );
    // After the time to live the provider is not named any more.
    assert_eq!(b.provider_store().providers(&[1]).len(), 1);
    let r = b.on_request(&peer(8), Request::GetProviders { key: vec![1] }, NOW + 48 * 60 * 60);
    assert_eq!(r, Some(Response::GetProviders { closer_peers: vec![], providers: vec![] }));
    // And it is gone from the store.
    assert!(b.provider_store().providers(&[1]).is_empty());
    assert_eq!(b.provider_store().num_keys(), 0);
}

#[test]
fn expired_providers_leave_when_their_key_is_looked_up() {
    let mut b = node();
    b.add_address(&id(1), vec![1], NOW);
    b.on_connection_established(&id(1));
    for n in 5..8 {
        let provider = PeerInfo { peer: peer(n), addresses: vec![] };
        // Peer 6 comes an hour after the others, and so stays an hour longer.
        let at = if n == 6 { NOW + 3600 } else { NOW };
        let request = Request::AddProvider { key: vec![1], provider };
        assert_eq!(b.on_request(&peer(n), request, at), Some(Response::Ack));
    }
    let other = PeerInfo { peer: peer(9), addresses: vec![] };
    let request = Request::AddProvider { key: vec![2], provider: other };
    assert_eq!(b.on_request(&peer(9), request, NOW), Some(Response::Ack));
    drain(&mut b);
    assert_eq!(b.provider_store().providers(&[1]).len(), 3);
    let later = NOW + 48 * 60 * 60;
    let id_of_query = b.get_providers(vec![1], later);
    match b.poll(later) {
        Some(ToSwarm::GenerateEvent(Event::OutboundQueryProgressed { id, result, .. })) => {
            assert_eq!(id, id_of_query);
            assert_eq!(
                result,
                QueryResult::GetProviders(Ok(GetProvidersOk::FoundProviders {
                    key: vec![1],
                    providers: vec![peer(6)]
                }))
            );
        }
        other => panic!("{other:?}"),
    }
    let held = b.provider_store().providers(&[1]);
    assert_eq!(held.len(), 1);
    assert_eq!(held[0].provider, id(6));
    // The providers of other keys are not touched.
    assert_eq!(b.provider_store().providers(&[2]).len(), 1);
}

#[test]
fn filtered_providers_are_handed_to_the_user() {
    let mut config = Config::new();
    config.set_record_filtering(StoreInserts::FilterBoth);
    let mut b = node_with(config);
    let provider = PeerInfo { peer: peer(7), addresses: vec![vec![7]] };
    let request = Request::AddProvider { key: vec![1], provider };
    assert_eq!(b.on_request(&peer(7), request, NOW), Some(Response::Ack));
    assert!(b.provider_store().providers(&[1]).is_empty());
    match &drain(&mut b)[..] {
        [Event::InboundRequest { request: InboundRequest::AddProvider { record: Some(r) } }] => {
            assert_eq!(r.key, vec![1]);
            assert_eq!(r.provider, id(7));
        }
        e => panic!("{e:?}"),
    }
}

#[test]
fn addresses_and_connections_shape_the_routing_table() {
    let mut b = node();
    // The local peer is not routed to.
    assert_eq!(b.add_address(&id(0), vec![0], NOW), RoutingUpdate::Failed);
    assert_eq!(b.add_address(&id(1), vec![1], NOW), RoutingUpdate::Success);
    assert_eq!(b.add_address(&id(1), vec![1], NOW), RoutingUpdate::Success);
    assert_eq!(b.add_address(&id(1), vec![11], NOW), RoutingUpdate::Success);
    let key = id(1).key();
    assert_eq!(b.addresses_of_peer(&key), vec![vec![1], vec![11]]);
    assert_eq!(b.routing_table().get(&key).unwrap().status, NodeStatus::Disconnected);
    assert_eq!(
        drain(&mut b),
        vec![
            Event::RoutingUpdated { peer: peer(1), is_new_peer: true, old_peer: None },
            Event::RoutingUpdated { peer: peer(1), is_new_peer: false, old_peer: None },
        ]
    );
    b.on_connection_established(&id(1));
    assert!(b.is_connected(&key));
    b.on_protocol_confirmed(&id(1), vec![12], NOW);
    assert_eq!(b.routing_table().get(&key).unwrap().status, NodeStatus::Connected);
    assert_eq!(b.addresses_of_peer(&key), vec![vec![1], vec![11], vec![12]]);
    b.on_address_change(&id(1), &[11], vec![13]);
    assert_eq!(b.addresses_of_peer(&key), vec![vec![1], vec![13], vec![12]]);
    b.on_address_change(&id(1), &[99], vec![14]);
    b.on_address_change(&id(2), &[1], vec![14]);
    assert_eq!(b.addresses_of_peer(&key), vec![vec![1], vec![13], vec![12]]);
    b.on_connection_closed(&id(1));
    assert!(!b.is_connected(&key));
    assert_eq!(b.routing_table().get(&key).unwrap().status, NodeStatus::Disconnected);
    // A peer that is connected enters as connected.
    b.on_connection_established(&id(2));
    b.on_connection_established(&id(2));
    assert_eq!(b.add_address(&id(2), vec![2], NOW), RoutingUpdate::Success);
    assert_eq!(b.routing_table().get(&id(2).key()).unwrap().status, NodeStatus::Connected);
    assert_eq!(b.remove_peer(&id(2)).map(|n| n.peer), Some(peer(2)));
    assert!(b.remove_peer(&id(2)).is_none());
    assert!(b.addresses_of_peer(&id(2).key()).is_empty());
}

#[test]
fn a_peer_without_address_cannot_be_routed_to() {
    let mut b = node();
    b.on_protocol_confirmed_without_address(&id(1));
    assert!(b.routing_table().get(&id(1).key()).is_none());
    assert_eq!(drain(&mut b), vec![Event::UnroutablePeer { peer: peer(1) }]);
    b.add_address(&id(1), vec![1], NOW);
    b.on_connection_established(&id(1));
    drain(&mut b);
    b.on_protocol_confirmed_without_address(&id(1));
    assert_eq!(b.routing_table().get(&id(1).key()).unwrap().status, NodeStatus::Connected);
    assert!(drain(&mut b).is_empty());
    b.on_protocol_confirmed_without_address(&id(0));
    assert!(drain(&mut b).is_empty());
}

#[test]
fn bootstrap_needs_a_known_peer() {
    let mut b = node();
    assert_eq!(b.bootstrap(NOW), Err(NoKnownPeers));
    assert_eq!(b.queries().size(), 0);
    b.add_address(&id(1), vec![1], NOW);
    b.on_connection_established(&id(1));
    assert_eq!(b.bootstrap(NOW), Ok(QueryId(0)));
    assert_eq!(b.queries().size(), 1);
}

#[test]
fn put_record_stores_locally_first() {
    let mut b = node();
    let too_large = Record::new(vec![1], vec![0; 65 * 1024]);
    assert_eq!(b.put_record(too_large, Quorum::One, NOW), Err(StoreError::ValueTooLarge));
    assert_eq!(b.queries().size(), 0);
    let record = Record::new(vec![1], vec![2]);
    assert_eq!(b.put_record(record, Quorum::Majority, NOW), Ok(QueryId(0)));
    let stored = b.store().peek(&[1]).unwrap();
    assert_eq!(stored.publisher, Some(id(0)));
    assert_eq!(stored.expires, None);
    // Without peers the query fails at its quorum of eleven of twenty.
    match drain(&mut b).pop() {
        Some(Event::OutboundQueryProgressed {
            id: qid,
            result: QueryResult::PutRecord(Err(e)),
            step,
            ..
        }) => {
            assert_eq!(qid, QueryId(0));
            assert!(step.last);
            assert_eq!(
                e,
                kademlia::event::PutRecordError::QuorumFailed {
                    key: vec![1],
                    success: vec![],
                    quorum: 11
                }
            );
        }
        e => panic!("{e:?}"),
    }
    b.remove_record(&[1]);
    assert!(b.store().peek(&[1]).is_none());
}

#[test]
fn a_request_that_fails_lets_the_query_go_on() {
    let mut b = node();
    b.add_address(&id(1), vec![1], NOW);
    b.on_connection_established(&id(1));
    b.add_address(&id(2), vec![2], NOW);
    b.on_connection_established(&id(2));
    drain(&mut b);
    let qid = b.get_closest_peers(vec![9]);
    let mut asked = Vec::new();
    loop {
        match b.poll(NOW) {
            Some(ToSwarm::SendRequest { peer, query_id, request }) => {
                assert_eq!(query_id, qid);
                assert_eq!(request, Request::FindNode { key: vec![9] });
                asked.push(peer);
                if peer == self::peer(1) {
                    b.on_request_failed(query_id, &peer.key);
                } else {
                    b.on_response(query_id, &peer, Response::FindNode { closer_peers: vec![] });
                }
            }
            Some(ToSwarm::GenerateEvent(Event::OutboundQueryProgressed {
                result: QueryResult::GetClosestPeers(Ok(GetClosestPeersOk { key, peers })),
                stats,
                step,
                ..
            })) => {
                assert_eq!(key, vec![9]);
                assert_eq!(peers, vec![self::peer(2)]);
                assert_eq!(stats.num_requests(), 2);
                assert_eq!(stats.num_successes(), 1);
                assert_eq!(stats.num_failures(), 1);
                assert!(step.last);
                break;
            }
            other => panic!("{other:?}"),
        }
    }
    assert_eq!(asked.len(), 2);
    // A late answer of a query that is gone changes nothing.
    b.on_response(qid, &peer(1), Response::FindNode { closer_peers: vec![] });
    b.on_request_failed(qid, &peer(1).key);
    assert!(b.poll(NOW).is_none());
}

/// A configuration without bootstraps that start on their own.
fn quiet_config() -> Config {
    let mut config = Config::new();
    config.set_periodic_bootstrap_interval(None);
    config.set_automatic_bootstrap_throttle(None);
    config
}

#[test]
fn requests_that_get_no_answer_fail_at_their_deadline() {
    let mut b = node_with(quiet_config());
    b.add_address(&id(1), vec![1], NOW);
    b.on_connection_established(&id(1));
    drain(&mut b);
    b.get_closest_peers(vec![9]);
    assert!(matches!(b.poll(NOW), Some(ToSwarm::SendRequest { .. })));
    // One request is in flight; nothing to do until its deadline.
    assert!(b.poll(NOW).is_none());
    assert!(b.poll(NOW + 9).is_none());
    match b.poll(NOW + 10) {
        Some(ToSwarm::GenerateEvent(Event::OutboundQueryProgressed {
            result: QueryResult::GetClosestPeers(Ok(ok)),
            step,
            ..
        })) => {
            assert!(ok.peers.is_empty());
            assert!(step.last);
        }
        other => panic!("{other:?}"),
    }
}

#[test]
fn a_query_runs_out_of_time() {
    let mut config = quiet_config();
    config.set_query_timeout(5);
    let mut b = node_with(config);
    b.add_address(&id(1), vec![1], NOW);
    b.on_connection_established(&id(1));
    drain(&mut b);
    b.get_closest_peers(vec![9]);
    assert!(matches!(b.poll(NOW), Some(ToSwarm::SendRequest { .. })));
    assert!(b.poll(NOW + 4).is_none());
    match b.poll(NOW + 5) {
        Some(ToSwarm::GenerateEvent(Event::OutboundQueryProgressed {
            result: QueryResult::GetClosestPeers(Err(e)),
            step,
            stats,
            ..
        })) => {
            assert_eq!(
                e,
                kademlia::event::GetClosestPeersError::Timeout { key: vec![9], peers: vec![] }
            );
            assert!(step.last);
            assert_eq!(stats.duration(), Some(5));
        }
        other => panic!("{other:?}"),
    }
    assert_eq!(b.queries().size(), 0);
}

#[test]
fn every_query_reports_its_end_once() {
    let mut b = node();
    for n in 1..=5u8 {
        b.add_address(&id(n), vec![n], NOW);
        b.on_connection_established(&id(n));
    }
    let mut expected = Vec::new();
    expected.push(b.get_closest_peers(vec![1]));
    expected.push(b.get_record(vec![2], Quorum::One, NOW));
    expected.push(b.put_record(Record::new(vec![3], vec![3]), Quorum::One, NOW).unwrap());
    expected.push(b.start_providing(vec![4]).unwrap());
    expected.push(b.get_providers(vec![4], NOW));
    expected.push(b.bootstrap(NOW).unwrap());
    let mut last: HashMap<QueryId, usize> = HashMap::new();
    let mut counts: HashMap<QueryId, Vec<usize>> = HashMap::new();
    loop {
        match b.poll(NOW) {
            None => break,
            Some(ToSwarm::SendRequest { peer, query_id, request }) => {
                // Every other peer answers; the others are out of reach.
                if peer.id.to_bytes()[0] % 2 == 0 {
                    let response = match request {
                        Request::FindNode { .. } => Response::FindNode { closer_peers: vec![] },
                        Request::GetValue { .. } => {
                            Response::GetValue { record: None, closer_peers: vec![] }
                        }
                        Request::GetProviders { .. } => {
                            Response::GetProviders { closer_peers: vec![], providers: vec![] }
                        }
                        Request::PutValue { record } => {
                            Response::PutValue { key: record.key, value: record.value }
                        }
                        Request::AddProvider { .. } => Response::Ack,
                    };
                    b.on_response(query_id, &peer, response);
                } else {
                    b.on_request_failed(query_id, &peer.key);
                }
            }
            Some(ToSwarm::GenerateEvent(Event::OutboundQueryProgressed { id, step, .. })) => {
                assert!(!last.contains_key(&id), "a report after the last of query {id:?}");
                counts.entry(id).or_default().push(step.count);
                if step.last {
                    last.insert(id, step.count);
                }
            }
            Some(ToSwarm::GenerateEvent(_)) => {}
            Some(ToSwarm::Dial { peer }) => panic!("a dial of the connected peer {peer:?}"),
        }
    }
    for id in expected {
        assert!(last.contains_key(&id), "query {id:?} did not report its end");
        let seen = &counts[&id];
        // The counts go up by one from one.
        assert_eq!(*seen, (1..=seen.len()).collect::<Vec<_>>());
    }
    assert_eq!(b.queries().size(), 0);
}

#[test]
fn a_new_peer_sets_off_a_bootstrap_after_the_throttle_time() {
    let mut b = node();
    b.add_address(&id(1), vec![1], NOW);
    b.on_connection_established(&id(1));
    drain(&mut b);
    assert_eq!(b.bootstrap_schedule().throttled, Some(NOW + 1));
    assert_eq!(b.queries().size(), 0);
    match b.poll(NOW + 1) {
        Some(ToSwarm::SendRequest { query_id, request, .. }) => {
            assert_eq!(query_id, QueryId(0));
            assert_eq!(request, Request::FindNode { key: id(0).to_bytes() });
        }
        other => panic!("{other:?}"),
    }
    assert_eq!(b.bootstrap_schedule().in_progress, 1);
    assert_eq!(b.bootstrap_schedule().next_periodic, Some(NOW + 1 + 300));
}

#[test]
fn the_periodic_bootstrap_comes_at_its_interval() {
    let mut config = Config::new();
    config.set_automatic_bootstrap_throttle(None);
    config.set_periodic_bootstrap_interval(Some(50));
    let mut b = node_with(config);
    b.add_address(&id(1), vec![1], NOW);
    b.on_connection_established(&id(1));
    drain(&mut b);
    assert!(b.poll(NOW + 49).is_none());
    assert!(matches!(b.poll(NOW + 50), Some(ToSwarm::SendRequest { .. })));
}

#[test]
fn a_node_finds_its_mode_by_its_reach() {
    let mut b = Behaviour::new(id(0), Config::new(), MemoryStoreConfig::default(), NOW);
    // No address is known under which the node can be reached.
    assert_eq!(b.get_mode(), Mode::Client);
    assert_eq!(b.on_request(&peer(7), Request::FindNode { key: vec![1] }, NOW), None);
    b.add_external_address(vec![1]);
    assert_eq!(b.get_mode(), Mode::Server);
    b.add_external_address(vec![2]);
    assert_eq!(drain(&mut b), vec![Event::ModeChanged { new_mode: Mode::Server }]);
    assert!(b.on_request(&peer(7), Request::FindNode { key: vec![1] }, NOW).is_some());
    drain(&mut b);
    b.remove_external_address(&[1]);
    b.remove_external_address(&[9]);
    assert_eq!(b.get_mode(), Mode::Server);
    b.remove_external_address(&[2]);
    assert_eq!(b.get_mode(), Mode::Client);
    assert_eq!(drain(&mut b), vec![Event::ModeChanged { new_mode: Mode::Client }]);
    // The user can set the mode, and hand the choice back.
    b.set_mode(Some(Mode::Server));
    assert_eq!(b.get_mode(), Mode::Server);
    b.add_external_address(vec![3]);
    b.set_mode(Some(Mode::Client));
    assert_eq!(b.get_mode(), Mode::Client);
    b.set_mode(None);
    assert_eq!(b.get_mode(), Mode::Server);
    assert_eq!(
        drain(&mut b),
        vec![
            Event::ModeChanged { new_mode: Mode::Server },
            Event::ModeChanged { new_mode: Mode::Client },
            Event::ModeChanged { new_mode: Mode::Server },
        ]
    );
}

#[test]
fn a_dial_failure_fails_the_requests_to_the_peer() {
    let mut b = node_with(quiet_config());
    b.add_address(&id(1), vec![1], NOW);
    b.on_connection_established(&id(1));
    b.add_address(&id(2), vec![2], NOW);
    b.on_connection_established(&id(2));
    drain(&mut b);
    let q1 = b.get_closest_peers(vec![9]);
    let q2 = b.get_closest_peers(vec![8]);
    let mut asked = 0;
    while let Some(ToSwarm::SendRequest { .. }) = b.poll(NOW) {
        asked += 1;
    }
    assert_eq!(asked, 4);
    b.on_dial_failure(&id(1));
    b.on_dial_failure(&id(2));
    b.on_dial_failure(&id(3));
    let ended: Vec<QueryId> = drain(&mut b)
        .into_iter()
        .map(|e| match e {
            Event::OutboundQueryProgressed {
                id,
                result: QueryResult::GetClosestPeers(Ok(ok)),
                stats,
                step,
            } => {
                assert!(ok.peers.is_empty());
                assert_eq!(stats.num_failures(), 2);
                assert!(step.last);
                id
            }
            e => panic!("{e:?}"),
        })
        .collect();
    assert_eq!(ended, vec![q1, q2]);
}

#[test]
fn every_kind_of_query_can_run_out_of_time() {
    let mut config = quiet_config();
    config.set_query_timeout(5);
    let mut b = node_with(config);
    b.add_address(&id(1), vec![1], NOW);
    b.on_connection_established(&id(1));
    drain(&mut b);
    let closest = b.get_closest_peers(vec![1]);
    let record = b.get_record(vec![2], Quorum::One, NOW);
    let put = b.put_record(Record::new(vec![3], vec![3]), Quorum::One, NOW).unwrap();
    let provide = b.start_providing(vec![4]).unwrap();
    let providers = b.get_providers(vec![5], NOW);
    let boot = b.bootstrap(NOW).unwrap();
    // Each query sends its request to the one peer, which does not answer.
    let mut sent = 0;
    while let Some(action) = b.poll(NOW) {
        match action {
            ToSwarm::SendRequest { .. } => sent += 1,
            ToSwarm::GenerateEvent(e) => panic!("{e:?}"),
            ToSwarm::Dial { peer } => panic!("a dial of the connected peer {peer:?}"),
        }
    }
    assert_eq!(sent, 6);
    assert!(b.poll(NOW + 4).is_none());
    let mut ended = HashMap::new();
    while let Some(action) = b.poll(NOW + 5) {
        match action {
            ToSwarm::GenerateEvent(Event::OutboundQueryProgressed { id, result, step, .. }) => {
                assert!(step.last || id == boot);
                ended.insert(id, result);
            }
            ToSwarm::SendRequest { query_id, .. } => assert_eq!(query_id, boot),
            other => panic!("{other:?}"),
        }
    }
    assert_eq!(
        ended[&closest],
        QueryResult::GetClosestPeers(Err(GetClosestPeersError::Timeout {
            key: vec![1],
            peers: vec![]
        }))
    );
    assert_eq!(
        ended[&record],
        QueryResult::GetRecord(Err(GetRecordError::Timeout { key: vec![2] }))
    );
    assert_eq!(
        ended[&put],
        QueryResult::PutRecord(Err(PutRecordError::Timeout {
            key: vec![3],
            success: vec![],
            quorum: 1
        }))
    );
    assert_eq!(
        ended[&provide],
        QueryResult::StartProviding(Err(AddProviderError::Timeout { key: vec![4] }))
    );
    assert_eq!(
        ended[&providers],
        QueryResult::GetProviders(Err(GetProvidersError::Timeout {
            key: vec![5],
            closest_peers: vec![]
        }))
    );
    // The lookup of the bootstrap ran out of time; the bootstrap goes on
    // with the one bucket that it has to refresh.
    assert_eq!(
        ended[&boot],
        QueryResult::Bootstrap(Err(BootstrapError::Timeout {
            peer: peer(0),
            num_remaining: Some(1)
        }))
    );
    assert_eq!(b.queries().size(), 1);
}

/// Runs a bootstrap of a node with three known peers, none of which names
/// another, and returns the keys that it looked up, in their order.
fn bootstrap_lookups(seed: u64) -> Vec<Vec<u8>> {
    let mut b = Behaviour::with_seed(id(0), quiet_config(), MemoryStoreConfig::default(), NOW, seed);
    for n in 1..4 {
        b.add_address(&id(n), vec![n], NOW);
        b.on_connection_established(&id(n));
    }
    drain(&mut b);
    b.bootstrap(NOW).unwrap();
    let mut lookups: Vec<Vec<u8>> = Vec::new();
    while let Some(action) = b.poll(NOW) {
        if let ToSwarm::SendRequest { peer, query_id, request: Request::FindNode { key } } = action {
            if !lookups.contains(&key) {
                lookups.push(key);
            }
            b.on_response(query_id, &peer, Response::FindNode { closer_peers: vec![] });
        }
    }
    lookups
}

#[test]
fn the_seed_settles_the_lookups_of_a_bootstrap() {
    let first = bootstrap_lookups(7);
    // The node looks itself up, then one peer for each bucket that holds a node.
    assert_eq!(first[0], id(0).to_bytes());
    assert!(first.len() >= 2 && first.len() <= 4);
    assert!(first[1..].iter().all(|key| key.len() == 32));
    assert_eq!(bootstrap_lookups(7), first);
    let other = bootstrap_lookups(8);
    assert_eq!(other[0], first[0]);
    assert_eq!(other.len(), first.len());
    assert_ne!(other[1..], first[1..]);
}

#[test]
fn a_look_at_the_queries_says_what_came_of_it() {
    let mut b = node_with(quiet_config());
    b.add_address(&id(1), vec![1], NOW);
    b.on_connection_established(&id(1));
    drain(&mut b);
    assert_eq!(b.poll_query(NOW), Polled::Rest);
    let put = b.put_record(Record::new(vec![3], vec![3]), Quorum::One, NOW).unwrap();
    // The lookup asks the one peer.
    assert_eq!(
        b.poll_query(NOW),
        Polled::Action(ToSwarm::SendRequest {
            peer: peer(1),
            query_id: put,
            request: Request::FindNode { key: vec![3] }
        })
    );
    assert_eq!(b.poll_query(NOW), Polled::Rest);
    b.on_response(put, &peer(1), Response::FindNode { closer_peers: vec![] });
    // The lookup is done, and the query goes on: the record is sent to the
    // peer that answered.
    assert_eq!(b.poll_query(NOW + 1), Polled::Continued);
    match b.poll_query(NOW + 1) {
        Polled::Action(ToSwarm::SendRequest {
            peer: to,
            query_id,
            request: Request::PutValue { record },
        }) => {
            assert_eq!((to, query_id), (peer(1), put));
            assert_eq!((record.key, record.value), (vec![3], vec![3]));
        }
        other => panic!("{other:?}"),
    }
    b.on_response(put, &peer(1), Response::PutValue { key: vec![3], value: vec![3] });
    match b.poll_query(NOW + 2) {
        Polled::Action(ToSwarm::GenerateEvent(Event::OutboundQueryProgressed {
            id,
            result,
            stats,
            step,
        })) => {
            assert_eq!(id, put);
            assert_eq!(result, QueryResult::PutRecord(Ok(PutRecordOk { key: vec![3] })));
            // The statistics are those of both phases.
            assert_eq!((stats.num_requests(), stats.num_successes()), (2, 2));
            assert_eq!(stats.num_failures(), 0);
            assert!(step.last);
        }
        other => panic!("{other:?}"),
    }
    assert_eq!(b.poll_query(NOW + 2), Polled::Rest);
    assert_eq!(b.queries().size(), 0);
}

#[test]
fn a_candidate_enters_its_bucket_when_it_is_due() {
    let mut config = quiet_config();
    config.kbucket_pending_timeout = 30;
    let mut b = node_with(config);
    // Fill one bucket with connected peers, and let one more peer wait.
    let local = b.local_peer().key;
    let mut bucket: Option<usize> = None;
    let mut held: Vec<PeerId> = Vec::new();
    let mut waiting: Option<PeerId> = None;
    let mut n: u32 = 0;
    while waiting.is_none() {
        n += 1;
        let candidate = PeerId::from_bytes(&n.to_be_bytes()).unwrap();
        let index = local.bucket_index(&candidate.key()).unwrap();
        if *bucket.get_or_insert(index) != index {
            continue;
        }
        b.on_connection_established(&candidate);
        if held.len() < K_VALUE {
            assert_eq!(b.add_address(&candidate, vec![1], NOW), RoutingUpdate::Success);
            held.push(candidate);
        } else {
            assert_eq!(b.add_address(&candidate, vec![1], NOW), RoutingUpdate::Pending);
            waiting = Some(candidate);
        }
    }
    let waiting = waiting.unwrap();
    drain(&mut b);
    // Nothing happens before the candidate is due.
    assert_eq!(b.apply_pending(NOW + 29), vec![]);
    // The first peer of the bucket goes away, and the candidate takes its place.
    b.on_connection_closed(&held[0]);
    let applied = b.apply_pending(NOW + 30);
    assert_eq!(
        applied,
        vec![AppliedPending::Promoted {
            inserted: Peer::new(waiting),
            evicted: Some(Peer::new(held[0]))
        }]
    );
    assert_eq!(
        drain(&mut b),
        vec![Event::RoutingUpdated {
            peer: Peer::new(waiting),
            is_new_peer: true,
            old_peer: Some(Peer::new(held[0]))
        }]
    );
    assert!(b.routing_table().get(&waiting.key()).is_some());
    assert!(b.routing_table().get(&held[0].key()).is_none());
    assert_eq!(b.apply_pending(NOW + 60), vec![]);
}

#[test]
fn the_job_starts_a_query_for_each_record_that_is_due() {
    let mut b = node_with(quiet_config());
    b.add_address(&id(1), vec![1], NOW);
    b.on_connection_established(&id(1));
    let mut other = Record::new(vec![1], vec![10]);
    other.publisher = Some(id(5));
    let mut own = Record::new(vec![2], vec![20]);
    own.publisher = Some(id(0));
    b.store_put(other.clone()).unwrap();
    b.store_put(own).unwrap();
    drain(&mut b);
    // The job waits for its interval.
    assert_eq!(b.replicate_next(NOW + 3599), None);
    assert_eq!(b.queries().size(), 0);
    // Then it runs: the record of the other peer is replicated. The record
    // of the local peer is left to the run that publishes.
    let first = b.replicate_next(NOW + 3600).unwrap();
    match &b.query(first).unwrap().info {
        QueryInfo::PutRecord { record, quorum, context, phase } => {
            assert_eq!(*record, other);
            assert_eq!(*quorum, K_VALUE);
            assert_eq!(*context, PutRecordContext::Replicate);
            assert_eq!(*phase, PutRecordPhase::GetClosestPeers);
        }
        info => panic!("{info:?}"),
    }
    assert_eq!(b.replicate_next(NOW + 3600), None);
    assert_eq!(b.queries().size(), 1);
    // After the publication interval both records are sent.
    let publish = NOW + 22 * 60 * 60;
    let second = b.replicate_next(publish).unwrap();
    let third = b.replicate_next(publish).unwrap();
    assert_eq!(b.replicate_next(publish), None);
    let contexts: Vec<(Vec<u8>, PutRecordContext)> = [second, third]
        .iter()
        .map(|id| match &b.query(*id).unwrap().info {
            QueryInfo::PutRecord { record, context, .. } => (record.key.clone(), *context),
            info => panic!("{info:?}"),
        })
        .collect();
    assert_eq!(
        contexts,
        vec![(vec![1], PutRecordContext::Replicate), (vec![2], PutRecordContext::Republish)]
    );
}

#[test]
fn the_job_announces_the_keys_of_the_local_peer_anew() {
    let mut b = node_with(quiet_config());
    b.add_address(&id(1), vec![1], NOW);
    b.on_connection_established(&id(1));
    let first = b.start_providing(vec![7]).unwrap();
    assert!(b.finish_query(first));
    while b.poll_query(NOW) != Polled::Rest {}
    assert_eq!(b.queries().size(), 0);
    assert_eq!(b.republish_next(NOW + 12 * 60 * 60 - 1), None);
    let again = b.republish_next(NOW + 12 * 60 * 60).unwrap();
    match &b.query(again).unwrap().info {
        QueryInfo::AddProvider { key, phase, context } => {
            assert_eq!(*key, vec![7]);
            assert_eq!(*phase, AddProviderPhase::GetClosestPeers);
            assert_eq!(*context, AddProviderContext::Republish);
        }
        info => panic!("{info:?}"),
    }
    assert_eq!(b.republish_next(NOW + 12 * 60 * 60), None);
    // A key that is no longer provided is not announced.
    b.stop_providing(&[7]);
    assert_eq!(b.republish_next(NOW + 24 * 60 * 60), None);
}

#[test]
fn a_closed_connection_fails_the_requests_to_the_peer() {
    let mut b = node_with(quiet_config());
    for n in 1..3 {
        b.on_connection_established(&id(n));
        b.add_address(&id(n), vec![n], NOW);
        b.on_connection_established(&id(n));
    }
    drain(&mut b);
    let q = b.get_closest_peers(vec![9]);
    let mut asked = 0;
    while let Some(ToSwarm::SendRequest { .. }) = b.poll(NOW) {
        asked += 1;
    }
    assert_eq!(asked, 2);
    // The first peer answers, the connection to the second is closed.
    b.on_response(q, &peer(1), Response::FindNode { closer_peers: vec![] });
    assert_eq!(b.poll(NOW), None);
    b.on_connection_closed(&id(2));
    assert!(!b.is_connected(&id(2).key()));
    assert_eq!(
        b.routing_table().get(&id(2).key()).map(|n| n.status),
        Some(NodeStatus::Disconnected)
    );
    match &drain(&mut b)[..] {
        [Event::OutboundQueryProgressed {
            id,
            result: QueryResult::GetClosestPeers(Ok(ok)),
            stats,
            step,
        }] => {
            assert_eq!(*id, q);
            assert_eq!(ok.peers, vec![peer(1)]);
            assert_eq!((stats.num_successes(), stats.num_failures()), (1, 1));
            assert!(step.last);
        }
        e => panic!("{e:?}"),
    }
}

#[test]
fn a_peer_without_connection_is_dialed_and_its_requests_wait() {
    let mut b = node_with(quiet_config());
    b.add_address(&id(1), vec![1], NOW);
    b.add_address(&id(2), vec![2], NOW);
    b.on_connection_established(&id(2));
    drain(&mut b);
    let q = b.get_closest_peers(vec![9]);
    let mut dialed = Vec::new();
    let mut sent = Vec::new();
    while let Some(action) = b.poll(NOW) {
        match action {
            ToSwarm::Dial { peer } => dialed.push(peer),
            ToSwarm::SendRequest { peer, query_id, .. } => sent.push((peer, query_id)),
            ToSwarm::GenerateEvent(e) => panic!("{e:?}"),
        }
    }
    // The request to the peer that is connected is sent, the other waits.
    assert_eq!(dialed, vec![peer(1)]);
    assert_eq!(sent, vec![(peer(2), q)]);
    // A connection to another peer releases nothing.
    assert!(b.on_connection_established(&id(3)).is_empty());
    let released = b.on_connection_established(&id(1));
    assert_eq!(released.len(), 1);
    assert_eq!((released[0].peer, released[0].query_id), (peer(1), q));
    assert_eq!(released[0].request, Request::FindNode { key: vec![9] });
    // It is released once.
    assert!(b.on_connection_established(&id(1)).is_empty());
}

#[test]
fn a_peer_that_cannot_be_dialed_fails_the_requests_that_wait() {
    let mut b = node_with(quiet_config());
    b.add_address(&id(1), vec![1], NOW);
    drain(&mut b);
    let q = b.get_closest_peers(vec![9]);
    assert_eq!(b.poll(NOW), Some(ToSwarm::Dial { peer: peer(1) }));
    assert_eq!(b.poll(NOW), None);
    b.on_dial_failure(&id(1));
    match b.poll(NOW) {
        Some(ToSwarm::GenerateEvent(Event::OutboundQueryProgressed { id, stats, step, .. })) => {
            assert_eq!(id, q);
            assert_eq!(stats.num_failures(), 1);
            assert!(step.last);
        }
        other => panic!("{other:?}"),
    }
    // The request that waited is given up with the dial.
    assert!(b.on_connection_established(&id(1)).is_empty());
}
