//! The handler of one connection: exchanges with the peer, each way.

use kademlia::config::Mode;
use kademlia::handler::{
    protocol_name, Handler, HandlerError, HandlerEvent, HandlerStep, RequestId, MAX_NUM_STREAMS,
    SUBSTREAM_TIMEOUT,
};
use kademlia::message::{PeerInfo, Request, Response};
use kademlia::nearest::Peer;
use kademlia::peer::PeerId;
use kademlia::query::QueryId;
use kademlia::record::Record;

const NOW: u64 = 500;

fn server() -> Handler {
    Handler::new(protocol_name(), Mode::Server, SUBSTREAM_TIMEOUT)
}

fn find_node(n: u8) -> Request {
    Request::FindNode { key: vec![n] }
}

fn nobody() -> Response {
    Response::FindNode { closer_peers: vec![] }
}

fn failed(query: usize, error: HandlerError) -> HandlerEvent {
    HandlerEvent::RequestFailed { query_id: QueryId(query), error }
}

#[test]
fn the_protocol_has_its_name() {
    assert_eq!(protocol_name(), b"/ipfs/kad/1.0.0".to_vec());
    assert_eq!(server().protocol(), b"/ipfs/kad/1.0.0".to_vec());
}

#[test]
fn support_is_told_when_it_changes() {
    let mut h = server();
    assert_eq!(h.supported(), None);
    assert_eq!(h.on_negotiated(&b"/other/1.0.0".to_vec()), None);
    assert_eq!(h.supported(), None);
    assert_eq!(h.on_negotiated(&protocol_name()), Some(HandlerEvent::ProtocolConfirmed));
    assert_eq!(h.on_negotiated(&protocol_name()), None);
    assert_eq!(h.supported(), Some(true));
    let others = vec![b"/ping".to_vec(), b"/identify".to_vec()];
    assert_eq!(h.on_remote_protocols(&others), Some(HandlerEvent::ProtocolNotSupported));
    assert_eq!(h.on_remote_protocols(&others), None);
    assert_eq!(h.supported(), Some(false));
    let all = vec![b"/ping".to_vec(), protocol_name()];
    assert_eq!(h.on_remote_protocols(&all), Some(HandlerEvent::ProtocolConfirmed));
    assert_eq!(h.on_remote_protocols(&all), None);
}

#[test]
fn a_peer_that_names_no_protocol_does_not_speak_it() {
    let mut h = server();
    assert_eq!(h.on_remote_protocols(&vec![]), Some(HandlerEvent::ProtocolNotSupported));
}

#[test]
fn a_request_is_sent_and_answered() {
    let mut h = server();
    assert_eq!(h.poll(NOW), None);
    h.request(QueryId(7), find_node(1));
    assert_eq!(h.num_pending(), 1);
    assert_eq!(h.poll(NOW), Some(HandlerStep::Send { stream: 0, request: find_node(1) }));
    assert_eq!((h.num_pending(), h.num_outbound()), (0, 1));
    assert_eq!(h.poll(NOW), None);
    let peer = Peer::new(PeerId::from_bytes(&[9]).unwrap());
    let response = Response::FindNode {
        closer_peers: vec![PeerInfo { peer, addresses: vec![vec![1, 2]] }],
    };
    assert_eq!(
        h.on_response(0, response.clone()),
        Some(HandlerEvent::Response { query_id: QueryId(7), response: response.clone() })
    );
    assert_eq!(h.num_outbound(), 0);
    // The exchange is over: a second message on the substream is dropped.
    assert_eq!(h.on_response(0, response), None);
    assert_eq!(h.on_stream_closed(0), None);
}

#[test]
fn requests_go_out_in_their_order() {
    let mut h = server();
    h.request(QueryId(1), find_node(1));
    h.request(QueryId(2), Request::GetValue { key: vec![2] });
    h.request(QueryId(1), Request::GetProviders { key: vec![3] });
    assert_eq!(h.poll(NOW), Some(HandlerStep::Send { stream: 0, request: find_node(1) }));
    assert_eq!(
        h.poll(NOW),
        Some(HandlerStep::Send { stream: 1, request: Request::GetValue { key: vec![2] } })
    );
    assert_eq!(
        h.poll(NOW),
        Some(HandlerStep::Send { stream: 2, request: Request::GetProviders { key: vec![3] } })
    );
    assert_eq!(h.poll(NOW), None);
    // The answers may come in any order; each goes to its query.
    let providers = Response::GetProviders { closer_peers: vec![], providers: vec![] };
    assert_eq!(
        h.on_response(2, providers.clone()),
        Some(HandlerEvent::Response { query_id: QueryId(1), response: providers })
    );
    let value = Response::GetValue { record: None, closer_peers: vec![] };
    assert_eq!(
        h.on_response(1, value.clone()),
        Some(HandlerEvent::Response { query_id: QueryId(2), response: value })
    );
    assert_eq!(
        h.on_response(0, nobody()),
        Some(HandlerEvent::Response { query_id: QueryId(1), response: nobody() })
    );
}

#[test]
fn an_answer_of_another_kind_fails_the_request() {
    let mut h = server();
    h.request(QueryId(3), find_node(1));
    h.request(QueryId(4), Request::PutValue { record: Record::new(vec![1], vec![2]) });
    h.request(QueryId(5), Request::GetValue { key: vec![1] });
    for stream in 0..3 {
        assert!(matches!(h.poll(NOW), Some(HandlerStep::Send { stream: s, .. }) if s == stream));
    }
    let value = Response::GetValue { record: None, closer_peers: vec![] };
    assert_eq!(h.on_response(0, value), Some(failed(3, HandlerError::Malformed)));
    assert_eq!(h.on_response(1, Response::Ack), Some(failed(4, HandlerError::Malformed)));
    assert_eq!(h.on_response(2, nobody()), Some(failed(5, HandlerError::Malformed)));
    assert_eq!(h.num_outbound(), 0);
}

#[test]
fn a_request_without_an_answer_is_done_when_it_has_arrived() {
    let mut h = server();
    let peer = Peer::new(PeerId::from_bytes(&[1]).unwrap());
    let request = Request::AddProvider {
        key: vec![5],
        provider: PeerInfo { peer, addresses: vec![] },
    };
    h.request(QueryId(0), request.clone());
    assert_eq!(h.poll(NOW), Some(HandlerStep::Send { stream: 0, request }));
    assert_eq!(
        h.on_response(0, Response::Ack),
        Some(HandlerEvent::Response { query_id: QueryId(0), response: Response::Ack })
    );
}

#[test]
fn a_put_is_answered_with_what_was_put() {
    let mut h = server();
    h.request(QueryId(0), Request::PutValue { record: Record::new(vec![1], vec![2]) });
    assert!(h.poll(NOW).is_some());
    let echo = Response::PutValue { key: vec![1], value: vec![2] };
    assert_eq!(
        h.on_response(0, echo.clone()),
        Some(HandlerEvent::Response { query_id: QueryId(0), response: echo })
    );
}

#[test]
fn a_closed_substream_fails_the_request() {
    let mut h = server();
    h.request(QueryId(8), find_node(1));
    assert!(h.poll(NOW).is_some());
    assert_eq!(h.on_stream_closed(5), None);
    assert_eq!(h.on_stream_closed(0), Some(failed(8, HandlerError::Closed)));
    assert_eq!(h.on_response(0, nobody()), None);
}

#[test]
fn a_request_that_is_not_answered_in_time_fails() {
    let mut h = Handler::new(protocol_name(), Mode::Client, 10);
    h.request(QueryId(1), find_node(1));
    assert!(h.poll(NOW).is_some());
    h.request(QueryId(2), find_node(2));
    assert_eq!(h.poll(NOW + 4), Some(HandlerStep::Send { stream: 1, request: find_node(2) }));
    assert_eq!(h.poll(NOW + 9), None);
    // The first runs out of time at 510, the second at 514.
    assert_eq!(
        h.poll(NOW + 10),
        Some(HandlerStep::Notify(failed(1, HandlerError::Timeout)))
    );
    assert_eq!(h.poll(NOW + 10), None);
    assert_eq!(h.poll(NOW + 13), None);
    assert_eq!(
        h.poll(NOW + 14),
        Some(HandlerStep::Notify(failed(2, HandlerError::Timeout)))
    );
    assert_eq!(h.num_outbound(), 0);
    // What comes after the time has run out is dropped.
    assert_eq!(h.on_response(0, nobody()), None);
}

#[test]
fn the_oldest_request_fails_first() {
    let mut h = server();
    h.request(QueryId(1), find_node(1));
    h.request(QueryId(2), find_node(2));
    assert!(h.poll(NOW).is_some());
    assert!(h.poll(NOW).is_some());
    let late = NOW + SUBSTREAM_TIMEOUT;
    assert_eq!(h.poll(late), Some(HandlerStep::Notify(failed(1, HandlerError::Timeout))));
    assert_eq!(h.poll(late), Some(HandlerStep::Notify(failed(2, HandlerError::Timeout))));
    assert_eq!(h.poll(late), None);
}

#[test]
fn a_deadline_stops_at_the_end_of_time() {
    let mut h = Handler::new(protocol_name(), Mode::Server, u64::MAX);
    h.request(QueryId(1), find_node(1));
    assert!(h.poll(NOW).is_some());
    assert_eq!(h.poll(u64::MAX - 1), None);
    assert_eq!(h.poll(u64::MAX), Some(HandlerStep::Notify(failed(1, HandlerError::Timeout))));
}

#[test]
fn a_connection_carries_so_many_requests_at_a_time() {
    let mut h = server();
    for n in 0..MAX_NUM_STREAMS + 2 {
        h.request(QueryId(n), find_node(1));
    }
    for n in 0..MAX_NUM_STREAMS {
        assert_eq!(
            h.poll(NOW),
            Some(HandlerStep::Send { stream: n as u64, request: find_node(1) })
        );
    }
    assert_eq!(h.poll(NOW), None);
    assert_eq!((h.num_pending(), h.num_outbound()), (2, MAX_NUM_STREAMS));
    // When an exchange ends, the next request gets its place.
    assert!(h.on_response(3, nobody()).is_some());
    assert_eq!(
        h.poll(NOW),
        Some(HandlerStep::Send { stream: MAX_NUM_STREAMS as u64, request: find_node(1) })
    );
    assert_eq!(h.poll(NOW), None);
    assert_eq!((h.num_pending(), h.num_outbound()), (1, MAX_NUM_STREAMS));
}

#[test]
fn a_client_takes_no_requests() {
    let mut h = Handler::new(protocol_name(), Mode::Client, SUBSTREAM_TIMEOUT);
    assert_eq!(h.mode(), Mode::Client);
    assert_eq!(h.on_inbound(find_node(1)), None);
    assert_eq!(h.num_inbound(), 0);
    h.set_mode(Mode::Server);
    assert_eq!(
        h.on_inbound(find_node(1)),
        Some(HandlerEvent::InboundRequest { request_id: RequestId(0), request: find_node(1) })
    );
    // A request that was taken is answered, whatever the mode is by then.
    h.set_mode(Mode::Client);
    assert_eq!(h.on_inbound(find_node(2)), None);
    assert_eq!(h.respond(RequestId(0), Some(nobody())), Some(nobody()));
}

#[test]
fn the_requests_of_the_peer_are_answered_by_their_identifiers() {
    let mut h = server();
    let get = Request::GetValue { key: vec![1] };
    assert_eq!(
        h.on_inbound(find_node(1)),
        Some(HandlerEvent::InboundRequest { request_id: RequestId(0), request: find_node(1) })
    );
    assert_eq!(
        h.on_inbound(get.clone()),
        Some(HandlerEvent::InboundRequest { request_id: RequestId(1), request: get })
    );
    assert_eq!(h.num_inbound(), 2);
    let value = Response::GetValue {
        record: Some(Record::new(vec![1], vec![2])),
        closer_peers: vec![],
    };
    assert_eq!(h.respond(RequestId(1), Some(value.clone())), Some(value.clone()));
    assert_eq!(h.num_inbound(), 1);
    // Answered once, a request cannot be answered again.
    assert_eq!(h.respond(RequestId(1), Some(value.clone())), None);
    // An answer of another kind is not written; the request is given up.
    assert_eq!(h.respond(RequestId(0), Some(value)), None);
    assert_eq!(h.num_inbound(), 0);
    assert_eq!(h.respond(RequestId(0), Some(nobody())), None);
    assert_eq!(h.respond(RequestId(9), None), None);
}

#[test]
fn a_request_of_the_peer_can_be_given_up() {
    let mut h = server();
    assert!(h.on_inbound(find_node(1)).is_some());
    assert_eq!(h.respond(RequestId(0), None), None);
    assert_eq!(h.num_inbound(), 0);
    // The identifier is not used again.
    assert_eq!(
        h.on_inbound(find_node(2)),
        Some(HandlerEvent::InboundRequest { request_id: RequestId(1), request: find_node(2) })
    );
}

#[test]
fn a_peer_has_so_many_requests_open_at_a_time() {
    let mut h = server();
    for n in 0..MAX_NUM_STREAMS {
        assert_eq!(
            h.on_inbound(find_node(1)),
            Some(HandlerEvent::InboundRequest {
                request_id: RequestId(n as u64),
                request: find_node(1)
            })
        );
    }
    assert_eq!(h.on_inbound(find_node(1)), None);
    assert_eq!(h.num_inbound(), MAX_NUM_STREAMS);
    assert_eq!(h.respond(RequestId(4), Some(nobody())), Some(nobody()));
    assert_eq!(
        h.on_inbound(find_node(1)),
        Some(HandlerEvent::InboundRequest {
            request_id: RequestId(MAX_NUM_STREAMS as u64),
            request: find_node(1)
        })
    );
}
