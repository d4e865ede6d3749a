//! The handler of one connection. It carries the requests of the local node
//! to the peer and the requests of the peer to the local node, one exchange
//! to a substream, and tells the behaviour of every request that got no
//! usable answer.

use crate::bytes::{bytes_copy, bytes_eq, list_position, views};
use crate::candidates::{deadline, deadline_after};
use crate::config::Mode;
use crate::message::{Request, Response};
use crate::query::QueryId;
use vstd::prelude::*;

verus! {

/// The number of exchanges that a connection carries at a time, each way.
pub const MAX_NUM_STREAMS: usize = 32;

/// The time in seconds that a peer has to answer a request.
pub const SUBSTREAM_TIMEOUT: u64 = 10;

/// The name under which the protocol is negotiated: `/ipfs/kad/1.0.0`.
pub open spec fn default_protocol() -> Seq<u8> {
    seq![47u8, 105, 112, 102, 115, 47, 107, 97, 100, 47, 49, 46, 48, 46, 48]
}

/// The name under which the protocol is negotiated.
pub fn protocol_name() -> (name: Vec<u8>)
    ensures
        name@ == default_protocol(),
{
    let name: Vec<u8> = vec![47u8, 105, 112, 102, 115, 47, 107, 97, 100, 47, 49, 46, 48, 46, 48];
    assert(name@ =~= default_protocol());
    name
}

/// The identifier of a request of the peer, unique within the connection.
#[derive(Clone, Copy, Debug, PartialEq, Eq, Structural)]
pub struct RequestId(pub u64);

/// The kinds of request.
#[derive(Clone, Copy, Debug, PartialEq, Eq, Structural)]
pub enum RequestKind {
    FindNode,
    GetProviders,
    AddProvider,
    GetValue,
    PutValue,
}

/// The kind of a request.
pub open spec fn kind_of(request: Request) -> RequestKind {
    match request {
        Request::FindNode { .. } => RequestKind::FindNode,
        Request::GetProviders { .. } => RequestKind::GetProviders,
        Request::AddProvider { .. } => RequestKind::AddProvider,
        Request::GetValue { .. } => RequestKind::GetValue,
        Request::PutValue { .. } => RequestKind::PutValue,
    }
}

/// Whether the response is one to a request of the kind.
pub open spec fn answers(kind: RequestKind, response: Response) -> bool {
    match (kind, response) {
        (RequestKind::FindNode, Response::FindNode { .. }) => true,
        (RequestKind::GetProviders, Response::GetProviders { .. }) => true,
        (RequestKind::AddProvider, Response::Ack) => true,
        (RequestKind::GetValue, Response::GetValue { .. }) => true,
        (RequestKind::PutValue, Response::PutValue { .. }) => true,
        _ => false,
    }
}

/// The kind of a request.
pub fn kind(request: &Request) -> (k: RequestKind)
    ensures
        k == kind_of(*request),
{
    match request {
        Request::FindNode { .. } => RequestKind::FindNode,
        Request::GetProviders { .. } => RequestKind::GetProviders,
        Request::AddProvider { .. } => RequestKind::AddProvider,
        Request::GetValue { .. } => RequestKind::GetValue,
        Request::PutValue { .. } => RequestKind::PutValue,
    }
}

/// Whether the response is one to a request of the kind.
pub fn is_answer(kind: RequestKind, response: &Response) -> (r: bool)
    ensures
        r == answers(kind, *response),
{
    match (kind, response) {
        (RequestKind::FindNode, Response::FindNode { .. }) => true,
        (RequestKind::GetProviders, Response::GetProviders { .. }) => true,
        (RequestKind::AddProvider, Response::Ack) => true,
        (RequestKind::GetValue, Response::GetValue { .. }) => true,
        (RequestKind::PutValue, Response::PutValue { .. }) => true,
        _ => false,
    }
}

/// Why a request of the local node got no answer.
#[derive(Clone, Copy, Debug, PartialEq, Eq, Structural)]
pub enum HandlerError {
    /// The peer did not answer in time.
    Timeout,
    /// The peer answered with a message that is no answer to the request.
    Malformed,
    /// The substream was closed before an answer came, or none could be
    /// opened.
    Closed,
}

/// What the handler tells the behaviour.
#[derive(Debug, PartialEq, Eq)]
pub enum HandlerEvent {
    /// The peer speaks the protocol.
    ProtocolConfirmed,
    /// The peer does not speak the protocol, or no longer does.
    ProtocolNotSupported,
    /// The peer asks.
    InboundRequest { request_id: RequestId, request: Request },
    /// The peer has answered a request of a query.
    Response { query_id: QueryId, response: Response },
    /// A request of a query got no answer.
    RequestFailed { query_id: QueryId, error: HandlerError },
}

/// What a handler does next.
#[derive(Debug, PartialEq, Eq)]
pub enum HandlerStep {
    /// It tells the behaviour.
    Notify(HandlerEvent),
    /// It opens a substream with the number and sends the request on it.
    Send { stream: u64, request: Request },
}

/// A request of the local node that waits for a substream.
#[derive(Debug, PartialEq, Eq)]
pub struct Outgoing {
    pub query_id: QueryId,
    pub request: Request,
}

/// A request of the local node that the peer has yet to answer.
#[derive(Clone, Copy, Debug, PartialEq, Eq)]
pub struct Exchange {
    pub stream: u64,
    pub query_id: QueryId,
    pub kind: RequestKind,
    pub deadline: u64,
}

/// A request of the peer that the behaviour has yet to answer.
#[derive(Clone, Copy, Debug, PartialEq, Eq, Structural)]
pub struct Awaited {
    pub request_id: RequestId,
    pub kind: RequestKind,
}

/// What a handler holds.
pub struct HandlerState {
    /// The name under which the protocol is negotiated.
    pub protocol: Seq<u8>,
    /// Whether the peer's requests are taken.
    pub mode: Mode,
    /// The time that the peer has to answer a request.
    pub timeout: u64,
    /// What the behaviour was last told of the peer's support.
    pub supported: Option<bool>,
    /// The requests that wait for a substream, the oldest first.
    pub pending: Seq<Outgoing>,
    /// The requests that the peer has yet to answer, the oldest first.
    pub exchanges: Seq<Exchange>,
    /// The requests of the peer that the behaviour has yet to answer.
    pub awaited: Seq<Awaited>,
    /// The number of the next substream.
    pub next_stream: u64,
    /// The number of the peer's next request.
    pub next_request: u64,
}

/// The exchange at `i` is on the substream.
pub open spec fn stream_at(s: Seq<Exchange>, stream: u64, i: int) -> bool {
    0 <= i < s.len() && s[i].stream == stream
}

/// An exchange is under way on the substream.
pub open spec fn is_open(s: Seq<Exchange>, stream: u64) -> bool {
    exists|i: int| stream_at(s, stream, i)
}

/// The request at `i` has the identifier.
pub open spec fn request_at(s: Seq<Awaited>, id: RequestId, i: int) -> bool {
    0 <= i < s.len() && s[i].request_id == id
}

/// The behaviour has yet to answer the request with the identifier.
pub open spec fn is_awaited(s: Seq<Awaited>, id: RequestId) -> bool {
    exists|i: int| request_at(s, id, i)
}

/// The exchange at `i` is the oldest that has run out of time.
pub open spec fn expires_first(s: Seq<Exchange>, now: u64, i: int) -> bool {
    &&& 0 <= i < s.len()
    &&& s[i].deadline <= now
    &&& forall|j: int| 0 <= j < i ==> (#[trigger] s[j]).deadline > now
}

/// No exchange has run out of time.
pub open spec fn none_expired(s: Seq<Exchange>, now: u64) -> bool {
    forall|j: int| 0 <= j < s.len() ==> (#[trigger] s[j]).deadline > now
}

/// The handler holds no more than it may, and no two exchanges share a
/// number.
pub open spec fn valid(s: HandlerState) -> bool {
    &&& s.exchanges.len() <= MAX_NUM_STREAMS
    &&& s.awaited.len() <= MAX_NUM_STREAMS
    &&& forall|i: int| 0 <= i < s.exchanges.len()
        ==> (#[trigger] s.exchanges[i]).stream < s.next_stream
    &&& forall|i: int, j: int|
        0 <= i < j < s.exchanges.len() ==> (#[trigger] s.exchanges[i]).stream != (
        #[trigger] s.exchanges[j]).stream
    &&& forall|i: int|
        0 <= i < s.awaited.len() ==> (#[trigger] s.awaited[i]).request_id.0 < s.next_request
    &&& forall|i: int, j: int|
        0 <= i < j < s.awaited.len() ==> (#[trigger] s.awaited[i]).request_id != (
        #[trigger] s.awaited[j]).request_id
}

/// What the behaviour is told when the peer's support is seen to be
/// `supported`.
pub open spec fn support_event(known: Option<bool>, supported: bool) -> Option<HandlerEvent> {
    if known == Some(supported) {
        None
    } else if supported {
        Some(HandlerEvent::ProtocolConfirmed)
    } else {
        Some(HandlerEvent::ProtocolNotSupported)
    }
}

/// What the behaviour is told when the peer's message arrives on an
/// exchange.
pub open spec fn outcome(exchange: Exchange, response: Response) -> HandlerEvent {
    if answers(exchange.kind, response) {
        HandlerEvent::Response { query_id: exchange.query_id, response }
    } else {
        HandlerEvent::RequestFailed { query_id: exchange.query_id, error: HandlerError::Malformed }
    }
}

/// What is written to the peer when the behaviour answers a request of the
/// kind: the response if it is one to such a request.
pub open spec fn reply(kind: RequestKind, response: Option<Response>) -> Option<Response> {
    match response {
        Some(r) if answers(kind, r) => Some(r),
        _ => None,
    }
}

/// Whether a request of the peer is taken.
pub open spec fn takes(s: HandlerState) -> bool {
    s.mode == Mode::Server && s.awaited.len() < MAX_NUM_STREAMS && s.next_request < u64::MAX
}

/// What a handler in state `pre` does at time `now`, and the state `post`
/// that it is in then. The oldest exchange that has run out of time fails.
/// Where none has, the oldest request that waits is sent, if there is room
/// for an exchange. Else nothing happens.
pub open spec fn poll_step(
    pre: HandlerState,
    now: u64,
    post: HandlerState,
    r: Option<HandlerStep>,
) -> bool {
    if !none_expired(pre.exchanges, now) {
        exists|i: int| timed_out_at(pre, now, i, post, r)
    } else if pre.pending.len() > 0 && pre.exchanges.len() < MAX_NUM_STREAMS {
        let first = pre.pending[0];
        if pre.next_stream == u64::MAX {
            &&& post == HandlerState { pending: pre.pending.drop_first(), ..pre }
            &&& r == Some(
                HandlerStep::Notify(
                    HandlerEvent::RequestFailed {
                        query_id: first.query_id,
                        error: HandlerError::Closed,
                    },
                ),
            )
        } else {
            &&& post == HandlerState {
                pending: pre.pending.drop_first(),
                exchanges: pre.exchanges.push(
                    Exchange {
                        stream: pre.next_stream,
                        query_id: first.query_id,
                        kind: kind_of(first.request),
                        deadline: deadline_after(now, pre.timeout),
                    },
                ),
                next_stream: (pre.next_stream + 1) as u64,
                ..pre
            }
            &&& r == Some(HandlerStep::Send { stream: pre.next_stream, request: first.request })
        }
    } else {
        post == pre && r is None
    }
}

/// The exchange at `i` is the oldest that has run out of time, and the
/// handler fails it.
pub open spec fn timed_out_at(
    pre: HandlerState,
    now: u64,
    i: int,
    post: HandlerState,
    r: Option<HandlerStep>,
) -> bool {
    &&& expires_first(pre.exchanges, now, i)
    &&& post == HandlerState { exchanges: pre.exchanges.remove(i), ..pre }
    &&& r == Some(
        HandlerStep::Notify(
            HandlerEvent::RequestFailed {
                query_id: pre.exchanges[i].query_id,
                error: HandlerError::Timeout,
            },
        ),
    )
}

/// The handler of one connection.
pub struct Handler {
    protocol: Vec<u8>,
    mode: Mode,
    timeout: u64,
    supported: Option<bool>,
    pending: Vec<Outgoing>,
    exchanges: Vec<Exchange>,
    awaited: Vec<Awaited>,
    next_stream: u64,
    next_request: u64,
}

impl View for Handler {
    type V = HandlerState;

    closed spec fn view(&self) -> HandlerState {
        HandlerState {
            protocol: self.protocol@,
            mode: self.mode,
            timeout: self.timeout,
            supported: self.supported,
            pending: self.pending@,
            exchanges: self.exchanges@,
            awaited: self.awaited@,
            next_stream: self.next_stream,
            next_request: self.next_request,
        }
    }
}

impl Handler {
    /// The handler holds no more than it may, and no two exchanges share a
    /// number.
    pub open spec fn wf(&self) -> bool {
        valid(self@)
    }

    /// A handler for a connection on which nothing has happened yet.
    pub fn new(protocol: Vec<u8>, mode: Mode, timeout: u64) -> (h: Self)
        ensures
            h.wf(),
            h@ == (HandlerState {
                protocol: protocol@,
                mode,
                timeout,
                supported: None,
                pending: Seq::empty(),
                exchanges: Seq::empty(),
                awaited: Seq::empty(),
                next_stream: 0,
                next_request: 0,
            }),
    {
        Handler {
            protocol,
            mode,
            timeout,
            supported: None,
            pending: Vec::new(),
            exchanges: Vec::new(),
            awaited: Vec::new(),
            next_stream: 0,
            next_request: 0,
        }
    }

    /// The name under which the protocol is negotiated.
    pub fn protocol(&self) -> (name: Vec<u8>)
        ensures
            name@ == self@.protocol,
    {
        bytes_copy(self.protocol.as_slice())
    }

    /// Whether the peer's requests are taken.
    pub fn mode(&self) -> (m: Mode)
        ensures
            m == self@.mode,
    {
        self.mode
    }

    /// Whether the peer is known to speak the protocol, if anything is known.
    pub fn supported(&self) -> (s: Option<bool>)
        ensures
            s == self@.supported,
    {
        self.supported
    }

    /// The number of requests that wait for a substream.
    pub fn num_pending(&self) -> (n: usize)
        ensures
            n == self@.pending.len(),
    {
        self.pending.len()
    }

    /// The number of requests that the peer has yet to answer.
    pub fn num_outbound(&self) -> (n: usize)
        ensures
            n == self@.exchanges.len(),
    {
        self.exchanges.len()
    }

    /// The number of requests of the peer that the behaviour has yet to
    /// answer.
    pub fn num_inbound(&self) -> (n: usize)
        ensures
            n == self@.awaited.len(),
    {
        self.awaited.len()
    }

    /// From now on the peer's requests are taken if the mode is `Server`,
    /// and refused if it is `Client`. The requests that were taken before
    /// can still be answered.
    pub fn set_mode(&mut self, mode: Mode)
        ensures
            final(self)@ == (HandlerState { mode, ..old(self)@ }),
    {
        self.mode = mode;
    }

    /// Takes note of whether the peer speaks the protocol, and says what the
    /// behaviour is to be told of it.
    fn note_support(&mut self, supported: bool) -> (r: Option<HandlerEvent>)
        ensures
            final(self)@ == (HandlerState { supported: Some(supported), ..old(self)@ }),
            r == support_event(old(self)@.supported, supported),
    {
        let known = self.supported;
        self.supported = Some(supported);
        match known {
            Some(s) if s == supported => None,
            _ => if supported {
                Some(HandlerEvent::ProtocolConfirmed)
            } else {
                Some(HandlerEvent::ProtocolNotSupported)
            },
        }
    }

    /// A substream was negotiated under `name`. If that is the name of the
    /// protocol, the peer speaks it, and the behaviour is told so unless it
    /// knows.
    pub fn on_negotiated(&mut self, name: &Vec<u8>) -> (r: Option<HandlerEvent>)
        ensures
            name@ == old(self)@.protocol ==> final(self)@ == (HandlerState {
                supported: Some(true),
                ..old(self)@
            }) && r == support_event(old(self)@.supported, true),
            name@ != old(self)@.protocol ==> final(self)@ == old(self)@ && r is None,
    {
        if bytes_eq(name.as_slice(), self.protocol.as_slice()) {
            self.note_support(true)
        } else {
            None
        }
    }

    /// The peer has named the protocols that it speaks. The behaviour is
    /// told whether this one is among them, unless it knows.
    pub fn on_remote_protocols(&mut self, names: &Vec<Vec<u8>>) -> (r: Option<HandlerEvent>)
        ensures
            final(self)@ == (HandlerState {
                supported: Some(views(names@).contains(old(self)@.protocol)),
                ..old(self)@
            }),
            r == support_event(
                old(self)@.supported,
                views(names@).contains(old(self)@.protocol),
            ),
    {
        let found = list_position(names, self.protocol.as_slice());
        let supported = found.is_some();
        proof {
            let listed = views(names@);
            assert(forall|j: int| 0 <= j < listed.len() ==> listed[j] == (#[trigger] names@[j])@);
            if found is Some {
                assert(listed[found->0 as int] == self@.protocol);
            }
            assert(supported == listed.contains(self@.protocol));
        }
        self.note_support(supported)
    }

    /// Takes a request of a query to the peer. It is sent when its turn
    /// comes.
    pub fn request(&mut self, query_id: QueryId, request: Request)
        ensures
            final(self)@ == (HandlerState {
                pending: old(self)@.pending.push(Outgoing { query_id, request }),
                ..old(self)@
            }),
    {
        self.pending.push(Outgoing { query_id, request });
    }

    /// The place of the oldest exchange that has run out of time.
    fn first_expired(&self, now: u64) -> (r: Option<usize>)
        ensures
            match r {
                Some(i) => expires_first(self@.exchanges, now, i as int),
                None => none_expired(self@.exchanges, now),
            },
    {
        let n = self.exchanges.len();
        let mut i: usize = 0;
        while i < n
            invariant
                0 <= i <= n,
                n == self.exchanges@.len(),
                forall|j: int| 0 <= j < i ==> (#[trigger] self.exchanges@[j]).deadline > now,
            decreases n - i,
        {
            if self.exchanges[i].deadline <= now {
                return Some(i);
            }
            i += 1;
        }
        None
    }

    /// What the handler does next at time `now`, if anything.
    pub fn poll(&mut self, now: u64) -> (r: Option<HandlerStep>)
        requires
            old(self).wf(),
        ensures
            final(self).wf(),
            poll_step(old(self)@, now, final(self)@, r),
    {
        match self.first_expired(now) {
            Some(i) => {
                let exchange = self.exchanges.remove(i);
                let r = Some(
                    HandlerStep::Notify(
                        HandlerEvent::RequestFailed {
                            query_id: exchange.query_id,
                            error: HandlerError::Timeout,
                        },
                    ),
                );
                proof {
                    assert(old(self)@.exchanges[i as int].deadline <= now);
                    assert(!none_expired(old(self)@.exchanges, now));
                    assert(timed_out_at(old(self)@, now, i as int, self@, r));
                }
                r
            },
            None => {
                if self.pending.len() == 0 || self.exchanges.len() >= MAX_NUM_STREAMS {
                    return None;
                }
                let first = self.pending.remove(0);
                assert(self@.pending =~= old(self)@.pending.drop_first());
                if self.next_stream == u64::MAX {
                    return Some(
                        HandlerStep::Notify(
                            HandlerEvent::RequestFailed {
                                query_id: first.query_id,
                                error: HandlerError::Closed,
                            },
                        ),
                    );
                }
                let stream = self.next_stream;
                self.exchanges.push(
                    Exchange {
                        stream,
                        query_id: first.query_id,
                        kind: kind(&first.request),
                        deadline: deadline(now, self.timeout),
                    },
                );
                self.next_stream = stream + 1;
                Some(HandlerStep::Send { stream, request: first.request })
            },
        }
    }

    /// The place of the exchange on the substream.
    fn find_stream(&self, stream: u64) -> (r: Option<usize>)
        ensures
            match r {
                Some(i) => stream_at(self@.exchanges, stream, i as int),
                None => !is_open(self@.exchanges, stream),
            },
    {
        let n = self.exchanges.len();
        let mut i: usize = 0;
        while i < n
            invariant
                0 <= i <= n,
                n == self.exchanges@.len(),
                forall|j: int| 0 <= j < i ==> !stream_at(self.exchanges@, stream, j),
            decreases n - i,
        {
            if self.exchanges[i].stream == stream {
                return Some(i);
            }
            i += 1;
        }
        None
    }

    /// The place of the request with the identifier.
    fn find_request(&self, id: RequestId) -> (r: Option<usize>)
        ensures
            match r {
                Some(i) => request_at(self@.awaited, id, i as int),
                None => !is_awaited(self@.awaited, id),
            },
    {
        let n = self.awaited.len();
        let mut i: usize = 0;
        while i < n
            invariant
                0 <= i <= n,
                n == self.awaited@.len(),
                forall|j: int| 0 <= j < i ==> !request_at(self.awaited@, id, j),
            decreases n - i,
        {
            if self.awaited[i].request_id.0 == id.0 {
                return Some(i);
            }
            i += 1;
        }
        None
    }

    /// A message of the peer has arrived on the substream. If an exchange
    /// is under way on it, the exchange ends: with the response if the
    /// message answers the request, as failed if it does not. A message on
    /// another substream is dropped.
    pub fn on_response(&mut self, stream: u64, response: Response) -> (r: Option<HandlerEvent>)
        requires
            old(self).wf(),
        ensures
            final(self).wf(),
            !is_open(final(self)@.exchanges, stream),
            !is_open(old(self)@.exchanges, stream) ==> r is None && final(self)@ == old(self)@,
            forall|i: int| #[trigger]
                stream_at(old(self)@.exchanges, stream, i) ==> final(self)@ == (HandlerState {
                    exchanges: old(self)@.exchanges.remove(i),
                    ..old(self)@
                }) && r == Some(outcome(old(self)@.exchanges[i], response)),
    {
        match self.find_stream(stream) {
            None => None,
            Some(p) => {
                let exchange = self.exchanges.remove(p);
                proof {
                    lemma_stream_gone(old(self)@.exchanges, stream, p as int);
                }
                if is_answer(exchange.kind, &response) {
                    Some(HandlerEvent::Response { query_id: exchange.query_id, response })
                } else {
                    Some(
                        HandlerEvent::RequestFailed {
                            query_id: exchange.query_id,
                            error: HandlerError::Malformed,
                        },
                    )
                }
            },
        }
    }

    /// The substream was closed with no message of the peer. If an exchange
    /// was under way on it, the request has failed.
    pub fn on_stream_closed(&mut self, stream: u64) -> (r: Option<HandlerEvent>)
        requires
            old(self).wf(),
        ensures
            final(self).wf(),
            !is_open(final(self)@.exchanges, stream),
            !is_open(old(self)@.exchanges, stream) ==> r is None && final(self)@ == old(self)@,
            forall|i: int| #[trigger]
                stream_at(old(self)@.exchanges, stream, i) ==> final(self)@ == (HandlerState {
                    exchanges: old(self)@.exchanges.remove(i),
                    ..old(self)@
                }) && r == Some(
                    HandlerEvent::RequestFailed {
                        query_id: old(self)@.exchanges[i].query_id,
                        error: HandlerError::Closed,
                    },
                ),
    {
        match self.find_stream(stream) {
            None => None,
            Some(p) => {
                let exchange = self.exchanges.remove(p);
                proof {
                    lemma_stream_gone(old(self)@.exchanges, stream, p as int);
                }
                Some(
                    HandlerEvent::RequestFailed {
                        query_id: exchange.query_id,
                        error: HandlerError::Closed,
                    },
                )
            },
        }
    }

    /// A request of the peer has arrived. In server mode, and with room
    /// for it, it is handed to the behaviour under a new identifier. Else
    /// it is dropped.
    pub fn on_inbound(&mut self, request: Request) -> (r: Option<HandlerEvent>)
        requires
            old(self).wf(),
        ensures
            final(self).wf(),
            !takes(old(self)@) ==> r is None && final(self)@ == old(self)@,
            takes(old(self)@) ==> {
                let request_id = RequestId(old(self)@.next_request);
                &&& r == Some(HandlerEvent::InboundRequest { request_id, request })
                &&& final(self)@ == (HandlerState {
                    awaited: old(self)@.awaited.push(Awaited { request_id,
                        kind: kind_of(request) }),
                    next_request: (old(self)@.next_request + 1) as u64,
                    ..old(self)@
                })
            },
    {
        let serves = match self.mode {
            Mode::Server => true,
            Mode::Client => false,
        };
        if !serves || self.awaited.len() >= MAX_NUM_STREAMS || self.next_request == u64::MAX {
            return None;
        }
        let request_id = RequestId(self.next_request);
        self.awaited.push(Awaited { request_id, kind: kind(&request) });
        self.next_request = self.next_request + 1;
        Some(HandlerEvent::InboundRequest { request_id, request })
    }

    /// The behaviour answers the request of the peer with the identifier,
    /// or gives it up with `None`. If the request waits for an answer, it
    /// does so no longer, and the result is what to write to the peer
    /// before the substream is closed: the response if it is one to that
    /// request.
    pub fn respond(&mut self, id: RequestId, response: Option<Response>) -> (r: Option<Response>)
        requires
            old(self).wf(),
        ensures
            final(self).wf(),
            !is_awaited(final(self)@.awaited, id),
            !is_awaited(old(self)@.awaited, id) ==> r is None && final(self)@ == old(self)@,
            forall|i: int| #[trigger]
                request_at(old(self)@.awaited, id, i) ==> final(self)@ == (HandlerState {
                    awaited: old(self)@.awaited.remove(i),
                    ..old(self)@
                }) && r == reply(old(self)@.awaited[i].kind, response),
    {
        match self.find_request(id) {
            None => None,
            Some(p) => {
                let awaited = self.awaited.remove(p);
                proof {
                    lemma_request_gone(old(self)@.awaited, id, p as int);
                }
                match response {
                    Some(r) => if is_answer(awaited.kind, &r) {
                        Some(r)
                    } else {
                        None
                    },
                    None => None,
                }
            },
        }
    }
}

/// Among exchanges of which no two share a substream, the one on a
/// substream is at one place, and none is left on it when that one goes.
pub proof fn lemma_stream_gone(s: Seq<Exchange>, stream: u64, p: int)
    requires
        stream_at(s, stream, p),
        forall|i: int, j: int|
            0 <= i < j < s.len() ==> (#[trigger] s[i]).stream != (#[trigger] s[j]).stream,
    ensures
        forall|i: int| stream_at(s, stream, i) ==> i == p,
        !is_open(s.remove(p), stream),
{
    assert forall|i: int| stream_at(s, stream, i) implies i == p by {
        if i < p {
            assert(s[i].stream != s[p].stream);
        } else if p < i {
            assert(s[p].stream != s[i].stream);
        }
    }
    let t = s.remove(p);
    assert forall|i: int| !stream_at(t, stream, i) by {
        if 0 <= i < t.len() {
            if i < p {
                assert(t[i] == s[i]);
                assert(s[i].stream != s[p].stream);
            } else {
                assert(t[i] == s[i + 1]);
                assert(s[p].stream != s[i + 1].stream);
            }
        }
    }
}

/// Among requests of which no two share an identifier, the one with an
/// identifier is at one place, and none is left with it when that one goes.
pub proof fn lemma_request_gone(s: Seq<Awaited>, id: RequestId, p: int)
    requires
        request_at(s, id, p),
        forall|i: int, j: int|
            0 <= i < j < s.len() ==> (#[trigger] s[i]).request_id != (#[trigger] s[j]).request_id,
    ensures
        forall|i: int| request_at(s, id, i) ==> i == p,
        !is_awaited(s.remove(p), id),
{
    assert forall|i: int| request_at(s, id, i) implies i == p by {
        if i < p {
            assert(s[i].request_id != s[p].request_id);
        } else if p < i {
            assert(s[p].request_id != s[i].request_id);
        }
    }
    let t = s.remove(p);
    assert forall|i: int| !request_at(t, id, i) by {
        if 0 <= i < t.len() {
            if i < p {
                assert(t[i] == s[i]);
                assert(s[i].request_id != s[p].request_id);
            } else {
                assert(t[i] == s[i + 1]);
                assert(s[p].request_id != s[i + 1].request_id);
            }
        }
    }
}

} // verus!
