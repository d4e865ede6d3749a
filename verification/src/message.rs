//! The messages that peers exchange: requests, and the responses to them.

use crate::bytes::views;
use crate::nearest::Peer;
use crate::record::Record;
use vstd::prelude::*;

verus! {

/// A peer with the addresses under which it was last known.
#[derive(Clone, Debug, PartialEq, Eq)]
pub struct PeerInfo {
    pub peer: Peer,
    pub addresses: Vec<Vec<u8>>,
}

/// What a peer with its addresses holds.
pub struct PeerInfoView {
    pub peer: Peer,
    pub addresses: Seq<Seq<u8>>,
}

impl View for PeerInfo {
    type V = PeerInfoView;

    open spec fn view(&self) -> PeerInfoView {
        PeerInfoView { peer: self.peer, addresses: views(self.addresses@) }
    }
}

/// The peers of a list of peers with addresses, in its order.
pub open spec fn info_peers(s: Seq<PeerInfo>) -> Seq<Peer> {
    s.map_values(|i: PeerInfo| i.peer)
}

/// What the peers with addresses of a list hold, in its order.
pub open spec fn info_views(s: Seq<PeerInfo>) -> Seq<PeerInfoView> {
    s.map_values(|i: PeerInfo| i@)
}

/// The peers of a list of peers with addresses.
pub fn peers_of_infos(infos: &Vec<PeerInfo>) -> (r: Vec<Peer>)
    ensures
        r@ == info_peers(infos@),
{
    let n = infos.len();
    let mut out: Vec<Peer> = Vec::new();
    let mut i: usize = 0;
    while i < n
        invariant
            0 <= i <= n,
            n == infos@.len(),
            out@.len() == i,
            forall|j: int| 0 <= j < i ==> (#[trigger] out@[j]) == infos@[j].peer,
        decreases n - i,
    {
        out.push(infos[i].peer);
        i += 1;
    }
    assert(out@ =~= info_peers(infos@));
    out
}

/// A request to a peer.
#[derive(Clone, Debug, PartialEq, Eq)]
pub enum Request {
    /// For the peers closest to a key.
    FindNode { key: Vec<u8> },
    /// For the providers of a key, and the peers closest to it.
    GetProviders { key: Vec<u8> },
    /// To note that a peer provides a key.
    AddProvider { key: Vec<u8>, provider: PeerInfo },
    /// For the record under a key, and the peers closest to it.
    GetValue { key: Vec<u8> },
    /// To store a record.
    PutValue { record: Record },
}

/// The response to a request.
#[derive(Clone, Debug, PartialEq, Eq)]
pub enum Response {
    /// To `FindNode`.
    FindNode { closer_peers: Vec<PeerInfo> },
    /// To `GetProviders`.
    GetProviders { closer_peers: Vec<PeerInfo>, providers: Vec<PeerInfo> },
    /// To `GetValue`.
    GetValue { record: Option<Record>, closer_peers: Vec<PeerInfo> },
    /// To `PutValue`: the key and the value that were sent.
    PutValue { key: Vec<u8>, value: Vec<u8> },
    /// To `AddProvider`, which has no answer of its own: the request arrived.
    Ack,
}

} // verus!
