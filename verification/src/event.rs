//! The events that the behaviour reports to its user.

use crate::config::Mode;
use crate::nearest::Peer;
use crate::query::{ProgressStep, QueryId, QueryStats};
use crate::record::{ProviderRecord, Record};
use vstd::prelude::*;

verus! {

/// A lookup of the bootstrap is done.
#[derive(Clone, Debug, PartialEq, Eq)]
pub struct BootstrapOk {
    /// The peer whose neighbourhood was looked up.
    pub peer: Peer,
    /// The number of lookups that the bootstrap has yet to do.
    pub num_remaining: u32,
}

/// A lookup of the bootstrap has failed.
#[derive(Clone, Debug, PartialEq, Eq)]
pub enum BootstrapError {
    /// The lookup ran out of time.
    Timeout { peer: Peer, num_remaining: Option<u32> },
}

/// The bootstrap could not start: the routing table is empty.
#[derive(Clone, Copy, Debug, PartialEq, Eq)]
pub struct NoKnownPeers;

/// The closest peers to a key.
#[derive(Clone, Debug, PartialEq, Eq)]
pub struct GetClosestPeersOk {
    pub key: Vec<u8>,
    pub peers: Vec<Peer>,
}

/// The lookup of the closest peers has failed.
#[derive(Clone, Debug, PartialEq, Eq)]
pub enum GetClosestPeersError {
    /// The lookup ran out of time; these peers had answered.
    Timeout { key: Vec<u8>, peers: Vec<Peer> },
}

/// A record with the peer that it came from; none for the local store.
#[derive(Clone, Debug, PartialEq, Eq)]
pub struct PeerRecord {
    pub peer: Option<Peer>,
    pub record: Record,
}

/// Progress of a lookup of a record.
#[derive(Clone, Debug, PartialEq, Eq)]
pub enum GetRecordOk {
    /// A record was found.
    FoundRecord(PeerRecord),
    /// The lookup is done; the peers closest to the key that answered
    /// without the record are candidates for caching it.
    FinishedWithNoAdditionalRecord { cache_candidates: Vec<Peer> },
}

/// The lookup of a record has failed.
#[derive(Clone, Debug, PartialEq, Eq)]
pub enum GetRecordError {
    /// No peer had the record.
    NotFound { key: Vec<u8>, closest_peers: Vec<Peer> },
    /// Fewer records were found than the quorum asks for.
    QuorumFailed { key: Vec<u8>, found: usize, quorum: usize },
    /// The lookup ran out of time.
    Timeout { key: Vec<u8> },
}

/// A record is stored at a quorum of the closest peers.
#[derive(Clone, Debug, PartialEq, Eq)]
pub struct PutRecordOk {
    pub key: Vec<u8>,
}

/// Storing a record has failed.
#[derive(Clone, Debug, PartialEq, Eq)]
pub enum PutRecordError {
    /// Fewer peers than the quorum stored the record.
    QuorumFailed { key: Vec<u8>, success: Vec<Peer>, quorum: usize },
    /// The query ran out of time.
    Timeout { key: Vec<u8>, success: Vec<Peer>, quorum: usize },
}

/// Progress of a lookup of providers.
#[derive(Clone, Debug, PartialEq, Eq)]
pub enum GetProvidersOk {
    /// Providers were found.
    FoundProviders { key: Vec<u8>, providers: Vec<Peer> },
    /// The lookup is done; these are the closest peers that answered.
    FinishedWithNoAdditionalRecord { closest_peers: Vec<Peer> },
}

/// The lookup of providers has failed.
#[derive(Clone, Debug, PartialEq, Eq)]
pub enum GetProvidersError {
    /// The lookup ran out of time.
    Timeout { key: Vec<u8>, closest_peers: Vec<Peer> },
}

/// The closest peers were told that the local node provides a key.
#[derive(Clone, Debug, PartialEq, Eq)]
pub struct AddProviderOk {
    pub key: Vec<u8>,
}

/// Announcing a provider has failed.
#[derive(Clone, Debug, PartialEq, Eq)]
pub enum AddProviderError {
    /// The query ran out of time.
    Timeout { key: Vec<u8> },
}

/// The result that a query reports.
#[derive(Debug, PartialEq, Eq)]
pub enum QueryResult {
    Bootstrap(Result<BootstrapOk, BootstrapError>),
    GetClosestPeers(Result<GetClosestPeersOk, GetClosestPeersError>),
    GetProviders(Result<GetProvidersOk, GetProvidersError>),
    StartProviding(Result<AddProviderOk, AddProviderError>),
    RepublishProvider(Result<AddProviderOk, AddProviderError>),
    GetRecord(Result<GetRecordOk, GetRecordError>),
    PutRecord(Result<PutRecordOk, PutRecordError>),
    RepublishRecord(Result<PutRecordOk, PutRecordError>),
}

/// A request of another peer that was served.
#[derive(Clone, Debug, PartialEq, Eq)]
pub enum InboundRequest {
    /// For the closest peers to a key.
    FindNode { num_closer_peers: usize },
    /// For the providers of a key.
    GetProvider { num_closer_peers: usize, num_provider_peers: usize },
    /// To note a provider. The record is given when the user is to decide
    /// whether it is stored.
    AddProvider { record: Option<ProviderRecord> },
    /// For a record.
    GetRecord { num_closer_peers: usize, present_locally: bool },
    /// To store a record. The record is given when the user is to decide
    /// whether it is stored.
    PutRecord { source: Peer, record: Option<Record> },
}

/// What the behaviour reports to its user.
#[derive(Debug, PartialEq, Eq)]
pub enum Event {
    /// A request of another peer was served.
    InboundRequest { request: InboundRequest },
    /// A query made progress or ended.
    OutboundQueryProgressed {
        id: QueryId,
        result: QueryResult,
        stats: QueryStats,
        step: ProgressStep,
    },
    /// The routing table took up a peer or an address of it.
    RoutingUpdated { peer: Peer, is_new_peer: bool, old_peer: Option<Peer> },
    /// A peer is connected of which no address is known.
    UnroutablePeer { peer: Peer },
    /// A peer could enter the routing table but did not: the table takes
    /// peers from the user only, or the bucket of the peer is full.
    RoutablePeer { peer: Peer, address: Vec<u8> },
    /// A peer waits for a place in its bucket.
    PendingRoutablePeer { peer: Peer, address: Vec<u8> },
    /// The node serves requests now, or has stopped to.
    ModeChanged { new_mode: Mode },
}

} // verus!
