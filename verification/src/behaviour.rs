//! The behaviour of a node: the routing table, the stores and the queries
//! under one roof.
//!
//! The behaviour takes the commands of its user, the events of the
//! connections and the messages of other peers, and answers with the
//! requests to send and the events to report. It does no I/O of its own: the
//! driver that owns it carries the messages and tells the time.

use crate::addresses::Addresses;
use crate::bucket::{holds, InsertResult, Node, NodeStatus};
use crate::candidates::{peer_keys, PeerState};
use crate::closest_peers::{ClosestPeersIter, ClosestPeersIterConfig, IterState};
use crate::config::{BucketInserts, Config, Mode, StoreInserts};
use crate::disjoint_peers::{as_entries, assigned, fresh_peers, ClosestDisjointPeersIter};
use crate::event::{
    AddProviderError, AddProviderOk, BootstrapError, BootstrapOk, Event, GetClosestPeersError,
    GetClosestPeersOk, GetProvidersError, GetProvidersOk, GetRecordError, GetRecordOk,
    InboundRequest, NoKnownPeers, PeerRecord, PutRecordError, PutRecordOk, QueryResult,
};
use crate::message::{info_peers, info_views, PeerInfo, Request, Response};
use crate::key::{key_at, Key};
use crate::nearest::{has_key, is_closest, Peer};
use crate::peer::PeerId;
use crate::bootstrap::BootstrapStatus;
use crate::fixed_peers::FixedPeersIter;
use crate::jobs::{providers_polled, records_polled, AddProviderJob, PutRecordJob};
use crate::bucket::AppliedPending;
use crate::pool::{
    query_at, query_same, Query, QueryConfig, QueryPeerIter, QueryPool, QueryPoolState,
};
use crate::progress::{bootstrap_advance, get_record_outcome, put_record_outcome};
use crate::providers::ProviderStore;
use crate::query::{capped_sum, quorum_of, ProgressStep, QueryId, QueryStats, Quorum};
use crate::random::Generator;
use crate::record::{ProviderRecord, Record, RecordView};
use crate::store::{put_result, MemoryStoreConfig, RecordStore, StoreError};
use crate::table::{nodes_after_insert, RoutingTable, RoutingTableConfig};
use vstd::prelude::*;

verus! {

/// Why a record is put.
#[derive(Clone, Copy, Debug, PartialEq, Eq, Structural)]
pub enum PutRecordContext {
    /// The user publishes the record.
    Publish,
    /// The record of the local node is published anew.
    Republish,
    /// A record that is stored for another peer is replicated.
    Replicate,
}

/// Why a provider is announced.
#[derive(Clone, Copy, Debug, PartialEq, Eq, Structural)]
pub enum AddProviderContext {
    /// The user starts to provide the key.
    Publish,
    /// The local node announces anew that it provides the key.
    Republish,
}

/// The phase of a query that stores a record.
#[derive(Debug, PartialEq, Eq)]
pub enum PutRecordPhase {
    /// The closest peers to the key are looked up.
    GetClosestPeers,
    /// The record is sent to the closest peers.
    PutRecord { get_closest_peers_stats: QueryStats },
}

/// The phase of a query that announces a provider.
#[derive(Debug, PartialEq, Eq)]
pub enum AddProviderPhase {
    /// The closest peers to the key are looked up.
    GetClosestPeers,
    /// The closest peers are told of the provider.
    AddProvider { get_closest_peers_stats: QueryStats },
}

/// What the behaviour records about a query.
#[derive(Debug, PartialEq, Eq)]
pub enum QueryInfo {
    /// A lookup of the bootstrap, for the neighbourhood of `peer`. The keys
    /// that are yet to be looked up are known once the first lookup is done.
    Bootstrap { peer: Peer, remaining: Option<Vec<Peer>>, step: ProgressStep },
    /// A lookup of the closest peers to a key.
    GetClosestPeers { key: Vec<u8>, step: ProgressStep, num_results: usize },
    /// A lookup of the providers of a key.
    GetProviders { key: Vec<u8>, providers_found: usize, step: ProgressStep },
    /// The announcement of the local node as a provider of a key.
    AddProvider { key: Vec<u8>, phase: AddProviderPhase, context: AddProviderContext },
    /// A lookup of the record under a key.
    GetRecord { key: Vec<u8>, step: ProgressStep, found: usize, quorum: usize },
    /// The storage of a record at the closest peers to its key.
    PutRecord { record: Record, quorum: usize, context: PutRecordContext, phase: PutRecordPhase },
}

/// What became of an address that the user added.
#[derive(Clone, Copy, Debug, PartialEq, Eq, Structural)]
pub enum RoutingUpdate {
    /// The routing table has the address.
    Success,
    /// The peer waits for a place in its bucket.
    Pending,
    /// The routing table did not take the peer: its bucket is full, or the
    /// peer is the local node.
    Failed,
}

/// The behaviour of a node.
pub struct Behaviour {
    local: Peer,
    config: Config,
    mode: Mode,
    kbuckets: RoutingTable,
    records: RecordStore,
    providers: ProviderStore,
    queries: QueryPool<QueryInfo>,
    connected: Vec<Key>,
    external_addresses: Vec<Vec<u8>>,
    queued: Vec<Event>,
    put_record_job: Option<PutRecordJob>,
    add_provider_job: Option<AddProviderJob>,
    bootstrap_status: BootstrapStatus,
    forced_mode: Option<Mode>,
    generator: Generator,
    held: Vec<HeldRequest>,
}

/// The peer that a generator in state `state` draws for bucket `index` of a
/// table around `local`, with `tries` draws to go, and the state of the
/// generator afterwards: the first peer drawn that lies in the bucket, or
/// the last that is drawn.
pub open spec fn drawn_target(
    local: Key,
    index: int,
    state: rand::rngs::StdRng,
    tries: nat,
) -> (Peer, rand::rngs::StdRng)
    decreases tries,
{
    let id = PeerId::with_canonical(crate::random::next_block(state));
    settled(
        local,
        index,
        Peer { id, key: id.key_of() },
        crate::random::after_block(state),
        tries,
    )
}

/// What is drawn for bucket `index` once `peer` has been drawn, which was
/// the first of `tries` draws and left the generator in state `state`.
pub open spec fn settled(
    local: Key,
    index: int,
    peer: Peer,
    state: rand::rngs::StdRng,
    tries: nat,
) -> (Peer, rand::rngs::StdRng)
    decreases tries, 0nat,
{
    if tries <= 1 || crate::table::bucket_of(local, peer.key) == Some(index) {
        (peer, state)
    } else {
        drawn_target(local, index, state, (tries - 1) as nat)
    }
}

/// The peers that a bootstrap looks up to refresh the first `n` buckets of
/// the table, drawn from a generator in state `state`, and the state of the
/// generator afterwards: for each bucket that holds a node, in the order of
/// the buckets, the peer that sixteen draws give.
pub open spec fn refresh_drawn(
    table: RoutingTable,
    n: int,
    state: rand::rngs::StdRng,
) -> (Seq<Peer>, rand::rngs::StdRng)
    decreases n,
{
    if n <= 0 {
        (Seq::empty(), state)
    } else {
        let before = refresh_drawn(table, n - 1, state);
        if table.buckets()[n - 1].nodes().len() > 0 {
            let drawn = drawn_target(table.local_key(), n - 1, before.1, 16);
            (before.0.push(drawn.0), drawn.1)
        } else {
            before
        }
    }
}

/// The peers whose neighbourhoods a bootstrap looks up to refresh the
/// buckets of the table: one peer drawn from the generator for each bucket
/// that holds a node, in the bucket if one is found there in sixteen draws.
fn refresh_targets(table: &RoutingTable, generator: &mut Generator) -> (r: Vec<Peer>)
    requires
        table.wf(),
    ensures
        r@.len() == occupied(table.buckets(), 256),
        (r@, final(generator).state()) == refresh_drawn(*table, 256, old(generator).state()),
{
    let mut out: Vec<Peer> = Vec::new();
    let mut i: usize = 0;
    proof {
        crate::key::lemma_distance_self(table.local_key());
    }
    while i < 256
        invariant
            0 <= i <= 256,
            table.wf(),
            crate::table::bucket_of(table.local_key(), table.local_key()) is None,
            out@.len() == occupied(table.buckets(), i as int),
            (out@, generator.state()) == refresh_drawn(*table, i as int, old(generator).state()),
        decreases 256 - i,
    {
        if !table.bucket(i).is_empty() {
            let ghost start = generator.state();
            let mut peer = Peer::new(generator.peer_id());
            let mut tries: usize = 1;
            proof {
                crate::key::lemma_key_ext(peer.key, peer.id.key_of());
            }
            while tries < 16 && table.bucket_index(&peer.key) != Some(i)
                invariant
                    1 <= tries <= 16,
                    0 <= i < 256,
                    crate::table::bucket_of(table.local_key(), table.local_key()) is None,
                    drawn_target(table.local_key(), i as int, start, 16) == settled(
                        table.local_key(),
                        i as int,
                        peer,
                        generator.state(),
                        (17 - tries) as nat,
                    ),
                decreases 16 - tries,
            {
                peer = Peer::new(generator.peer_id());
                proof {
                    crate::key::lemma_key_ext(peer.key, peer.id.key_of());
                }
                tries += 1;
            }
            out.push(peer);
        }
        i += 1;
    }
    out
}

/// The status with which a peer enters the routing table.
pub open spec fn status_of(connected: bool) -> NodeStatus {
    if connected {
        NodeStatus::Connected
    } else {
        NodeStatus::Disconnected
    }
}

impl Behaviour {
    /// The local peer.
    pub closed spec fn local(self) -> Peer {
        self.local
    }

    /// The configuration.
    pub closed spec fn config(self) -> Config {
        self.config
    }

    /// Whether the node serves requests.
    pub closed spec fn mode(self) -> Mode {
        self.mode
    }

    /// The routing table.
    pub closed spec fn table(self) -> RoutingTable {
        self.kbuckets
    }

    /// The record store.
    pub closed spec fn records(self) -> RecordStore {
        self.records
    }

    /// The provider store.
    pub closed spec fn providers(self) -> ProviderStore {
        self.providers
    }

    /// The pool of queries.
    pub closed spec fn pool(self) -> QueryPool<QueryInfo> {
        self.queries
    }

    /// The keys of the peers to which a connection is open.
    pub closed spec fn connected(self) -> Seq<Key> {
        self.connected@
    }

    /// The events that wait to be reported, the oldest first.
    pub closed spec fn events(self) -> Seq<Event> {
        self.queued@
    }

    /// The parts of the behaviour are in order and belong together.
    pub open spec fn wf(self) -> bool {
        &&& self.config().valid()
        &&& self.local().key@ == self.local().id.spec_key()
        &&& self.table().wf()
        &&& self.table().local_key() == self.local().key
        &&& self.table().config().pending_timeout == self.config().kbucket_pending_timeout
        &&& self.records().wf()
        &&& self.providers().wf()
        &&& self.providers().local_key() == self.local().key
        &&& self.pool().wf()
        &&& self.pool().config() == self.config().query_config
        &&& steps_open(self.pool().queries())
        &&& all_on_target(self.pool().queries())
        &&& none_terminal(self.events())
    }

    /// What holds of a behaviour for the peer `local` when it is made: the
    /// routing table and the stores are empty, there are no queries, and it
    /// serves no requests.
    pub open spec fn fresh(self, local: PeerId, config: Config) -> bool {
        &&& self.wf()
        &&& self.local().id == local
        &&& self.local().key@ == local.spec_key()
        &&& self.config() == config
        &&& self.mode() == Mode::Client
        &&& self.forced() is None
        &&& self.external().len() == 0
        &&& self.table().keys() == Set::<Key>::empty()
        &&& self.records()@.records == Map::<Seq<u8>, crate::record::RecordView>::empty()
        &&& self.pool().queries().len() == 0
        &&& self.pool().next_id() == 0
        &&& self.events().len() == 0
        &&& self.connected().len() == 0
        &&& self.held().len() == 0
    }

    /// A behaviour for the peer `local` with an empty routing table, empty
    /// stores and no queries. It finds its mode itself, and serves no
    /// requests as long as it knows no address under which it can be reached.
    /// The peers that it looks up to refresh its buckets differ from run to
    /// run.
    pub fn new(local: PeerId, config: Config, store_config: MemoryStoreConfig, now: u64) -> (b:
        Self)
        requires
            config.valid(),
        ensures
            b.fresh(local, config),
            exists|seed: u64|
                b.generator().state() == #[trigger] crate::random::seeded_state(seed),
    {
        Behaviour::with_generator(local, config, store_config, now, Generator::random())
    }

    /// A behaviour like that of `new`, which draws the peers that it looks
    /// up to refresh its buckets from the generator for `seed`: two
    /// behaviours made with the same seed draw the same peers.
    pub fn with_seed(
        local: PeerId,
        config: Config,
        store_config: MemoryStoreConfig,
        now: u64,
        seed: u64,
    ) -> (b: Self)
        requires
            config.valid(),
        ensures
            b.fresh(local, config),
            b.generator().state() == crate::random::seeded_state(seed),
    {
        Behaviour::with_generator(local, config, store_config, now, Generator::seeded(seed))
    }

    /// A behaviour for the peer `local` that draws its random peers from the
    /// generator.
    fn with_generator(
        local: PeerId,
        config: Config,
        store_config: MemoryStoreConfig,
        now: u64,
        generator: Generator,
    ) -> (b: Self)
        requires
            config.valid(),
        ensures
            b.fresh(local, config),
            b.generator() == generator,
    {
        let local = Peer::new(local);
        let table_config = RoutingTableConfig {
            bucket_size: crate::config::K_VALUE,
            pending_timeout: config.kbucket_pending_timeout,
        };
        Behaviour {
            local,
            config,
            mode: Mode::Client,
            forced_mode: None,
            kbuckets: RoutingTable::new(local.key, table_config),
            records: RecordStore::new(store_config),
            providers: ProviderStore::new(local.key, store_config),
            queries: QueryPool::new(config.query_config),
            connected: Vec::new(),
            external_addresses: Vec::new(),
            queued: Vec::new(),
            put_record_job: match config.record_replication_interval {
                Some(interval) => Some(
                    PutRecordJob::new(
                        local.id,
                        interval,
                        config.record_publication_interval,
                        config.record_ttl,
                        now,
                    ),
                ),
                None => None,
            },
            add_provider_job: match config.provider_publication_interval {
                Some(interval) => Some(AddProviderJob::new(interval, now)),
                None => None,
            },
            bootstrap_status: BootstrapStatus::new(
                config.periodic_bootstrap_interval,
                config.automatic_bootstrap_throttle,
                now,
            ),
            generator,
            held: Vec::new(),
        }
    }

    /// The schedule of the bootstraps that the behaviour starts on its own.
    pub closed spec fn schedule(self) -> BootstrapStatus {
        self.bootstrap_status
    }

    /// The schedule of the bootstraps that the behaviour starts on its own.
    pub fn bootstrap_schedule(&self) -> (s: BootstrapStatus)
        ensures
            s == self.schedule(),
    {
        self.bootstrap_status
    }

    /// Lets the job that replicates records run at the next poll, if there
    /// is one; with `publish`, the run publishes the records of the local
    /// peer anew.
    pub fn replicate_asap(&mut self, publish: bool, now: u64)
        requires
            old(self).wf(),
        ensures
            final(self).wf(),
            final(self).held() == old(self).held(),
            final(self).generator() == old(self).generator(),
            final(self).forced() == old(self).forced(),
            final(self).external() == old(self).external(),
            final(self).table() == old(self).table(),
            final(self).records() == old(self).records(),
            final(self).providers() == old(self).providers(),
            final(self).pool() == old(self).pool(),
            final(self).events() == old(self).events(),
            final(self).connected() == old(self).connected(),
            final(self).local() == old(self).local(),
            final(self).config() == old(self).config(),
            final(self).mode() == old(self).mode(),
            final(self).schedule() == old(self).schedule(),
            final(self).provider_job() == old(self).provider_job(),
            match old(self).record_job() {
                Some(job) => final(self).record_job() matches Some(after)
                    && crate::jobs::records_hurried(job, publish, now, after),
                None => final(self).record_job() is None,
            },
    {
        match &mut self.put_record_job {
            Some(job) => {
                job.asap(publish, now);
            },
            None => {},
        }
    }

    /// Lets the job that announces providers run at the next poll, if there
    /// is one.
    pub fn provide_asap(&mut self, now: u64)
        requires
            old(self).wf(),
        ensures
            final(self).wf(),
            final(self).held() == old(self).held(),
            final(self).generator() == old(self).generator(),
            final(self).forced() == old(self).forced(),
            final(self).external() == old(self).external(),
            final(self).table() == old(self).table(),
            final(self).records() == old(self).records(),
            final(self).providers() == old(self).providers(),
            final(self).pool() == old(self).pool(),
            final(self).events() == old(self).events(),
            final(self).connected() == old(self).connected(),
            final(self).local() == old(self).local(),
            final(self).config() == old(self).config(),
            final(self).mode() == old(self).mode(),
            final(self).schedule() == old(self).schedule(),
            final(self).record_job() == old(self).record_job(),
            match old(self).provider_job() {
                Some(job) => final(self).provider_job() matches Some(after)
                    && crate::jobs::providers_hurried(job, now, after),
                None => final(self).provider_job() is None,
            },
    {
        match &mut self.add_provider_job {
            Some(job) => {
                job.asap(now);
            },
            None => {},
        }
    }

    /// The local peer.
    pub fn local_peer(&self) -> (p: Peer)
        ensures
            p == self.local(),
    {
        self.local
    }

    /// The routing table.
    pub fn routing_table(&self) -> (t: &RoutingTable)
        ensures
            *t == self.table(),
    {
        &self.kbuckets
    }

    /// The record store.
    pub fn store(&self) -> (s: &RecordStore)
        ensures
            *s == self.records(),
    {
        &self.records
    }

    /// The provider store.
    pub fn provider_store(&self) -> (s: &ProviderStore)
        ensures
            *s == self.providers(),
    {
        &self.providers
    }

    /// The pool of queries.
    pub fn queries(&self) -> (p: &QueryPool<QueryInfo>)
        ensures
            *p == self.pool(),
    {
        &self.queries
    }

    /// The query `id`, if it is under way.
    pub fn query(&self, id: QueryId) -> (r: Option<&Query<QueryInfo>>)
        ensures
            r is Some <==> self.pool().contains(id),
            r is Some ==> exists|i: int|
                query_at(self.pool().queries(), id, i) && *r->0 == self.pool().queries()[i],
    {
        self.queries.get(id)
    }

    /// Whether the node serves requests.
    pub fn get_mode(&self) -> (m: Mode)
        ensures
            m == self.mode(),
    {
        self.mode
    }

    /// The requests that wait for a connection to their peer, the oldest
    /// first.
    pub closed spec fn held(self) -> Seq<HeldRequest> {
        self.held@
    }

    /// The generator from which the node draws its random peers.
    pub closed spec fn generator(self) -> Generator {
        self.generator
    }

    /// The mode that the user has set, if they have.
    pub closed spec fn forced(self) -> Option<Mode> {
        self.forced_mode
    }

    /// The addresses under which the local node can be reached.
    pub closed spec fn external(self) -> Seq<Vec<u8>> {
        self.external_addresses@
    }

    /// Brings the mode in line with what the user has set or, if they have
    /// set none, with what is known of the reach of the node. A change is
    /// reported.
    fn determine_mode(&mut self)
        requires
            old(self).wf(),
        ensures
            final(self).wf(),
            final(self).held() == old(self).held(),
            final(self).generator() == old(self).generator(),
            final(self).mode() == mode_for(old(self).forced(), old(self).external().len()),
            final(self).events() == if final(self).mode() == old(self).mode() {
                old(self).events()
            } else {
                old(self).events().push(Event::ModeChanged { new_mode: final(self).mode() })
            },
            final(self).forced() == old(self).forced(),
            final(self).external() == old(self).external(),
            final(self).table() == old(self).table(),
            final(self).records() == old(self).records(),
            final(self).providers() == old(self).providers(),
            final(self).pool() == old(self).pool(),
            final(self).connected() == old(self).connected(),
            final(self).local() == old(self).local(),
            final(self).config() == old(self).config(),
            final(self).schedule() == old(self).schedule(),
            final(self).record_job() == old(self).record_job(),
            final(self).provider_job() == old(self).provider_job(),
    {
        let mode = match self.forced_mode {
            Some(mode) => mode,
            None => if self.external_addresses.len() > 0 {
                Mode::Server
            } else {
                Mode::Client
            },
        };
        if self.mode != mode {
            self.mode = mode;
            self.queued.push(Event::ModeChanged { new_mode: mode });
        }
    }

    /// Sets the mode of the node: to serve requests, to serve none, or, with
    /// `None`, to find its mode itself: the node then serves requests if and
    /// only if it knows an address under which it can be reached. A change
    /// of the mode is reported.
    pub fn set_mode(&mut self, mode: Option<Mode>)
        requires
            old(self).wf(),
        ensures
            final(self).wf(),
            final(self).held() == old(self).held(),
            final(self).generator() == old(self).generator(),
            final(self).schedule() == old(self).schedule(),
            final(self).record_job() == old(self).record_job(),
            final(self).provider_job() == old(self).provider_job(),
            final(self).forced() == mode,
            final(self).mode() == mode_for(mode, old(self).external().len()),
            final(self).events() == if final(self).mode() == old(self).mode() {
                old(self).events()
            } else {
                old(self).events().push(Event::ModeChanged { new_mode: final(self).mode() })
            },
            final(self).external() == old(self).external(),
            final(self).table() == old(self).table(),
            final(self).records() == old(self).records(),
            final(self).providers() == old(self).providers(),
            final(self).pool() == old(self).pool(),
            final(self).connected() == old(self).connected(),
            final(self).local() == old(self).local(),
            final(self).config() == old(self).config(),
    {
        self.forced_mode = mode;
        self.determine_mode();
    }

    /// Whether a connection to the peer at `key` is open.
    pub fn is_connected(&self, key: &Key) -> (r: bool)
        ensures
            r == self.connected().contains(*key),
    {
        let n = self.connected.len();
        let mut i: usize = 0;
        while i < n
            invariant
                0 <= i <= n,
                n == self.connected@.len(),
                forall|j: int| 0 <= j < i ==> self.connected@[j] != *key,
            decreases n - i,
        {
            if self.connected[i].same(key) {
                return true;
            }
            i += 1;
        }
        false
    }

    /// The addresses that the routing table has of the peer at `key`; none
    /// if it does not hold the peer.
    pub fn addresses_of_peer(&self, key: &Key) -> (r: Vec<Vec<u8>>)
        requires
            self.wf(),
        ensures
            crate::bytes::views(r@) == if self.table().contains(*key) {
                self.table().nodes()[*key].addresses@
            } else {
                Seq::<Seq<u8>>::empty()
            },
    {
        match self.kbuckets.get(key) {
            Some(node) => node.addresses.to_vec(),
            None => {
                let r: Vec<Vec<u8>> = Vec::new();
                assert(crate::bytes::views(r@) =~= Seq::<Seq<u8>>::empty());
                r
            },
        }
    }

    /// Adds an address of a peer to the routing table.
    ///
    /// A peer that the table holds gets the address at the end of its list,
    /// unless it has it. A peer that the table does not hold is offered to
    /// it, as connected if a connection to it is open. An address or peer
    /// that the table took up is reported.
    pub fn add_address(&mut self, peer: &PeerId, address: Vec<u8>, now: u64) -> (r: RoutingUpdate)
        requires
            old(self).wf(),
        ensures
            final(self).wf(),
            final(self).held() == old(self).held(),
            final(self).generator() == old(self).generator(),
            final(self).forced() == old(self).forced(),
            final(self).external() == old(self).external(),
            final(self).record_job() == old(self).record_job(),
            final(self).provider_job() == old(self).provider_job(),
            final(self).local() == old(self).local(),
            final(self).config() == old(self).config(),
            final(self).mode() == old(self).mode(),
            final(self).records() == old(self).records(),
            final(self).providers() == old(self).providers(),
            final(self).pool() == old(self).pool(),
            final(self).connected() == old(self).connected(),
            peer.key_of() == old(self).local().key ==> r == RoutingUpdate::Failed
                && final(self).table() == old(self).table()
                && final(self).events() == old(self).events()
                && final(self).schedule() == old(self).schedule(),
            peer.key_of() != old(self).local().key && old(self).table().contains(peer.key_of())
                ==> {
                &&& r == RoutingUpdate::Success
                &&& final(self).schedule() == old(self).schedule()
                &&& final(self).events()
                    == if old(self).table().nodes()[peer.key_of()].addresses@.contains(address@) {
                    old(self).events()
                } else {
                    old(self).events().push(
                        Event::RoutingUpdated {
                            peer: Peer { id: *peer, key: peer.key_of() },
                            is_new_peer: false,
                            old_peer: None,
                        },
                    )
                }
                &&& final(self).table().nodes().dom() == old(self).table().nodes().dom()
                &&& final(self).table().nodes()[peer.key_of()].addresses@
                    == if old(self).table().nodes()[peer.key_of()].addresses@.contains(address@) {
                    old(self).table().nodes()[peer.key_of()].addresses@
                } else {
                    old(self).table().nodes()[peer.key_of()].addresses@.push(address@)
                }
            },
            peer.key_of() != old(self).local().key && !old(self).table().contains(peer.key_of())
                ==> exists|i: InsertResult, addresses: Addresses|
                #![trigger nodes_after_insert(old(self).table().nodes(), Node { peer: Peer { id: *peer, key: peer.key_of() }, addresses, status: status_of(old(self).connected().contains(peer.key_of())) }, i)]
                {
                    &&& addresses@ == seq![address@]
                    &&& final(self).table().nodes() == nodes_after_insert(
                        old(self).table().nodes(),
                        Node {
                            peer: Peer { id: *peer, key: peer.key_of() },
                            addresses,
                            status: status_of(old(self).connected().contains(peer.key_of())),
                        },
                        i,
                    )
                    &&& r == match i {
                        InsertResult::Inserted | InsertResult::Replaced(_) => RoutingUpdate::Success,
                        InsertResult::Pending(_) => RoutingUpdate::Pending,
                        _ => RoutingUpdate::Failed,
                    }
                    &&& final(self).events() == entered_events(
                        old(self).events(),
                        Peer { id: *peer, key: peer.key_of() },
                        i,
                    )
                    &&& final(self).schedule() == if i is Inserted || i is Replaced {
                        crate::bootstrap::after_new_peer(old(self).schedule(), now)
                    } else {
                        old(self).schedule()
                    }
                },
    {
        let target = Peer::new(*peer);
        let key = target.key;
        if key.same(&self.local.key) {
            return RoutingUpdate::Failed;
        }
        let ghost before = self.kbuckets;
        let known = match self.kbuckets.get(&key) {
            Some(node) => Some(node.addresses.duplicate()),
            None => None,
        };
        match known {
            Some(mut addresses) => {
                proof {
                    before.lemma_nodes_dom();
                    let i = choose|i: int|
                        0 <= i < before.buckets().len() && holds(
                            (#[trigger] before.buckets()[i]).nodes(),
                            key,
                        );
                    let j = choose|j: int| crate::bucket::node_at(
                        before.buckets()[i].nodes(),
                        key,
                        j,
                    );
                    assert(before.bucket_wf(i));
                    before.lemma_node_at(i, j);
                    assert(before.nodes()[key].addresses.wf());
                }
                let ghost had = addresses@;
                let added = addresses.insert(address);
                self.kbuckets.set_addresses(&key, addresses);
                proof {
                    assert(self.kbuckets.nodes().dom() =~= before.nodes().dom());
                    assert(had == before.nodes()[key].addresses@);
                }
                if added {
                    self.queued.push(
                        Event::RoutingUpdated { peer: target, is_new_peer: false, old_peer: None },
                    );
                }
                assert(old(self).table().contains(key));
                RoutingUpdate::Success
            },
            None => {
                let status = if self.is_connected(&key) {
                    NodeStatus::Connected
                } else {
                    NodeStatus::Disconnected
                };
                let addresses = Addresses::new(address);
                let i = self.kbuckets.insert(target, addresses, status, now);
                let r = match i {
                    InsertResult::Inserted | InsertResult::Replaced(_) => RoutingUpdate::Success,
                    InsertResult::Pending(_) => RoutingUpdate::Pending,
                    _ => RoutingUpdate::Failed,
                };
                proof {
                    assert(!old(self).table().contains(key));
                    assert(target == Peer { id: *peer, key: peer.key_of() });
                    assert(status == status_of(old(self).connected().contains(peer.key_of())));
                    assert(nodes_after_insert(
                        old(self).table().nodes(),
                        Node {
                            peer: Peer { id: *peer, key: peer.key_of() },
                            addresses,
                            status: status_of(old(self).connected().contains(peer.key_of())),
                        },
                        i,
                    ) == self.kbuckets.nodes());
                }
                match i {
                    InsertResult::Inserted => {
                        self.bootstrap_status.on_new_peer(now);
                        self.queued.push(
                            Event::RoutingUpdated { peer: target, is_new_peer: true,
                                old_peer: None },
                        );
                    },
                    InsertResult::Replaced(evicted) => {
                        self.bootstrap_status.on_new_peer(now);
                        self.queued.push(
                            Event::RoutingUpdated {
                                peer: target,
                                is_new_peer: true,
                                old_peer: Some(evicted),
                            },
                        );
                    },
                    _ => {},
                }
                r
            },
        }
    }

    /// Takes note that a connection to `peer` is open. Returns the requests
    /// that have waited for it, which are to be sent now, the oldest first.
    pub fn on_connection_established(&mut self, peer: &PeerId) -> (r: Vec<HeldRequest>)
        requires
            old(self).wf(),
        ensures
            final(self).wf(),
            r@ == held_for(old(self).held(), peer.key_of()),
            final(self).held() == held_for_others(old(self).held(), peer.key_of()),
            final(self).generator() == old(self).generator(),
            final(self).forced() == old(self).forced(),
            final(self).external() == old(self).external(),
            final(self).schedule() == old(self).schedule(),
            final(self).record_job() == old(self).record_job(),
            final(self).provider_job() == old(self).provider_job(),
            final(self).connected() == if old(self).connected().contains(peer.key_of()) {
                old(self).connected()
            } else {
                old(self).connected().push(peer.key_of())
            },
            final(self).table() == old(self).table(),
            final(self).records() == old(self).records(),
            final(self).providers() == old(self).providers(),
            final(self).pool() == old(self).pool(),
            final(self).events() == old(self).events(),
            final(self).local() == old(self).local(),
            final(self).config() == old(self).config(),
            final(self).mode() == old(self).mode(),
    {
        let key = peer.key();
        if !self.is_connected(&key) {
            self.connected.push(key);
        }
        release(&mut self.held, &key)
    }

    /// Takes note that the last connection to `peer` is closed: the peer is
    /// disconnected in the routing table, where it becomes the node of its
    /// bucket that was seen last, and the requests to it that are in flight
    /// have failed.
    pub fn on_connection_closed(&mut self, peer: &PeerId)
        requires
            old(self).wf(),
        ensures
            final(self).wf(),
            final(self).held() == old(self).held(),
            final(self).generator() == old(self).generator(),
            final(self).forced() == old(self).forced(),
            final(self).external() == old(self).external(),
            final(self).schedule() == old(self).schedule(),
            final(self).record_job() == old(self).record_job(),
            final(self).provider_job() == old(self).provider_job(),
            !final(self).connected().contains(peer.key_of()),
            forall|k: Key|
                k != peer.key_of() ==> (#[trigger] final(self).connected().contains(k)
                    <==> old(self).connected().contains(k)),
            final(self).table().nodes() == if old(self).table().contains(peer.key_of()) {
                old(self).table().nodes().insert(
                    peer.key_of(),
                    Node {
                        peer: old(self).table().nodes()[peer.key_of()].peer,
                        addresses: old(self).table().nodes()[peer.key_of()].addresses,
                        status: NodeStatus::Disconnected,
                    },
                )
            } else {
                old(self).table().nodes()
            },
            final(self).records() == old(self).records(),
            final(self).providers() == old(self).providers(),
            final(self).pool().next_id() == old(self).pool().next_id(),
            final(self).pool().queries().len() == old(self).pool().queries().len(),
            forall|i: int|
                0 <= i < old(self).pool().queries().len() ==> crate::pool::failed_or_same(
                    old(self).pool().queries()[i],
                    peer.key_of(),
                    #[trigger] final(self).pool().queries()[i],
                ),
            final(self).events() == old(self).events(),
            final(self).local() == old(self).local(),
            final(self).config() == old(self).config(),
            final(self).mode() == old(self).mode(),
    {
        let key = peer.key();
        let ghost before = self.connected@;
        let mut i: usize = 0;
        while i < self.connected.len()
            invariant
                self.held() == old(self).held(),
                self.generator() == old(self).generator(),
                self.forced() == old(self).forced(),
                self.external() == old(self).external(),
                0 <= i <= self.connected@.len(),
                self.local == old(self).local,
                self.config == old(self).config,
                self.mode == old(self).mode,
                self.kbuckets == old(self).kbuckets,
                self.records == old(self).records,
                self.providers == old(self).providers,
                self.queries == old(self).queries,
                self.queued == old(self).queued,
                self.bootstrap_status == old(self).bootstrap_status,
                self.put_record_job == old(self).put_record_job,
                self.add_provider_job == old(self).add_provider_job,
                before == old(self).connected@,
                forall|j: int| 0 <= j < i ==> self.connected@[j] != key,
                forall|k: Key|
                    k != key ==> (#[trigger] self.connected@.contains(k) <==> before.contains(k)),
            decreases self.connected@.len() - i,
        {
            if self.connected[i].same(&key) {
                let ghost prev = self.connected@;
                self.connected.remove(i);
                proof {
                    let cur = self.connected@;
                    assert forall|k: Key| k != key implies (#[trigger] cur.contains(k)
                        <==> before.contains(k)) by {
                        if cur.contains(k) {
                            let w = choose|w: int| 0 <= w < cur.len() && cur[w] == k;
                            let w2 = if w < i { w } else { w + 1 };
                            assert(prev[w2] == k);
                            assert(prev.contains(k));
                        }
                        if before.contains(k) {
                            assert(prev.contains(k));
                            let w = choose|w: int| 0 <= w < prev.len() && prev[w] == k;
                            let w2 = if w < i { w } else { w - 1 };
                            assert(cur[w2] == k);
                        }
                    }
                }
            } else {
                i += 1;
            }
        }
        self.kbuckets.update_status(&key, NodeStatus::Disconnected);
        let ghost before = self.pool().queries();
        self.queries.fail_peer(&key);
        proof {
            assert forall|i: int| 0 <= i < before.len() implies (
            #[trigger] self.pool().queries()[i]).info == before[i].info by {
                assert(crate::pool::failed_or_same(before[i], key, self.pool().queries()[i]));
            }
            lemma_same_infos(before, self.pool().queries());
        }
    }

    /// Takes note that `peer`, to which a connection is open, speaks the
    /// protocol and can be reached under `address`.
    ///
    /// A peer that the routing table holds is connected now, and has the
    /// address. Any other peer is offered to the table as a connected node,
    /// if peers enter on connection; what became of it is reported. If peers
    /// enter by the hand of the user only, the peer is reported to them.
    pub fn on_protocol_confirmed(&mut self, peer: &PeerId, address: Vec<u8>, now: u64)
        requires
            old(self).wf(),
        ensures
            final(self).wf(),
            final(self).held() == old(self).held(),
            final(self).generator() == old(self).generator(),
            final(self).forced() == old(self).forced(),
            final(self).external() == old(self).external(),
            final(self).record_job() == old(self).record_job(),
            final(self).provider_job() == old(self).provider_job(),
            final(self).connected() == old(self).connected(),
            final(self).records() == old(self).records(),
            final(self).providers() == old(self).providers(),
            final(self).pool() == old(self).pool(),
            final(self).local() == old(self).local(),
            final(self).config() == old(self).config(),
            final(self).mode() == old(self).mode(),
            peer.key_of() == old(self).local().key ==> final(self).table() == old(self).table()
                && final(self).events() == old(self).events(),
            peer.key_of() != old(self).local().key && old(self).table().contains(peer.key_of())
                ==> {
                &&& final(self).events()
                    == if old(self).table().nodes()[peer.key_of()].addresses@.contains(address@) {
                    old(self).events()
                } else {
                    old(self).events().push(
                        Event::RoutingUpdated {
                            peer: Peer { id: *peer, key: peer.key_of() },
                            is_new_peer: false,
                            old_peer: None,
                        },
                    )
                }
                &&& final(self).table().nodes().dom() == old(self).table().nodes().dom()
                &&& final(self).table().nodes()[peer.key_of()].status == NodeStatus::Connected
                &&& final(self).table().nodes()[peer.key_of()].peer
                    == old(self).table().nodes()[peer.key_of()].peer
                &&& final(self).table().nodes()[peer.key_of()].addresses@
                    == if old(self).table().nodes()[peer.key_of()].addresses@.contains(address@) {
                    old(self).table().nodes()[peer.key_of()].addresses@
                } else {
                    old(self).table().nodes()[peer.key_of()].addresses@.push(address@)
                }
                &&& forall|k: Key|
                    k != peer.key_of()
                        && old(self).table().contains(k)
                            ==> #[trigger] final(self).table().nodes()[k]
                                == old(self).table().nodes()[k]
            },
            peer.key_of() != old(self).local().key && !old(self).table().contains(peer.key_of())
                && old(self).config().kbucket_inserts == BucketInserts::Manual
                    ==> final(self).table() == old(self).table()
                    && final(self).events() == old(self).events().push(
                Event::RoutablePeer { peer: Peer { id: *peer, key: peer.key_of() }, address },
            ),
            peer.key_of() != old(self).local().key && !old(self).table().contains(peer.key_of())
                && old(self).config().kbucket_inserts == BucketInserts::OnConnected ==> exists|
                i: InsertResult,
                addresses: Addresses,
            |
                #![trigger nodes_after_insert(old(self).table().nodes(), Node { peer: Peer { id: *peer, key: peer.key_of() }, addresses, status: NodeStatus::Connected }, i)]
                {
                    &&& addresses@ == seq![address@]
                    &&& final(self).table().nodes() == nodes_after_insert(
                        old(self).table().nodes(),
                        Node {
                            peer: Peer { id: *peer, key: peer.key_of() },
                            addresses,
                            status: NodeStatus::Connected,
                        },
                        i,
                    )
                    &&& confirmed_events(
                        old(self).events(),
                        Peer { id: *peer, key: peer.key_of() },
                        address@,
                        i,
                        final(self).events(),
                    )
                    &&& final(self).schedule() == if i is Inserted || i is Replaced {
                        crate::bootstrap::after_new_peer(old(self).schedule(), now)
                    } else {
                        old(self).schedule()
                    }
                },
            peer.key_of() == old(self).local().key || old(self).table().contains(peer.key_of())
                || old(self).config().kbucket_inserts == BucketInserts::Manual
                ==> final(self).schedule() == old(self).schedule(),
    {
        let target = Peer::new(*peer);
        let key = target.key;
        if key.same(&self.local.key) {
            return ;
        }
        let ghost before = self.kbuckets;
        let known = match self.kbuckets.get(&key) {
            Some(node) => Some(node.addresses.duplicate()),
            None => None,
        };
        match known {
            Some(mut addresses) => {
                proof {
                    before.lemma_nodes_dom();
                    let i = choose|i: int|
                        0 <= i < before.buckets().len() && holds(
                            (#[trigger] before.buckets()[i]).nodes(),
                            key,
                        );
                    let j = choose|j: int| crate::bucket::node_at(
                        before.buckets()[i].nodes(),
                        key,
                        j,
                    );
                    assert(before.bucket_wf(i));
                    before.lemma_node_at(i, j);
                }
                let ghost had = addresses@;
                let added = addresses.insert(address);
                self.kbuckets.update_status(&key, NodeStatus::Connected);
                proof {
                    self.kbuckets.lemma_nodes_dom();
                    assert(self.kbuckets.nodes().dom().contains(key));
                }
                self.kbuckets.set_addresses(&key, addresses);
                if added {
                    self.queued.push(
                        Event::RoutingUpdated { peer: target, is_new_peer: false, old_peer: None },
                    );
                }
                proof {
                    assert(self.kbuckets.nodes().dom() =~= before.nodes().dom());
                    before.lemma_nodes_dom();
                }
            },
            None => {
                match self.config.kbucket_inserts {
                    BucketInserts::Manual => {
                        self.queued.push(Event::RoutablePeer { peer: target, address });
                    },
                    BucketInserts::OnConnected => {
                        let copy = crate::bytes::bytes_copy(address.as_slice());
                        let addresses = Addresses::new(address);
                        let i = self.kbuckets.insert(target, addresses, NodeStatus::Connected, now);
                        proof {
                            assert(nodes_after_insert(
                                old(self).table().nodes(),
                                Node {
                                    peer: Peer { id: *peer, key: peer.key_of() },
                                    addresses,
                                    status: NodeStatus::Connected,
                                },
                                i,
                            ) == self.kbuckets.nodes());
                        }
                        match i {
                            InsertResult::Inserted => {
                                self.bootstrap_status.on_new_peer(now);
                                self.queued.push(
                                    Event::RoutingUpdated {
                                        peer: target,
                                        is_new_peer: true,
                                        old_peer: None,
                                    },
                                );
                            },
                            InsertResult::Replaced(evicted) => {
                                self.bootstrap_status.on_new_peer(now);
                                self.queued.push(
                                    Event::RoutingUpdated {
                                        peer: target,
                                        is_new_peer: true,
                                        old_peer: Some(evicted),
                                    },
                                );
                            },
                            InsertResult::Full => {
                                self.queued.push(
                                    Event::RoutablePeer { peer: target, address: copy },
                                );
                                proof {
                                    assert(self.queued@.drop_last() =~= old(self).queued@);
                                }
                            },
                            InsertResult::Pending(_) => {
                                self.queued.push(
                                    Event::PendingRoutablePeer { peer: target, address: copy },
                                );
                                proof {
                                    assert(self.queued@.drop_last() =~= old(self).queued@);
                                }
                            },
                            _ => {},
                        }
                        proof {
                            assert(confirmed_events(
                                old(self).events(),
                                target,
                                address@,
                                i,
                                self.events(),
                            ));
                        }
                    },
                }
            },
        }
    }

    /// Takes note that `peer`, to which a connection is open, speaks the
    /// protocol, while no address is known under which it can be reached. A
    /// peer that the routing table holds is connected now; any other peer is
    /// reported as one that cannot be routed to.
    pub fn on_protocol_confirmed_without_address(&mut self, peer: &PeerId)
        requires
            old(self).wf(),
        ensures
            final(self).wf(),
            final(self).held() == old(self).held(),
            final(self).generator() == old(self).generator(),
            final(self).forced() == old(self).forced(),
            final(self).external() == old(self).external(),
            final(self).schedule() == old(self).schedule(),
            final(self).record_job() == old(self).record_job(),
            final(self).provider_job() == old(self).provider_job(),
            final(self).records() == old(self).records(),
            final(self).providers() == old(self).providers(),
            final(self).pool() == old(self).pool(),
            final(self).connected() == old(self).connected(),
            final(self).local() == old(self).local(),
            final(self).config() == old(self).config(),
            final(self).mode() == old(self).mode(),
            peer.key_of() == old(self).local().key ==> final(self).table() == old(self).table()
                && final(self).events() == old(self).events(),
            peer.key_of() != old(self).local().key && old(self).table().contains(peer.key_of())
                ==> final(self).events() == old(self).events() && final(self).table().nodes()
                == old(self).table().nodes().insert(
                peer.key_of(),
                Node {
                    peer: old(self).table().nodes()[peer.key_of()].peer,
                    addresses: old(self).table().nodes()[peer.key_of()].addresses,
                    status: NodeStatus::Connected,
                },
            ),
            peer.key_of() != old(self).local().key && !old(self).table().contains(peer.key_of())
                ==> final(self).table().nodes() == old(self).table().nodes()
                    && final(self).events() == old(self).events().push(
                Event::UnroutablePeer { peer: Peer { id: *peer, key: peer.key_of() } },
            ),
    {
        let target = Peer::new(*peer);
        if target.key.same(&self.local.key) {
            return ;
        }
        if !self.kbuckets.update_status(&target.key, NodeStatus::Connected) {
            self.queued.push(Event::UnroutablePeer { peer: target });
        }
    }

    /// Takes note that the connection to `peer` runs under the address `to`
    /// where it ran under `from`: the address takes the place of the old one
    /// in the routing table.
    pub fn on_address_change(&mut self, peer: &PeerId, from: &[u8], to: Vec<u8>)
        requires
            old(self).wf(),
        ensures
            final(self).wf(),
            final(self).held() == old(self).held(),
            final(self).generator() == old(self).generator(),
            final(self).forced() == old(self).forced(),
            final(self).external() == old(self).external(),
            final(self).schedule() == old(self).schedule(),
            final(self).record_job() == old(self).record_job(),
            final(self).provider_job() == old(self).provider_job(),
            final(self).records() == old(self).records(),
            final(self).providers() == old(self).providers(),
            final(self).pool() == old(self).pool(),
            final(self).events() == old(self).events(),
            final(self).connected() == old(self).connected(),
            final(self).local() == old(self).local(),
            final(self).config() == old(self).config(),
            final(self).mode() == old(self).mode(),
            !old(self).table().contains(peer.key_of()) ==> final(self).table().nodes()
                == old(self).table().nodes(),
            old(self).table().contains(peer.key_of()) ==> {
                &&& final(self).table().nodes().dom() == old(self).table().nodes().dom()
                &&& final(self).table().nodes()[peer.key_of()].status
                    == old(self).table().nodes()[peer.key_of()].status
                &&& final(self).table().nodes()[peer.key_of()].peer
                    == old(self).table().nodes()[peer.key_of()].peer
                &&& forall|k: Key|
                    k != peer.key_of() && old(self).table().contains(k)
                        ==> #[trigger] final(self).table().nodes()[k]
                            == old(self).table().nodes()[k]
                &&& replaced_address(
                    old(self).table().nodes()[peer.key_of()].addresses@,
                    from@,
                    to@,
                    final(self).table().nodes()[peer.key_of()].addresses@,
                )
            },
    {
        let key = peer.key();
        let ghost before = self.kbuckets;
        let known = match self.kbuckets.get(&key) {
            Some(node) => Some(node.addresses.duplicate()),
            None => None,
        };
        match known {
            Some(mut addresses) => {
                proof {
                    before.lemma_nodes_dom();
                    let i = choose|i: int|
                        0 <= i < before.buckets().len() && holds(
                            (#[trigger] before.buckets()[i]).nodes(),
                            key,
                        );
                    let j = choose|j: int| crate::bucket::node_at(
                        before.buckets()[i].nodes(),
                        key,
                        j,
                    );
                    assert(before.bucket_wf(i));
                    before.lemma_node_at(i, j);
                }
                addresses.replace(from, to);
                self.kbuckets.set_addresses(&key, addresses);
                proof {
                    assert(self.kbuckets.nodes().dom() =~= before.nodes().dom());
                }
            },
            None => {},
        }
    }

    /// Removes a peer from the routing table. Returns the node, if the table
    /// held the peer.
    pub fn remove_peer(&mut self, peer: &PeerId) -> (r: Option<Node>)
        requires
            old(self).wf(),
        ensures
            final(self).wf(),
            final(self).held() == old(self).held(),
            final(self).generator() == old(self).generator(),
            final(self).local() == old(self).local(),
            final(self).config() == old(self).config(),
            final(self).mode() == old(self).mode(),
            final(self).forced() == old(self).forced(),
            final(self).external() == old(self).external(),
            final(self).schedule() == old(self).schedule(),
            final(self).record_job() == old(self).record_job(),
            final(self).provider_job() == old(self).provider_job(),
            r is Some <==> old(self).table().contains(peer.key_of()),
            r is Some ==> r->0 == old(self).table().nodes()[peer.key_of()],
            final(self).table().nodes() == old(self).table().nodes().remove(peer.key_of()),
            final(self).records() == old(self).records(),
            final(self).providers() == old(self).providers(),
            final(self).pool() == old(self).pool(),
            final(self).events() == old(self).events(),
            final(self).connected() == old(self).connected(),
    {
        let key = peer.key();
        self.kbuckets.remove(&key)
    }

    /// Serves the request of the peer `source` at time `now` and gives the
    /// response to send, if any.
    ///
    /// A node that serves no requests gives none and changes nothing. The
    /// peers that a response names are the closest to the key that the
    /// routing table holds, a bucket's worth, without the peer that asks. A
    /// record that has expired is not handed out, and is removed. A record
    /// or provider that arrives is stored, or handed to the user if they are
    /// to decide; a record that the local node published itself is left as
    /// it is. What was served is reported.
    pub fn on_request(&mut self, source: &Peer, request: Request, now: u64) -> (r: Option<Response>)
        requires
            old(self).wf(),
        ensures
            final(self).wf(),
            final(self).held() == old(self).held(),
            final(self).generator() == old(self).generator(),
            final(self).forced() == old(self).forced(),
            final(self).external() == old(self).external(),
            final(self).schedule() == old(self).schedule(),
            final(self).record_job() == old(self).record_job(),
            final(self).provider_job() == old(self).provider_job(),
            final(self).table() == old(self).table(),
            final(self).pool() == old(self).pool(),
            final(self).connected() == old(self).connected(),
            final(self).local() == old(self).local(),
            final(self).config() == old(self).config(),
            final(self).mode() == old(self).mode(),
            old(self).mode() == Mode::Client ==> r is None
                && final(self).records() == old(self).records()
                && final(self).providers() == old(self).providers()
                && final(self).events() == old(self).events(),
            old(self).mode() == Mode::Server ==> served(
                *old(self),
                *source,
                request,
                now,
                *final(self),
                r,
            ),
    {
        if self.mode == Mode::Client {
            return None;
        }
        let limit = crate::config::K_VALUE;
        match request {
            Request::FindNode { key } => {
                let target = Key::new(key.as_slice());
                let closer = crate::serve::closer_peers(
                    &self.kbuckets,
                    &target,
                    &source.key,
                    limit,
                );
                self.queued.push(
                    Event::InboundRequest {
                        request: InboundRequest::FindNode { num_closer_peers: closer.len() },
                    },
                );
                let r = Some(Response::FindNode { closer_peers: closer });
                assert(served(*old(self), *source, request, now, *self, r));
                r
            },
            Request::GetValue { key } => {
                let target = Key::new(key.as_slice());
                let closer = crate::serve::closer_peers(
                    &self.kbuckets,
                    &target,
                    &source.key,
                    limit,
                );
                let record = self.live_record(key.as_slice(), now);
                self.queued.push(
                    Event::InboundRequest {
                        request: InboundRequest::GetRecord {
                            num_closer_peers: closer.len(),
                            present_locally: record.is_some(),
                        },
                    },
                );
                let r = Some(Response::GetValue { record, closer_peers: closer });
                assert(served(*old(self), *source, request, now, *self, r));
                r
            },
            Request::GetProviders { key } => {
                let target = Key::new(key.as_slice());
                let closer = crate::serve::closer_peers(
                    &self.kbuckets,
                    &target,
                    &source.key,
                    limit,
                );
                let providers = self.live_provider_infos(key.as_slice(), now);
                self.providers.remove_expired(key.as_slice(), now);
                self.queued.push(
                    Event::InboundRequest {
                        request: InboundRequest::GetProvider {
                            num_closer_peers: closer.len(),
                            num_provider_peers: providers.len(),
                        },
                    },
                );
                let r = Some(Response::GetProviders { closer_peers: closer, providers });
                assert(served(*old(self), *source, request, now, *self, r));
                r
            },
            Request::PutValue { record } => {
                let own = match record.publisher {
                    Some(publisher) => publisher.same(&self.local.id),
                    None => false,
                };
                let key = crate::bytes::bytes_copy(record.key.as_slice());
                let value = crate::bytes::bytes_copy(record.value.as_slice());
                if own {
                    let r = Some(Response::PutValue { key, value });
                    assert(served(*old(self), *source, request, now, *self, r));
                    return r;
                }
                let target = Key::new(record.key.as_slice());
                let between = crate::serve::count_nodes_between(&self.kbuckets, &target);
                let beyond = beyond_replication(
                    between,
                    self.config.query_config.replication_factor,
                );
                let ghost arrived = record@;
                let mut record = record;
                record.expires = crate::serve::expiry_on_arrival(
                    now,
                    self.config.record_ttl,
                    record.expires,
                    beyond,
                );
                let ghost handed = record;
                match self.config.record_filtering {
                    StoreInserts::FilterBoth => {
                        self.queued.push(
                            Event::InboundRequest {
                                request: InboundRequest::PutRecord {
                                    source: *source,
                                    record: Some(record),
                                },
                            },
                        );
                        let r = Some(Response::PutValue { key, value });
                        proof {
                            assert(self.queued@.drop_last() =~= old(self).queued@);
                            assert(handed@ == arriving(*old(self), arrived, now));
                        }
                        assert(served(*old(self), *source, request, now, *self, r));
                        r
                    },
                    StoreInserts::Unfiltered => {
                        match self.records.put(record) {
                            Ok(()) => {
                                self.queued.push(
                                    Event::InboundRequest {
                                        request: InboundRequest::PutRecord {
                                            source: *source,
                                            record: None,
                                        },
                                    },
                                );
                                let r = Some(Response::PutValue { key, value });
                                assert(served(*old(self), *source, request, now, *self, r));
                                r
                            },
                            Err(_) => {
                                assert(served(*old(self), *source, request, now, *self, None));
                                None
                            },
                        }
                    },
                }
            },
            Request::AddProvider { key, provider } => {
                if !provider.peer.id.same(&source.id) {
                    return None;
                }
                let expires = match self.config.provider_record_ttl {
                    Some(ttl) => Some(crate::candidates::deadline(now, ttl)),
                    None => None,
                };
                let record = ProviderRecord {
                    key,
                    provider: provider.peer.id,
                    expires,
                    addresses: provider.addresses,
                };
                match self.config.record_filtering {
                    StoreInserts::FilterBoth => {
                        self.queued.push(
                            Event::InboundRequest {
                                request: InboundRequest::AddProvider { record: Some(record) },
                            },
                        );
                        assert(served(*old(self), *source, request, now, *self,
                            Some(Response::Ack)));
                    },
                    StoreInserts::Unfiltered => {
                        let ghost noted = ProviderRecord {
                            key,
                            provider: provider.peer.id,
                            expires: match old(self).config().provider_record_ttl {
                                Some(ttl) => Some(crate::candidates::deadline_after(now, ttl)),
                                None => None,
                            },
                            addresses: provider.addresses,
                        };
                        assert(record == noted);
                        let answer = self.providers.add_provider(record);
                        assert(crate::providers::adds(
                            old(self).providers(),
                            noted,
                            self.providers(),
                            answer,
                        ));
                        self.queued.push(
                            Event::InboundRequest {
                                request: InboundRequest::AddProvider { record: None },
                            },
                        );
                        assert(crate::providers::noted(
                            old(self).providers(),
                            noted,
                            self.providers(),
                        ));
                        assert(served(*old(self), *source, request, now, *self,
                            Some(Response::Ack)));
                    },
                }
                let r = Some(Response::Ack);
                assert(served(*old(self), *source, request, now, *self, r));
                r
            },
        }
    }

    /// The record under `key` in the local store, if it has not expired at
    /// `now`. A record that has expired is removed.
    pub fn live_record(&mut self, key: &[u8], now: u64) -> (r: Option<Record>)
        requires
            old(self).wf(),
        ensures
            final(self).wf(),
            final(self).held() == old(self).held(),
            final(self).generator() == old(self).generator(),
            final(self).forced() == old(self).forced(),
            final(self).external() == old(self).external(),
            final(self).schedule() == old(self).schedule(),
            final(self).record_job() == old(self).record_job(),
            final(self).provider_job() == old(self).provider_job(),
            r is Some <==> local_hit(old(self).records()@.records, key@, now) is Live,
            r is Some ==> r->0@ == old(self).records()@.records[key@],
            final(self).records()@.records == if local_hit(
                old(self).records()@.records,
                key@,
                now,
            ) is Stale {
                old(self).records()@.records.remove(key@)
            } else {
                old(self).records()@.records
            },
            final(self).records().config() == old(self).records().config(),
            final(self).table() == old(self).table(),
            final(self).pool() == old(self).pool(),
            final(self).providers() == old(self).providers(),
            final(self).events() == old(self).events(),
            final(self).connected() == old(self).connected(),
            final(self).local() == old(self).local(),
            final(self).config() == old(self).config(),
            final(self).mode() == old(self).mode(),
    {
        let found = match self.records.peek(key) {
            Some(record) => {
                if record.is_expired(now) {
                    Some(None)
                } else {
                    Some(Some(record.duplicate()))
                }
            },
            None => None,
        };
        match found {
            Some(Some(record)) => Some(record),
            Some(None) => {
                self.records.remove(key);
                None
            },
            None => None,
        }
    }

    /// The providers of `key` that the local store knows and that have not
    /// expired at `now`, each with the addresses of its record.
    pub fn live_provider_infos(&self, key: &[u8], now: u64) -> (r: Vec<PeerInfo>)
        requires
            self.wf(),
        ensures
            info_peers(r@) == live_providers(self.providers().providers_of(key@), now),
            info_views(r@) == live_infos(self.providers().providers_of(key@), now),
    {
        let records = self.providers.providers(key);
        let ghost list = self.providers.providers_of(key@);
        proof {
            self.providers.lemma_providers_sorted(key@);
        }
        let n = records.len();
        let mut out: Vec<PeerInfo> = Vec::new();
        let mut i: usize = 0;
        while i < n
            invariant
                0 <= i <= n,
                n == records@.len(),
                n == list.len(),
                forall|x: int|
                    0 <= x < n ==> (#[trigger] records@[x])@ == list[x].data@ && list[x].peer.id
                        == list[x].data.provider && list[x].peer.key == list[x].peer.id.key_of(),
                info_peers(out@) == live_providers(list.take(i as int), now),
                info_views(out@) == live_infos(list.take(i as int), now),
            decreases n - i,
        {
            proof {
                assert(list.take(i + 1).drop_last() =~= list.take(i as int));
                assert(list.take(i + 1).last() == list[i as int]);
            }
            if !records[i].is_expired(now) {
                let ghost before = out@;
                let info = PeerInfo {
                    peer: Peer::new(records[i].provider),
                    addresses: crate::bytes::list_copy(&records[i].addresses),
                };
                out.push(info);
                proof {
                    assert(info_peers(out@) =~= info_peers(before).push(info.peer));
                    assert(info.peer == list[i as int].peer);
                    assert(info@.addresses == list[i as int].data@.addresses);
                    assert(info_views(out@) =~= info_views(before).push(info@));
                    assert(live_infos(list.take(i + 1), now) =~= live_infos(
                        list.take(i as int),
                        now,
                    ).push(info@));
                }
            }
            i += 1;
        }
        assert(list.take(n as int) =~= list);
        out
    }

    /// The peers of `infos` without the local peer.
    fn without_local(&self, infos: &Vec<PeerInfo>) -> (r: Vec<Peer>)
        ensures
            r@ == info_peers(infos@).filter(|p: Peer| p.key != self.local().key),
    {
        let n = infos.len();
        let ghost all = info_peers(infos@);
        let ghost keep = |p: Peer| p.key != self.local().key;
        let mut out: Vec<Peer> = Vec::new();
        let mut i: usize = 0;
        proof {
            assert(all.take(0).filter(keep) =~= Seq::<Peer>::empty());
        }
        while i < n
            invariant
                0 <= i <= n,
                n == infos@.len(),
                all == info_peers(infos@),
                keep == |p: Peer| p.key != self.local().key,
                out@ == all.take(i as int).filter(keep),
            decreases n - i,
        {
            proof {
                assert(all.take(i + 1).drop_last() =~= all.take(i as int));
                assert(all.take(i + 1).last() == infos@[i as int].peer);
                reveal(Seq::filter);
            }
            if !infos[i].peer.key.same(&self.local.key) {
                out.push(infos[i].peer);
            }
            i += 1;
        }
        assert(all.take(n as int) =~= all);
        out
    }

    /// Takes the response of the peer `source` to a request of query `id`.
    ///
    /// A response that no query waits for changes nothing. Otherwise the
    /// request has succeeded, and the peers that the response names, but for
    /// the local peer, are candidates of the lookup. A record or providers
    /// that the response carries are reported as progress of the query, and
    /// counted; a lookup of a record ends when its quorum is reached, and so
    /// does the storage of a record.
    pub fn on_response(&mut self, id: QueryId, source: &Peer, response: Response)
        requires
            old(self).wf(),
        ensures
            final(self).wf(),
            final(self).held() == old(self).held(),
            final(self).generator() == old(self).generator(),
            final(self).forced() == old(self).forced(),
            final(self).external() == old(self).external(),
            final(self).schedule() == old(self).schedule(),
            final(self).record_job() == old(self).record_job(),
            final(self).provider_job() == old(self).provider_job(),
            final(self).table() == old(self).table(),
            final(self).records() == old(self).records(),
            final(self).providers() == old(self).providers(),
            final(self).connected() == old(self).connected(),
            final(self).local() == old(self).local(),
            final(self).config() == old(self).config(),
            final(self).mode() == old(self).mode(),
            final(self).pool().next_id() == old(self).pool().next_id(),
            final(self).pool().queries().len() == old(self).pool().queries().len(),
            !awaited(old(self).pool().queries(), id, source.key) ==> final(self).events()
                == old(self).events()
                && forall|j: int|
                0 <= j < old(self).pool().queries().len() ==> query_same(
                    old(self).pool().queries()[j],
                    #[trigger] final(self).pool().queries()[j],
                ),
            awaited(old(self).pool().queries(), id, source.key) ==> responded(
                old(self).pool().queries(),
                old(self).events(),
                id,
                *source,
                old(self).local().key,
                response,
                final(self).pool().queries(),
                final(self).events(),
            ),
    {
        let closer = match &response {
            Response::FindNode { closer_peers } => self.without_local(closer_peers),
            Response::GetProviders { closer_peers, .. } => self.without_local(closer_peers),
            Response::GetValue { closer_peers, .. } => self.without_local(closer_peers),
            _ => Vec::new(),
        };
        let ghost before = self.queries.queries();
        let ghost next_id = self.queries.next_id();
        if !self.queries.on_success(id, &source.key, &closer) {
            return ;
        }
        let ghost mid = self.queries.queries();
        let ghost i = choose|i: int|
            #![trigger before[i]]
            query_at(before, id, i) && crate::pool::query_succeeds(
                before[i],
                source.key,
                closer@,
                mid[i],
            ) && forall|j: int| 0 <= j < before.len() && j != i ==> #[trigger] mid[j] == before[j];
        proof {
            assert(query_at(mid, id, i));
        }
        proof {
            lemma_one_position(mid, next_id, id, i);
            assert(self.queries.contains(id));
        }
        let stats = match self.queries.get(id) {
            Some(q) => q.stats,
            None => {
                return ;
            },
        };
        assert(stats == mid[i].stats);
        // The record of the query is taken out, brought up to date and put back.
        let vacant = QueryInfo::GetClosestPeers {
            key: Vec::new(),
            step: ProgressStep::first(),
            num_results: 1,
        };
        let info = match self.queries.replace_info(id, vacant) {
            Ok(info) => info,
            Err(_) => {
                return ;
            },
        };
        let ghost held = self.queries.queries();
        proof {
            assert(info == mid[i].info);
            assert(held == mid.update(i, Query { info: vacant, ..mid[i] }));
            assert(query_at(held, id, i));
            lemma_one_position(held, next_id, id, i);
            assert(self.queries.contains(id));
        }
        let absorbed = absorb(id, info, stats, *source, response);
        let ghost new_info = absorbed.info;
        let ghost event = absorbed.event;
        let _ = self.queries.replace_info(id, absorbed.info);
        let ghost put = self.queries.queries();
        proof {
            assert(put == held.update(i, Query { info: new_info, ..held[i] }));
            assert(query_at(put, id, i));
            lemma_one_position(put, next_id, id, i);
            assert(self.queries.contains(id));
        }
        if absorbed.done {
            self.queries.finish(id);
        }
        let ghost fin = self.queries.queries();
        proof {
            assert(fin[i].id == id);
            assert(fin[i].info == new_info);
            assert(fin[i].stats == mid[i].stats);
            assert(absorbed.done ==> fin[i].peers.finished());
            assert forall|j: int| 0 <= j < before.len() && j != i implies #[trigger] fin[j]
                == before[j] by {
                assert(mid[j] == before[j]);
                assert(held[j] == mid[j]);
                assert(put[j] == held[j]);
            }
        }
        match absorbed.event {
            Some(e) => {
                self.queued.push(e);
            },
            None => {},
        }
        proof {
            assert(reported(id, before[i].info, fin[i].stats, *source, response, event));
            if !absorbed.done {
                assert(fin[i].peers == mid[i].peers);
                assert(closer@ == named_peers(response, old(self).local().key));
            }
            assert(responded(
                before,
                old(self).events(),
                id,
                *source,
                old(self).local().key,
                response,
                fin,
                self.events(),
            ));
        }
    }

    /// Takes the failure of a request of query `id` to the peer at `peer`:
    /// the request has failed, and the query goes on with other peers. A
    /// failure that no query waits for changes nothing.
    pub fn on_request_failed(&mut self, id: QueryId, peer: &Key)
        requires
            old(self).wf(),
        ensures
            final(self).wf(),
            final(self).held() == old(self).held(),
            final(self).generator() == old(self).generator(),
            final(self).forced() == old(self).forced(),
            final(self).external() == old(self).external(),
            final(self).schedule() == old(self).schedule(),
            final(self).record_job() == old(self).record_job(),
            final(self).provider_job() == old(self).provider_job(),
            final(self).table() == old(self).table(),
            final(self).records() == old(self).records(),
            final(self).providers() == old(self).providers(),
            final(self).events() == old(self).events(),
            final(self).connected() == old(self).connected(),
            final(self).local() == old(self).local(),
            final(self).config() == old(self).config(),
            final(self).mode() == old(self).mode(),
            final(self).pool().next_id() == old(self).pool().next_id(),
            final(self).pool().queries().len() == old(self).pool().queries().len(),
            awaited(old(self).pool().queries(), id, *peer) ==> exists|i: int|
                #![trigger old(self).pool().queries()[i]]
                query_at(old(self).pool().queries(), id, i) && crate::pool::query_fails(
                    old(self).pool().queries()[i],
                    *peer,
                    final(self).pool().queries()[i],
                ) && forall|j: int|
                    0 <= j < old(self).pool().queries().len()
                        && j != i ==> #[trigger] final(self).pool().queries()[j]
                            == old(self).pool().queries()[j],
            !awaited(old(self).pool().queries(), id, *peer) ==> forall|j: int|
                0 <= j < old(self).pool().queries().len() ==> query_same(
                    old(self).pool().queries()[j],
                    #[trigger] final(self).pool().queries()[j],
                ),
    {
        self.queries.on_failure(id, peer);
    }

    /// The request that a query with record `info` sends to its peers.
    fn request_for(&self, info: &QueryInfo) -> (r: Request)
        ensures
            request_of(*info, self.local(), r),
    {
        match info {
            QueryInfo::Bootstrap { peer, .. } => Request::FindNode { key: peer.id.to_bytes() },
            QueryInfo::GetClosestPeers { key, .. } => Request::FindNode {
                key: crate::bytes::bytes_copy(key.as_slice()),
            },
            QueryInfo::GetProviders { key, .. } => Request::GetProviders {
                key: crate::bytes::bytes_copy(key.as_slice()),
            },
            QueryInfo::GetRecord { key, .. } => Request::GetValue {
                key: crate::bytes::bytes_copy(key.as_slice()),
            },
            QueryInfo::AddProvider { key, phase, .. } => match phase {
                AddProviderPhase::GetClosestPeers => Request::FindNode {
                    key: crate::bytes::bytes_copy(key.as_slice()),
                },
                AddProviderPhase::AddProvider { .. } => Request::AddProvider {
                    key: crate::bytes::bytes_copy(key.as_slice()),
                    provider: PeerInfo {
                        peer: self.local,
                        addresses: crate::bytes::list_copy(&self.external_addresses),
                    },
                },
            },
            QueryInfo::PutRecord { record, phase, .. } => match phase {
                PutRecordPhase::GetClosestPeers => Request::FindNode {
                    key: crate::bytes::bytes_copy(record.key.as_slice()),
                },
                PutRecordPhase::PutRecord { .. } => Request::PutValue { record: record.duplicate() },
            },
        }
    }

    /// Adds an address under which the local node can be reached. Providers
    /// that the node announces carry these addresses. A node that finds its
    /// mode itself serves requests from now on.
    pub fn add_external_address(&mut self, address: Vec<u8>)
        requires
            old(self).wf(),
        ensures
            final(self).wf(),
            final(self).held() == old(self).held(),
            final(self).generator() == old(self).generator(),
            final(self).schedule() == old(self).schedule(),
            final(self).record_job() == old(self).record_job(),
            final(self).provider_job() == old(self).provider_job(),
            final(self).external() == old(self).external().push(address),
            final(self).forced() == old(self).forced(),
            final(self).mode() == mode_for(old(self).forced(), old(self).external().len() + 1),
            final(self).events() == if final(self).mode() == old(self).mode() {
                old(self).events()
            } else {
                old(self).events().push(Event::ModeChanged { new_mode: final(self).mode() })
            },
            final(self).table() == old(self).table(),
            final(self).records() == old(self).records(),
            final(self).providers() == old(self).providers(),
            final(self).pool() == old(self).pool(),
            final(self).connected() == old(self).connected(),
            final(self).local() == old(self).local(),
            final(self).config() == old(self).config(),
    {
        self.external_addresses.push(address);
        self.determine_mode();
    }

    /// Forgets an address under which the local node could be reached. A
    /// node that finds its mode itself serves no requests when none is left.
    pub fn remove_external_address(&mut self, address: &[u8])
        requires
            old(self).wf(),
        ensures
            final(self).wf(),
            final(self).held() == old(self).held(),
            final(self).generator() == old(self).generator(),
            final(self).schedule() == old(self).schedule(),
            final(self).record_job() == old(self).record_job(),
            final(self).provider_job() == old(self).provider_job(),
            crate::bytes::views(final(self).external()) == match first_of(
                crate::bytes::views(old(self).external()),
                address@,
            ) {
                Some(i) => crate::bytes::views(old(self).external()).remove(i),
                None => crate::bytes::views(old(self).external()),
            },
            final(self).forced() == old(self).forced(),
            final(self).mode() == mode_for(old(self).forced(), final(self).external().len()),
            final(self).events() == if final(self).mode() == old(self).mode() {
                old(self).events()
            } else {
                old(self).events().push(Event::ModeChanged { new_mode: final(self).mode() })
            },
            final(self).table() == old(self).table(),
            final(self).records() == old(self).records(),
            final(self).providers() == old(self).providers(),
            final(self).pool() == old(self).pool(),
            final(self).connected() == old(self).connected(),
            final(self).local() == old(self).local(),
            final(self).config() == old(self).config(),
    {
        let ghost before = crate::bytes::views(self.external_addresses@);
        match crate::bytes::list_position(&self.external_addresses, address) {
            Some(i) => {
                self.external_addresses.remove(i);
                proof {
                    assert(before[i as int] == address@);
                    assert forall|j: int| 0 <= j < i implies before[j] != address@ by {
                        assert(old(self).external_addresses@[j]@ != address@);
                    }
                    lemma_first_of(before, address@, i as int);
                    assert(crate::bytes::views(self.external_addresses@) =~= before.remove(i as int));
                }
            },
            None => {
                proof {
                    assert forall|j: int| 0 <= j < before.len() implies before[j] != address@ by {
                        assert(old(self).external_addresses@[j]@ != address@);
                    }
                    lemma_first_of_none(before, address@);
                }
            },
        }
        self.determine_mode();
    }

    /// Takes note that `peer` could not be reached: every request to it
    /// that is in flight has failed, and those that have waited for a
    /// connection to it are given up.
    pub fn on_dial_failure(&mut self, peer: &PeerId)
        requires
            old(self).wf(),
        ensures
            final(self).wf(),
            final(self).held() == held_for_others(old(self).held(), peer.key_of()),
            final(self).generator() == old(self).generator(),
            final(self).forced() == old(self).forced(),
            final(self).external() == old(self).external(),
            final(self).schedule() == old(self).schedule(),
            final(self).record_job() == old(self).record_job(),
            final(self).provider_job() == old(self).provider_job(),
            final(self).table() == old(self).table(),
            final(self).records() == old(self).records(),
            final(self).providers() == old(self).providers(),
            final(self).events() == old(self).events(),
            final(self).connected() == old(self).connected(),
            final(self).local() == old(self).local(),
            final(self).config() == old(self).config(),
            final(self).mode() == old(self).mode(),
            final(self).pool().next_id() == old(self).pool().next_id(),
            final(self).pool().queries().len() == old(self).pool().queries().len(),
            forall|i: int|
                0 <= i < old(self).pool().queries().len() ==> crate::pool::failed_or_same(
                    old(self).pool().queries()[i],
                    peer.key_of(),
                    #[trigger] final(self).pool().queries()[i],
                ),
    {
        let key = peer.key();
        let _ = release(&mut self.held, &key);
        let ghost before = self.pool().queries();
        self.queries.fail_peer(&key);
        proof {
            assert forall|i: int| 0 <= i < before.len() implies (
            #[trigger] self.pool().queries()[i]).info == before[i].info by {
                assert(crate::pool::failed_or_same(before[i], key, self.pool().queries()[i]));
            }
            lemma_same_infos(before, self.pool().queries());
        }
    }

    /// The job that replicates and publishes records, if there is one.
    pub closed spec fn record_job(self) -> Option<PutRecordJob> {
        self.put_record_job
    }

    /// The job that announces providers, if there is one.
    pub closed spec fn provider_job(self) -> Option<AddProviderJob> {
        self.add_provider_job
    }

    /// Lets the periodic jobs start queries at time `now`: records that are
    /// due are sent to the closest peers again (`replicate_next`, as often
    /// as it starts a query), and so are the keys that the local peer
    /// provides (`republish_next`). No query is started while as many
    /// queries are under way as the jobs may have; what is left waits for
    /// the next call. Records and providers that have expired leave the
    /// stores.
    ///
    /// Afterwards each job waits for its next run, unless the pool is full.
    pub fn run_jobs(&mut self, now: u64)
        requires
            old(self).wf(),
        ensures
            final(self).wf(),
            final(self).held() == old(self).held(),
            final(self).generator() == old(self).generator(),
            jobs_ran(*old(self), now, *final(self)),
            record_job_kept(old(self).record_job(), final(self).record_job()),
            provider_job_kept(old(self).provider_job(), final(self).provider_job()),
            final(self).forced() == old(self).forced(),
            final(self).external() == old(self).external(),
            final(self).table() == old(self).table(),
            final(self).events() == old(self).events(),
            final(self).connected() == old(self).connected(),
            final(self).local() == old(self).local(),
            final(self).config() == old(self).config(),
            final(self).mode() == old(self).mode(),
            final(self).schedule() == old(self).schedule(),
            final(self).pool().next_id() >= old(self).pool().next_id(),
            final(self).pool().queries().len() >= old(self).pool().queries().len(),
            final(self).pool().queries().take(old(self).pool().queries().len() as int)
                == old(self).pool().queries(),
            old(self).pool().queries().len() >= crate::config::JOBS_MAX_QUERIES
                ==> final(self).pool().queries() == old(self).pool().queries(),
            final(self).pool().queries().len() <= old(self).pool().queries().len()
                || final(self).pool().queries().len() <= crate::config::JOBS_MAX_QUERIES,
            forall|i: int|
                old(self).pool().queries().len() <= i < final(self).pool().queries().len() ==> (
                #[trigger] final(self).pool().queries()[i]).id.0 >= old(self).pool().next_id()
                    && started_by_job(
                    final(self).pool().queries()[i],
                    old(self).config().query_config.replication_factor,
                ),
            final(self).record_job() is Some == old(self).record_job() is Some,
            final(self).provider_job() is Some == old(self).provider_job() is Some,
            final(self).pool().queries().len() < crate::config::JOBS_MAX_QUERIES
                && final(self).pool().next_id() < usize::MAX
                    ==> (final(self).record_job() matches Some(job)
                ==> job.state() is Waiting) && (final(self).provider_job() matches Some(job)
                ==> job.state() is Waiting),
            forall|k: Seq<u8>|
                #![trigger final(self).records()@.records.dom().contains(k)]
                final(self).records()@.records.dom().contains(k)
                    ==> old(self).records()@.records.dom().contains(k)
                    && final(self).records()@.records[k] == old(self).records()@.records[k],
            forall|k: Seq<u8>|
                crate::providers::without_provider(
                    old(self).providers().providers_of(k),
                    old(self).local().key,
                    #[trigger] final(self).providers().providers_of(k),
                ),
    {
        let ghost start = self.pool().queries();
        let ghost first_id = self.pool().next_id();
        let ghost replication = self.config.query_config.replication_factor;
        proof {
            assert(start.take(start.len() as int) =~= start);
        }
        let ghost mut n: nat = 0;
        let mut going = true;
        while going
            invariant
                self.held() == old(self).held(),
                self.generator() == old(self).generator(),
                going ==> replications(*old(self), now, n, *self),
                !going ==> replication_ran(*old(self), now, *self),
                record_job_kept(old(self).record_job(), self.record_job()),
                self.forced() == old(self).forced(),
                self.external() == old(self).external(),
                self.wf(),
                self.table() == old(self).table(),
                self.providers() == old(self).providers(),
                self.schedule() == old(self).schedule(),
                self.provider_job() == old(self).provider_job(),
                self.record_job() is Some == old(self).record_job() is Some,
                self.events() == old(self).events(),
                self.connected() == old(self).connected(),
                self.local() == old(self).local(),
                self.config() == old(self).config(),
                self.mode() == old(self).mode(),
                start == old(self).pool().queries(),
                first_id == old(self).pool().next_id(),
                replication == self.config().query_config.replication_factor,
                self.pool().next_id() >= first_id,
                self.pool().queries().len() >= start.len(),
                self.pool().queries().take(start.len() as int) == start,
                start.len() >= crate::config::JOBS_MAX_QUERIES ==> self.pool().queries() == start,
                self.pool().queries().len() <= start.len() || self.pool().queries().len()
                    <= crate::config::JOBS_MAX_QUERIES,
                !going && self.jobs_may_start() ==> (self.record_job() matches Some(job)
                    ==> job.state() is Waiting),
                forall|i: int|
                    start.len() <= i < self.pool().queries().len() ==> (
                    #[trigger] self.pool().queries()[i]).id.0 >= first_id && started_by_job(
                        self.pool().queries()[i],
                        replication,
                    ),
                forall|k: Seq<u8>|
                    #![trigger self.records()@.records.dom().contains(k)]
                    self.records()@.records.dom().contains(k)
                        ==> old(self).records()@.records.dom().contains(k)
                        && self.records()@.records[k] == old(self).records()@.records[k],
            decreases (if going { 1int } else { 0int }) + usize::MAX - self.pool().next_id(),
        {
            let ghost before = self.pool().queries();
            let ghost last = *self;
            match self.replicate_next(now) {
                Some(id) => {
                    proof {
                        assert(replication_step(last, now, *self, Some(id)));
                        assert(replications(*old(self), now, ((n + 1) - 1) as nat, last));
                        assert(replications(*old(self), now, n + 1, *self));
                        n = n + 1;
                        assert(self.pool().queries().take(start.len() as int) =~= before.take(
                            start.len() as int,
                        ));
                        assert forall|i: int|
                            start.len() <= i < self.pool().queries().len() implies (
                        #[trigger] self.pool().queries()[i]).id.0 >= first_id && started_by_job(
                            self.pool().queries()[i],
                            replication,
                        ) by {
                            if i < before.len() {
                                assert(self.pool().queries().drop_last()[i] == before[i]);
                            }
                        }
                    }
                },
                None => {
                    proof {
                        assert(replication_step(last, now, *self, None));
                    }
                    going = false;
                },
            }
        }
        let ghost mid = self.providers();
        let ghost between = *self;
        let ghost mut n: nat = 0;
        let mut going = true;
        while going
            invariant
                self.held() == old(self).held(),
                self.generator() == old(self).generator(),
                replication_ran(*old(self), now, between),
                going ==> republications(between, now, n, *self),
                !going ==> republication_ran(between, now, *self),
                record_job_kept(old(self).record_job(), self.record_job()),
                provider_job_kept(old(self).provider_job(), self.provider_job()),
                self.record_job() == between.record_job(),
                self.forced() == old(self).forced(),
                self.external() == old(self).external(),
                self.wf(),
                self.table() == old(self).table(),
                self.schedule() == old(self).schedule(),
                self.record_job() is Some == old(self).record_job() is Some,
                self.provider_job() is Some == old(self).provider_job() is Some,
                self.jobs_may_start() ==> (self.record_job() matches Some(job)
                    ==> job.state() is Waiting),
                self.events() == old(self).events(),
                self.connected() == old(self).connected(),
                self.local() == old(self).local(),
                self.config() == old(self).config(),
                self.mode() == old(self).mode(),
                start == old(self).pool().queries(),
                first_id == old(self).pool().next_id(),
                replication == self.config().query_config.replication_factor,
                mid == old(self).providers(),
                mid.wf(),
                mid.local_key() == self.local().key,
                self.pool().next_id() >= first_id,
                self.pool().queries().len() >= start.len(),
                self.pool().queries().take(start.len() as int) == start,
                start.len() >= crate::config::JOBS_MAX_QUERIES ==> self.pool().queries() == start,
                self.pool().queries().len() <= start.len() || self.pool().queries().len()
                    <= crate::config::JOBS_MAX_QUERIES,
                !going && self.jobs_may_start() ==> (self.provider_job() matches Some(job)
                    ==> job.state() is Waiting),
                forall|i: int|
                    start.len() <= i < self.pool().queries().len() ==> (
                    #[trigger] self.pool().queries()[i]).id.0 >= first_id && started_by_job(
                        self.pool().queries()[i],
                        replication,
                    ),
                forall|k: Seq<u8>|
                    #![trigger self.records()@.records.dom().contains(k)]
                    self.records()@.records.dom().contains(k)
                        ==> old(self).records()@.records.dom().contains(k)
                        && self.records()@.records[k] == old(self).records()@.records[k],
                forall|k: Seq<u8>|
                    crate::providers::without_provider(
                        mid.providers_of(k),
                        self.local().key,
                        #[trigger] self.providers().providers_of(k),
                    ),
            decreases (if going { 1int } else { 0int }) + usize::MAX - self.pool().next_id(),
        {
            let ghost before = self.pool().queries();
            let ghost stored = self.providers();
            let ghost last = *self;
            match self.republish_next(now) {
                Some(id) => {
                    proof {
                        assert(republication_step(last, now, *self, Some(id)));
                        assert(republications(between, now, ((n + 1) - 1) as nat, last));
                        assert(republications(between, now, n + 1, *self));
                        n = n + 1;
                        assert(self.pool().queries().take(start.len() as int) =~= before.take(
                            start.len() as int,
                        ));
                        assert forall|i: int|
                            start.len() <= i < self.pool().queries().len() implies (
                        #[trigger] self.pool().queries()[i]).id.0 >= first_id && started_by_job(
                            self.pool().queries()[i],
                            replication,
                        ) by {
                            if i < before.len() {
                                assert(self.pool().queries().drop_last()[i] == before[i]);
                            }
                        }
                    }
                },
                None => {
                    proof {
                        assert(republication_step(last, now, *self, None));
                    }
                    going = false;
                },
            }
            proof {
                let local = self.local().key;
                let kept = self.providers();
                assert forall|k: Seq<u8>|
                    crate::providers::without_provider(
                        mid.providers_of(k),
                        local,
                        #[trigger] kept.providers_of(k),
                    ) by {
                    assert(crate::providers::without_provider(
                        mid.providers_of(k),
                        local,
                        stored.providers_of(k),
                    ));
                    assert(crate::providers::without_provider(
                        stored.providers_of(k),
                        local,
                        kept.providers_of(k),
                    ));
                    if stored.providers_of(k) != mid.providers_of(k) && kept.providers_of(k)
                        != stored.providers_of(k) {
                        let j0 = choose|j0: int|
                            0 <= j0 < mid.providers_of(k).len() && (#[trigger] mid.providers_of(
                                k,
                            )[j0]).peer.key == local && stored.providers_of(k)
                                == mid.providers_of(k).remove(j0);
                        mid.lemma_providers_sorted(k);
                        crate::providers::lemma_removed_is_gone(
                            mid.providers_of(k),
                            local,
                            local,
                            j0,
                        );
                        let j1 = choose|j1: int|
                            0 <= j1 < stored.providers_of(k).len() && (
                            #[trigger] stored.providers_of(k)[j1]).peer.key == local;
                        assert(has_key(stored.providers_of(k), local));
                    }
                }
            }
        }
    }

    /// The providers of `key` that the store of the node knows at time
    /// `now`, closest to the local peer first.
    pub open spec fn known_providers(self, key: Seq<u8>, now: u64) -> Seq<Peer> {
        live_providers(self.providers().providers_of(key), now)
    }

    /// Whether the periodic jobs may start a query: fewer queries are under
    /// way than the jobs may have, and an identifier is left.
    pub open spec fn jobs_may_start(self) -> bool {
        self.pool().queries().len() < crate::config::JOBS_MAX_QUERIES && self.pool().next_id()
            < usize::MAX
    }

    /// Lets the job that replicates the records take a step at time `now`,
    /// if the jobs may start a query: the job is polled, and a query is
    /// started that stores the record that it hands out at the peers closest
    /// to its key. Returns the identifier of the query.
    pub fn replicate_next(&mut self, now: u64) -> (r: Option<QueryId>)
        requires
            old(self).wf(),
        ensures
            final(self).wf(),
            final(self).held() == old(self).held(),
            final(self).generator() == old(self).generator(),
            replication_step(*old(self), now, *final(self), r),
            final(self).forced() == old(self).forced(),
            final(self).external() == old(self).external(),
            final(self).table() == old(self).table(),
            final(self).providers() == old(self).providers(),
            final(self).events() == old(self).events(),
            final(self).connected() == old(self).connected(),
            final(self).local() == old(self).local(),
            final(self).config() == old(self).config(),
            final(self).mode() == old(self).mode(),
            final(self).schedule() == old(self).schedule(),
            final(self).provider_job() == old(self).provider_job(),
            final(self).record_job() is Some == old(self).record_job() is Some,
            replicated(*old(self), now, *final(self), r),
            r is None ==> final(self).pool() == old(self).pool(),
            r is None && old(self).jobs_may_start() ==> (final(self).record_job() matches Some(job)
                ==> job.state() is Waiting),
            r matches Some(id) ==> old(self).jobs_may_start() && started_query(
                *old(self),
                *final(self),
                id,
            ) && started_by_job(
                final(self).pool().queries().last(),
                old(self).config().query_config.replication_factor,
            ),
            forall|k: Seq<u8>|
                #![trigger final(self).records()@.records.dom().contains(k)]
                final(self).records()@.records.dom().contains(k)
                    ==> old(self).records()@.records.dom().contains(k)
                    && final(self).records()@.records[k] == old(self).records()@.records[k],
    {
        if self.queries.size() >= crate::config::JOBS_MAX_QUERIES
            || !self.queries.has_identifiers() {
            return None;
        }
        let mut job = match self.put_record_job.take() {
            Some(job) => job,
            None => {
                return None;
            },
        };
        let ghost job0 = job;
        let handed = job.poll(&mut self.records, now);
        let ghost given = handed;
        self.put_record_job = Some(job);
        let r = match handed {
            Some(record) => {
                let own = match record.publisher {
                    Some(p) => p.same(&self.local.id),
                    None => false,
                };
                let context = if own {
                    PutRecordContext::Republish
                } else {
                    PutRecordContext::Replicate
                };
                let replication = self.config.query_config.replication_factor;
                let target = Key::new(record.key.as_slice());
                let info = QueryInfo::PutRecord {
                    record,
                    quorum: replication,
                    context,
                    phase: PutRecordPhase::GetClosestPeers,
                };
                Some(self.start_lookup(target, replication, info))
            },
            None => None,
        };
        proof {
            assert(records_polled(
                job0,
                old(self).records(),
                now,
                self.record_job()->0,
                self.records(),
                given,
            ));
            assert(replicated(*old(self), now, *self, r));
        }
        r
    }

    /// Lets the job that announces the keys of the local peer take a step
    /// at time `now`, if the jobs may start a query: the job is polled, and
    /// a query is started that announces the local peer as a provider of the
    /// key that it hands out, at the peers closest to the key. Returns the
    /// identifier of the query.
    pub fn republish_next(&mut self, now: u64) -> (r: Option<QueryId>)
        requires
            old(self).wf(),
        ensures
            final(self).wf(),
            final(self).held() == old(self).held(),
            final(self).generator() == old(self).generator(),
            republication_step(*old(self), now, *final(self), r),
            final(self).forced() == old(self).forced(),
            final(self).external() == old(self).external(),
            final(self).table() == old(self).table(),
            final(self).records() == old(self).records(),
            final(self).events() == old(self).events(),
            final(self).connected() == old(self).connected(),
            final(self).local() == old(self).local(),
            final(self).config() == old(self).config(),
            final(self).mode() == old(self).mode(),
            final(self).schedule() == old(self).schedule(),
            final(self).record_job() == old(self).record_job(),
            final(self).provider_job() is Some == old(self).provider_job() is Some,
            republished(*old(self), now, *final(self), r),
            r is None ==> final(self).pool() == old(self).pool(),
            r is None && old(self).jobs_may_start() ==> (final(self).provider_job() matches Some(
                job,
            ) ==> job.state() is Waiting),
            r matches Some(id) ==> old(self).jobs_may_start() && started_query(
                *old(self),
                *final(self),
                id,
            ) && started_by_job(
                final(self).pool().queries().last(),
                old(self).config().query_config.replication_factor,
            ),
            forall|k: Seq<u8>|
                crate::providers::without_provider(
                    old(self).providers().providers_of(k),
                    old(self).local().key,
                    #[trigger] final(self).providers().providers_of(k),
                ),
    {
        if self.queries.size() >= crate::config::JOBS_MAX_QUERIES
            || !self.queries.has_identifiers() {
            proof {
                assert forall|k: Seq<u8>|
                    crate::providers::without_provider(
                        old(self).providers().providers_of(k),
                        old(self).local().key,
                        #[trigger] self.providers().providers_of(k),
                    ) by {}
            }
            return None;
        }
        let mut job = match self.add_provider_job.take() {
            Some(job) => job,
            None => {
                return None;
            },
        };
        let ghost job0 = job;
        let handed = job.poll(&mut self.providers, now);
        let ghost given = handed;
        self.add_provider_job = Some(job);
        let r = match handed {
            Some(record) => {
                let replication = self.config.query_config.replication_factor;
                let target = Key::new(record.key.as_slice());
                let info = QueryInfo::AddProvider {
                    key: record.key,
                    phase: AddProviderPhase::GetClosestPeers,
                    context: AddProviderContext::Republish,
                };
                Some(self.start_lookup(target, replication, info))
            },
            None => None,
        };
        proof {
            assert(providers_polled(
                job0,
                old(self).providers(),
                now,
                self.provider_job()->0,
                self.providers(),
                given,
            ));
            assert(republished(*old(self), now, *self, r));
        }
        r
    }

    /// Advances the behaviour at time `now` and says what the driver is to
    /// do next: report an event, send a request, or open a connection.
    /// `None` means that there is nothing to do until a message arrives or
    /// time passes.
    ///
    /// Reports that wait are handed out first, the oldest first. Then a
    /// bootstrap that is due is started (`bootstrap`), the periodic jobs
    /// start the queries that are due (`run_jobs`), and the queries are
    /// polled (`poll_queries`); what each of these steps does is stated with
    /// it. The last report of a query is given when the query leaves the
    /// pool for good, and at no other time.
    pub fn poll(&mut self, now: u64) -> (r: Option<ToSwarm>)
        requires
            old(self).wf(),
        ensures
            final(self).wf(),
            polled(*old(self), now, *final(self), r),
            forall|id: QueryId| retired(*old(self), id) ==> #[trigger] retired(*final(self), id),
            match r {
                Some(ToSwarm::GenerateEvent(e)) => is_terminal(e) ==> (query_of(e) matches Some(id)
                    && retired(*final(self), id) && !retired(*old(self), id)),
                _ => true,
            },
            final(self).forced() == old(self).forced(),
            final(self).external() == old(self).external(),
            final(self).connected() == old(self).connected(),
            final(self).local() == old(self).local(),
            final(self).config() == old(self).config(),
            final(self).mode() == old(self).mode(),
            final(self).pool().next_id() >= old(self).pool().next_id(),
            r is None ==> final(self).events().len() == 0 && crate::pool::all_at_rest(
                final(self).pool().queries(),
                old(self).config().query_config.timeout,
                now,
            ),
            r is None ==> final(self).schedule() == polled_schedule(
                old(self).schedule(),
                now,
                old(self).pool().next_id() < usize::MAX && old(self).table().keys()
                    != Set::<Key>::empty(),
            ),
            r is None && final(self).pool().queries().len() < crate::config::JOBS_MAX_QUERIES
                && final(self).pool().next_id() < usize::MAX ==> (
            final(self).record_job() matches Some(job) ==> job.state() is Waiting)
                && (final(self).provider_job() matches Some(job) ==> job.state() is Waiting),
            old(self).events().len() > 0 ==> r
                == Some(ToSwarm::GenerateEvent(old(self).events()[0]))
                && final(self).events() == old(self).events().skip(1)
                    && final(self).pool() == old(self).pool()
                    && final(self).table() == old(self).table()
                    && final(self).records() == old(self).records()
                    && final(self).providers() == old(self).providers(),
            match r {
                Some(ToSwarm::GenerateEvent(e)) => is_terminal(e) ==> (query_of(e) matches Some(id)
                    && !final(self).pool().contains(id) && (old(self).pool().contains(id) || id.0
                    >= old(self).pool().next_id())),
                Some(ToSwarm::SendRequest { peer, query_id,
                    request }) => final(self).pool().contains(query_id)
                    && sends(
                    final(self).pool().queries(),
                    query_id,
                    old(self).local(),
                    request,
                ) && crate::pool::waits(final(self).pool().queries(), query_id, peer.key),
                _ => true,
            },
    {
        match self.next_event() {
            Some(e) => {
                return Some(ToSwarm::GenerateEvent(e));
            },
            None => {},
        }
        let due = self.bootstrap_status.poll(now);
        let ghost asked = *self;
        if due && self.queries.has_identifiers() {
            let started = self.bootstrap(now);
            proof {
                assert(bootstrapped(asked, now, *self, started));
            }
        }
        let ghost after_boot = *self;
        proof {
            assert(schedule_asked(*old(self), now, asked));
            assert(boot_step(*old(self), now, after_boot));
        }
        let ghost booted = self.pool();
        proof {
            assert forall|id: QueryId| #[trigger] booted.contains(id) implies old(self).pool().contains(id) || id.0 >= old(self).pool().next_id() by {
                let i = choose|i: int| query_at(booted.queries(), id, i);
                let before = old(self).pool().queries();
                if booted.queries() != before {
                    if i < before.len() {
                        assert(booted.queries().drop_last()[i] == booted.queries()[i]);
                        assert(query_at(before, id, i));
                    }
                } else {
                    assert(query_at(before, id, i));
                }
            }
        }
        self.run_jobs(now);
        let ghost ran = *self;
        let ghost mid = self.pool();
        proof {
            assert forall|id: QueryId| #[trigger] mid.contains(id) implies old(self).pool().contains(
                id,
            ) || id.0 >= old(self).pool().next_id() by {
                let i = choose|i: int| query_at(mid.queries(), id, i);
                let before = booted.queries();
                if i < before.len() {
                    assert(mid.queries().take(before.len() as int)[i] == mid.queries()[i]);
                    assert(query_at(before, id, i));
                    assert(booted.contains(id));
                }
            }
        }
        let r = self.poll_queries(now);
        proof {
            assert(jobs_ran(after_boot, now, ran));
            assert(queries_polled(ran, now, *self, r));
            assert(polled(*old(self), now, *self, r));
            assert forall|id: QueryId| retired(*old(self), id) implies #[trigger] retired(
                *self,
                id,
            ) by {
                if self.pool().contains(id) {
                    assert(mid.contains(id));
                }
            }
        }
        r
    }

    /// Takes the oldest report out of the queue.
    fn next_event(&mut self) -> (r: Option<Event>)
        requires
            old(self).wf(),
        ensures
            final(self).wf(),
            final(self).held() == old(self).held(),
            final(self).generator() == old(self).generator(),
            final(self).forced() == old(self).forced(),
            final(self).external() == old(self).external(),
            final(self).table() == old(self).table(),
            final(self).records() == old(self).records(),
            final(self).providers() == old(self).providers(),
            final(self).pool() == old(self).pool(),
            final(self).connected() == old(self).connected(),
            final(self).local() == old(self).local(),
            final(self).config() == old(self).config(),
            final(self).mode() == old(self).mode(),
            final(self).schedule() == old(self).schedule(),
            final(self).record_job() == old(self).record_job(),
            final(self).provider_job() == old(self).provider_job(),
            r is Some <==> old(self).events().len() > 0,
            r is Some ==> r->0 == old(self).events()[0]
                && final(self).events() == old(self).events().skip(1)
                && !is_terminal(r->0),
            r is None ==> final(self).events() == old(self).events(),
            r is None ==> *final(self) == *old(self),
    {
        if self.queued.len() == 0 {
            return None;
        }
        let e = self.queued.remove(0);
        proof {
            assert(self.queued@ =~= old(self).queued@.skip(1));
            assert forall|i: int| 0 <= i < self.queued@.len() implies !is_terminal(
                #[trigger] self.queued@[i],
            ) by {
                assert(self.queued@[i] == old(self).queued@[i + 1]);
            }
        }
        Some(e)
    }

    /// Looks at the candidates that wait for a place in a full bucket: one
    /// that is due enters if a node of its bucket is disconnected, in place
    /// of the node that was seen least lately, and is dropped if none is.
    /// A report is queued for each that entered. Returns what became of the
    /// candidates that were due.
    pub fn apply_pending(&mut self, now: u64) -> (r: Vec<AppliedPending>)
        requires
            old(self).wf(),
        ensures
            final(self).wf(),
            final(self).held() == old(self).held(),
            final(self).generator() == old(self).generator(),
            pending_step(*old(self), now, *final(self), r@),
            final(self).forced() == old(self).forced(),
            final(self).external() == old(self).external(),
            crate::table::pending_applied(old(self).table(), now, final(self).table(), r@),
            final(self).events() == old(self).events() + promotions(r@),
            final(self).records() == old(self).records(),
            final(self).providers() == old(self).providers(),
            final(self).pool() == old(self).pool(),
            final(self).connected() == old(self).connected(),
            final(self).local() == old(self).local(),
            final(self).config() == old(self).config(),
            final(self).mode() == old(self).mode(),
            final(self).schedule() == old(self).schedule(),
            final(self).record_job() == old(self).record_job(),
            final(self).provider_job() == old(self).provider_job(),
    {
        let applied = self.kbuckets.apply_pending(now);
        let n = applied.len();
        let mut i: usize = 0;
        proof {
            assert(applied@.take(0) =~= Seq::<AppliedPending>::empty());
            assert(self.queued@ =~= old(self).queued@ + promotions(applied@.take(0)));
        }
        while i < n
            invariant
                self.held() == old(self).held(),
                self.generator() == old(self).generator(),
                self.forced() == old(self).forced(),
                self.external() == old(self).external(),
                0 <= i <= n,
                n == applied@.len(),
                self.wf(),
                crate::table::pending_applied(old(self).table(), now, self.table(), applied@),
                self.records == old(self).records,
                self.providers == old(self).providers,
                self.queries == old(self).queries,
                self.connected@ == old(self).connected@,
                self.local == old(self).local,
                self.config == old(self).config,
                self.mode == old(self).mode,
                self.bootstrap_status == old(self).bootstrap_status,
                self.put_record_job == old(self).put_record_job,
                self.add_provider_job == old(self).add_provider_job,
                self.queued@ == old(self).queued@ + promotions(applied@.take(i as int)),
            decreases n - i,
        {
            proof {
                assert(applied@.take(i + 1).drop_last() =~= applied@.take(i as int));
                assert(applied@.take(i + 1).last() == applied@[i as int]);
            }
            match applied[i] {
                AppliedPending::Promoted { inserted, evicted } => {
                    let event = Event::RoutingUpdated {
                        peer: inserted,
                        is_new_peer: true,
                        old_peer: evicted,
                    };
                    proof {
                        lemma_event_pushed(self.queued@, event);
                        assert(old(self).queued@ + promotions(applied@.take(i
                            + 1)) =~= (old(self).queued@
                                + promotions(applied@.take(i as int))).push(event));
                    }
                    self.queued.push(event);
                },
                AppliedPending::Dropped(_) => {},
            }
            i += 1;
        }
        proof {
            assert(applied@.take(n as int) =~= applied@);
        }
        applied
    }

    /// Advances the behaviour at time `now` and says what the driver is to
    /// do next: report an event, send a request, or open a connection.
    /// `None` means that there is nothing to do until a message arrives or
    /// time passes.
    ///
    /// Reports that wait are handed out first, the oldest first. Then the
    /// candidates of full buckets are looked at (`apply_pending`), and the
    /// queries are looked at (`poll_query`) until one of them has something
    /// to say or all are at rest. A query that has a request to send names
    /// the peer and the request. A query that is done or out of time leaves
    /// the pool and gives its last report, or goes on with its next phase.
    /// The last report of a query is given when the query leaves the pool
    /// for good, and at no other time.
    pub fn poll_queries(&mut self, now: u64) -> (r: Option<ToSwarm>)
        requires
            old(self).wf(),
        ensures
            final(self).wf(),
            queries_polled(*old(self), now, *final(self), r),
            forall|id: QueryId| retired(*old(self), id) ==> #[trigger] retired(*final(self), id),
            match r {
                Some(ToSwarm::GenerateEvent(e)) => is_terminal(e) ==> (query_of(e) matches Some(id)
                    && retired(*final(self), id) && !retired(*old(self), id)),
                _ => true,
            },
            final(self).forced() == old(self).forced(),
            final(self).external() == old(self).external(),
            final(self).records() == old(self).records(),
            final(self).providers() == old(self).providers(),
            final(self).connected() == old(self).connected(),
            final(self).local() == old(self).local(),
            final(self).config() == old(self).config(),
            final(self).mode() == old(self).mode(),
            final(self).pool().next_id() == old(self).pool().next_id(),
            forall|id: QueryId|
                #[trigger] final(self).pool().contains(id) ==> old(self).pool().contains(id),
            r is None ==> final(self).events().len() == 0 && crate::pool::all_at_rest(
                final(self).pool().queries(),
                old(self).config().query_config.timeout,
                now,
            ),
            final(self).record_job() == old(self).record_job(),
            final(self).provider_job() == old(self).provider_job(),
            r is None ==> final(self).schedule() == old(self).schedule()
                && final(self).pool().queries().len() == old(self).pool().queries().len(),
            old(self).events().len() > 0 ==> r
                == Some(ToSwarm::GenerateEvent(old(self).events()[0]))
                && final(self).events() == old(self).events().skip(1)
                    && final(self).pool() == old(self).pool()
                    && final(self).table() == old(self).table(),
            match r {
                Some(ToSwarm::GenerateEvent(e)) => is_terminal(e) ==> (query_of(e) matches Some(id)
                    && old(self).pool().contains(id) && !final(self).pool().contains(id)),
                Some(ToSwarm::SendRequest { peer, query_id,
                    request }) => final(self).pool().contains(query_id)
                    && sends(
                    final(self).pool().queries(),
                    query_id,
                    old(self).local(),
                    request,
                ) && crate::pool::waits(final(self).pool().queries(), query_id, peer.key),
                _ => true,
            },
    {
        match self.next_event() {
            Some(e) => {
                return Some(ToSwarm::GenerateEvent(e));
            },
            None => {},
        }
        let applied = self.apply_pending(now);
        let ghost s = *self;
        match self.next_event() {
            Some(e) => {
                proof {
                    assert(handed_out(s, *self, Some(ToSwarm::GenerateEvent(e))));
                    assert(after_pending(s, now, *self, Some(ToSwarm::GenerateEvent(e))));
                    assert(pending_step(*old(self), now, s, applied@));
                }
                return Some(ToSwarm::GenerateEvent(e));
            },
            None => {},
        }
        let ghost mut n: nat = 0;
        loop
            invariant
                self.forced() == old(self).forced(),
                self.external() == old(self).external(),
                self.wf(),
                self.events().len() == 0,
                self.schedule() == old(self).schedule(),
                self.record_job() == old(self).record_job(),
                self.provider_job() == old(self).provider_job(),
                self.pool().queries().len() == old(self).pool().queries().len(),
                self.records() == old(self).records(),
                self.providers() == old(self).providers(),
                self.connected() == old(self).connected(),
                self.local() == old(self).local(),
                self.config() == old(self).config(),
                self.mode() == old(self).mode(),
                self.pool().next_id() == old(self).pool().next_id(),
                old(self).events().len() == 0,
                forall|id: QueryId|
                    #[trigger] self.pool().contains(id) ==> old(self).pool().contains(id),
                pending_step(*old(self), now, s, applied@),
                s.events().len() == 0,
                looks_continued(s, now, n, *self),
            decreases weight(self.pool().queries()),
        {
            let ghost last = *self;
            let polled = self.poll_query(now);
            match polled {
                Polled::Action(action) => {
                    proof {
                        assert(query_looked(last, now, *self, outcome_of(Some(action))));
                        assert(after_pending(s, now, *self, Some(action)));
                    }
                    return Some(action);
                },
                Polled::Continued => {
                    proof {
                        assert(query_looked(last, now, *self, Polled::Continued));
                        assert(looks_continued(s, now, ((n + 1) - 1) as nat, last));
                        assert(looks_continued(s, now, n + 1, *self));
                        n = n + 1;
                    }
                },
                Polled::Rest => {
                    proof {
                        assert(query_looked(last, now, *self, outcome_of(None)));
                        assert(after_pending(s, now, *self, None));
                    }
                    return None;
                },
            }
        }
    }

    /// Lets the queries take a step each at time `now`, in their order, up
    /// to the first that has something to say. A query that has a request
    /// to send names the peer and the request; where no connection to the
    /// peer is open, the request waits and the peer is to be dialed. A query
    /// that is done or out of time leaves the pool: it gives its report, or
    /// goes on with its next phase, or both.
    pub fn poll_query(&mut self, now: u64) -> (r: Polled)
        requires
            old(self).wf(),
        ensures
            final(self).wf(),
            query_looked(*old(self), now, *final(self), r),
            final(self).forced() == old(self).forced(),
            final(self).external() == old(self).external(),
            final(self).table() == old(self).table(),
            final(self).records() == old(self).records(),
            final(self).providers() == old(self).providers(),
            final(self).events() == old(self).events(),
            final(self).connected() == old(self).connected(),
            final(self).local() == old(self).local(),
            final(self).config() == old(self).config(),
            final(self).mode() == old(self).mode(),
            final(self).record_job() == old(self).record_job(),
            final(self).provider_job() == old(self).provider_job(),
            final(self).pool().next_id() == old(self).pool().next_id(),
            forall|id: QueryId|
                #[trigger] final(self).pool().contains(id) ==> old(self).pool().contains(id),
            exists|mid: Seq<Query<QueryInfo>>, polled: QueryPoolState<QueryInfo>|
                crate::pool::pool_step(
                    old(self).pool().queries(),
                    old(self).config().query_config.timeout,
                    now,
                    mid,
                    polled,
                ) && #[trigger] looked(*old(self), mid, polled, *final(self), r),
            r is Continued ==> final(self).schedule() == old(self).schedule()
                && final(self).pool().queries().len() == old(self).pool().queries().len()
                && weight(final(self).pool().queries()) < weight(old(self).pool().queries()),
            r is Rest ==> final(self).schedule() == old(self).schedule()
                && final(self).pool().queries().len() == old(self).pool().queries().len()
                && crate::pool::all_at_rest(
                final(self).pool().queries(),
                old(self).config().query_config.timeout,
                now,
            ),
            match r {
                Polled::Action(ToSwarm::GenerateEvent(e)) => is_terminal(e) ==> (query_of(
                    e,
                ) matches Some(id) && old(self).pool().contains(id) && !final(self).pool().contains(
                    id,
                )),
                Polled::Action(ToSwarm::SendRequest { peer, query_id,
                    request }) => final(self).pool().contains(query_id) && sends(
                    final(self).pool().queries(),
                    query_id,
                    old(self).local(),
                    request,
                ) && crate::pool::waits(final(self).pool().queries(), query_id, peer.key),
                _ => true,
            },
    {
        let ghost before = self.pool();
        let polled = self.queries.poll(now);
        let ghost mid = self.pool().queries();
        proof {
            lemma_weight_after_poll(
                before.queries(),
                before.config().timeout,
                now,
                self.pool().queries(),
                polled,
            );
            if polled is Idle || polled == QueryPoolState::<QueryInfo>::Waiting(None) {
                crate::pool::lemma_polled_at_rest(
                    before.queries(),
                    before.config().timeout,
                    now,
                    self.pool().queries(),
                    polled,
                );
            }
        }
        match polled {
            QueryPoolState::Finished(q) => {
                proof {
                    self.lemma_polled(before, q.info);
                }
                let ended = self.query_ended(q, false);
                let ghost report = result_of(ended);
                let r = match ended {
                    Some(e) => Polled::Action(ToSwarm::GenerateEvent(e)),
                    None => Polled::Continued,
                };
                proof {
                    let after = self.pool().queries();
                    assert(report_of(r) == report);
                    if self.pool().contains(q.id) {
                        assert(after =~= after.drop_last().push(after.last()));
                    }
                    assert(wound_up(*old(self), mid, q, false, *self, r));
                    assert(looked(*old(self), mid, polled, *self, r));
                }
                r
            },
            QueryPoolState::Timeout(q) => {
                proof {
                    self.lemma_polled(before, q.info);
                }
                let ended = self.query_ended(q, true);
                let ghost report = result_of(ended);
                let r = match ended {
                    Some(e) => Polled::Action(ToSwarm::GenerateEvent(e)),
                    None => Polled::Continued,
                };
                proof {
                    let after = self.pool().queries();
                    assert(report_of(r) == report);
                    if self.pool().contains(q.id) {
                        assert(after =~= after.drop_last().push(after.last()));
                    }
                    assert(wound_up(*old(self), mid, q, true, *self, r));
                    assert(looked(*old(self), mid, polled, *self, r));
                }
                r
            },
            QueryPoolState::Waiting(Some((id, peer))) => {
                proof {
                    self.lemma_polled_kept(before);
                }
                match self.queries.position(id) {
                    Some(i) => {
                        let request = self.request_for(&self.queries.query(i).info);
                        let r = if self.is_connected(&peer.key) {
                            Polled::Action(ToSwarm::SendRequest { peer, query_id: id, request })
                        } else {
                            self.held.push(HeldRequest { peer, query_id: id, request });
                            proof {
                                assert(self.held().drop_last() =~= old(self).held());
                            }
                            Polled::Action(ToSwarm::Dial { peer })
                        };
                        proof {
                            assert(looked(*old(self), mid, polled, *self, r));
                        }
                        r
                    },
                    None => {
                        proof {
                            assert(self.pool().contains(id));
                        }
                        assert(false);
                        Polled::Rest
                    },
                }
            },
            QueryPoolState::Waiting(None) => {
                proof {
                    self.lemma_polled_kept(before);
                    assert(looked(*old(self), mid, polled, *self, Polled::Rest));
                }
                Polled::Rest
            },
            QueryPoolState::Idle => {
                proof {
                    self.lemma_polled_kept(before);
                    assert(looked(*old(self), mid, polled, *self, Polled::Rest));
                }
                Polled::Rest
            },
        }
    }

    /// After a poll of the pool no query stands at a last step.
    proof fn lemma_polled_kept(self, before: QueryPool<QueryInfo>)
        requires
            steps_open(before.queries()),
            crate::pool::infos_kept(before.queries(), self.pool().queries()),
        ensures
            steps_open(self.pool().queries()),
    {
        let a = before.queries();
        let b = self.pool().queries();
        assert forall|i: int| 0 <= i < b.len() implies !step_of((#[trigger] b[i]).info).last by {
            let j = choose|j: int|
                0 <= j < a.len() && (#[trigger] a[j]).info == (#[trigger] b[i]).info && a[j].id
                    == b[i].id;
            assert(!step_of(a[j].info).last);
        }
    }

    /// After a poll of the pool no query stands at a last step, and neither
    /// does the query that left.
    proof fn lemma_polled(self, before: QueryPool<QueryInfo>, info: QueryInfo)
        requires
            steps_open(before.queries()),
            crate::pool::infos_kept(before.queries(), self.pool().queries()),
            crate::pool::info_among(before.queries(), info),
        ensures
            steps_open(self.pool().queries()),
            !step_of(info).last,
    {
        self.lemma_polled_kept(before);
        let a = before.queries();
        let j = choose|j: int| 0 <= j < a.len() && (#[trigger] a[j]).info == info;
        assert(!step_of(a[j].info).last);
    }

    /// Takes a query that has left the pool, because it is done or because
    /// it has run out of time, and gives its report.
    ///
    /// A lookup reports the peers that answered. A bootstrap reports the
    /// number of lookups that remain, and goes on with the next. A query in
    /// its first phase that is done goes on with its second, without a
    /// report: the closest peers that answered are sent the record or the
    /// provider. A report is marked as last if and only if the query does not
    /// go on.
    fn query_ended(&mut self, q: Query<QueryInfo>, timed_out: bool) -> (r: Option<Event>)
        requires
            old(self).wf(),
            q.wf(),
            !old(self).pool().contains(q.id),
            q.id.0 < old(self).pool().next_id(),
            !step_of(q.info).last,
        ensures
            final(self).wf(),
            final(self).held() == old(self).held(),
            refreshed(*old(self), q.info, put_back(final(self).pool(), q.id), *final(self)),
            final(self).forced() == old(self).forced(),
            final(self).external() == old(self).external(),
            final(self).table() == old(self).table(),
            final(self).records() == old(self).records(),
            final(self).providers() == old(self).providers(),
            final(self).events() == old(self).events(),
            final(self).connected() == old(self).connected(),
            final(self).local() == old(self).local(),
            final(self).config() == old(self).config(),
            final(self).mode() == old(self).mode(),
            final(self).pool().next_id() == old(self).pool().next_id(),
            final(self).pool().contains(q.id) ==> final(self).pool().queries().drop_last()
                == old(self).pool().queries()
                && final(self).pool().queries().last().id == q.id,
            !final(self).pool().contains(q.id) ==> final(self).pool().queries()
                == old(self).pool().queries(),
            forall|x: QueryId|
                #[trigger] final(self).pool().contains(x) ==> old(self).pool().contains(x) || x
                    == q.id,
            final(self).record_job() == old(self).record_job(),
            final(self).provider_job() == old(self).provider_job(),
            r is None ==> final(self).schedule() == old(self).schedule(),
            final(self).schedule() == if ends_bootstrap(r) {
                crate::bootstrap::after_finish(old(self).schedule())
            } else {
                old(self).schedule()
            },
            r is None ==> final(self).pool().contains(q.id),
            r is None ==> weight(final(self).pool().queries()) + 1 == weight(
                old(self).pool().queries(),
            ) + info_weight(q.info),
            r is Some ==> (r->0 matches Event::OutboundQueryProgressed { id, result, stats, step }
                && id == q.id && stats == stats_of(q) && step.count == step_of(q.info).count && (
            step.last <==> !final(self).pool().contains(q.id))),
            concluded(
                q,
                old(self).table(),
                old(self).config().query_config,
                timed_out,
                result_of(r),
                put_back(final(self).pool(), q.id),
            ),
    {
        let id = q.id;
        let ghost q0 = q;
        let ghost yielded = q.peers;
        let ghost info0 = q.info;
        let outcome = q.into_result();
        let peers = outcome.peers;
        let stats = outcome.stats;
        let ghost found = peers@;
        proof {
            assert(!self.pool().contains(id));
        }
        match outcome.info {
            QueryInfo::Bootstrap { peer, remaining, step } => {
                let remaining = match remaining {
                    Some(r) => r,
                    None => refresh_targets(&self.kbuckets, &mut self.generator),
                };
                let ghost left = remaining@.len();
                let ghost targets = remaining@;
                let progress = bootstrap_advance(peer, remaining, step);
                match progress.next {
                    Some((target, rest)) => {
                        proof {
                            assert(seq![target] + rest@ =~= targets);
                        }
                        let info = QueryInfo::Bootstrap {
                            peer: target,
                            remaining: Some(rest),
                            step: step.next(),
                        };
                        let seeds = self.seed_peers(&target.key);
                        let iter = self.lookup_iter(target.key, crate::config::K_VALUE, &seeds);
                        self.continue_query(id, iter, info);
                    },
                    None => {
                        self.bootstrap_status.on_finish();
                    },
                }
                let result = if timed_out {
                    Err(
                        BootstrapError::Timeout {
                            peer,
                            num_remaining: Some(progress.event.num_remaining),
                        },
                    )
                } else {
                    Ok(progress.event)
                };
                let r = Some(
                    Event::OutboundQueryProgressed {
                        id,
                        result: QueryResult::Bootstrap(result),
                        stats,
                        step: progress.step,
                    },
                );
                proof {
                    assert(left == lookups_left(info0, old(self).table()));
                    assert(refreshed(*old(self), info0, put_back(self.pool(), id), *self));
                    assert(ends_with(
                        info0,
                        found,
                        timed_out,
                        lookups_left(info0, old(self).table()),
                        result_of(r),
                        put_back(self.pool(), id) is Some,
                    ));
                }
                r
            },
            QueryInfo::GetClosestPeers { key, step, num_results } => {
                let result = if timed_out {
                    Err(GetClosestPeersError::Timeout { key, peers })
                } else {
                    Ok(GetClosestPeersOk { key, peers })
                };
                let r = Some(
                    Event::OutboundQueryProgressed {
                        id,
                        result: QueryResult::GetClosestPeers(result),
                        stats,
                        step: step.terminal(),
                    },
                );
                proof {
                    assert(ends_with(
                            info0,
                            found,
                            timed_out,
                            lookups_left(info0, old(self).table()),
                            result_of(r),
                            put_back(self.pool(), id) is Some,
                        ));
                }
                r
            },
            QueryInfo::GetProviders { key, providers_found, step } => {
                let result = if timed_out {
                    Err(GetProvidersError::Timeout { key, closest_peers: peers })
                } else {
                    Ok(GetProvidersOk::FinishedWithNoAdditionalRecord { closest_peers: peers })
                };
                let r = Some(
                    Event::OutboundQueryProgressed {
                        id,
                        result: QueryResult::GetProviders(result),
                        stats,
                        step: step.terminal(),
                    },
                );
                proof {
                    assert(ends_with(
                            info0,
                            found,
                            timed_out,
                            lookups_left(info0, old(self).table()),
                            result_of(r),
                            put_back(self.pool(), id) is Some,
                        ));
                }
                r
            },
            QueryInfo::GetRecord { key, step, found: count, quorum } => {
                let result = if timed_out {
                    Err(GetRecordError::Timeout { key })
                } else {
                    get_record_outcome(key, count, quorum, peers)
                };
                let r = Some(
                    Event::OutboundQueryProgressed {
                        id,
                        result: QueryResult::GetRecord(result),
                        stats,
                        step: step.terminal(),
                    },
                );
                proof {
                    assert(ends_with(
                            info0,
                            found,
                            timed_out,
                            lookups_left(info0, old(self).table()),
                            result_of(r),
                            put_back(self.pool(), id) is Some,
                        ));
                }
                r
            },
            QueryInfo::AddProvider { key, phase, context } => {
                match phase {
                    AddProviderPhase::GetClosestPeers => {
                        if !timed_out {
                            let iter = QueryPeerIter::Fixed(
                                FixedPeersIter::with_peers(
                                    &peers,
                                    self.config.query_config.parallelism,
                                    self.config.query_config.peer_timeout,
                                ),
                            );
                            let info = QueryInfo::AddProvider {
                                key,
                                phase: AddProviderPhase::AddProvider {
                                    get_closest_peers_stats: stats,
                                },
                                context,
                            };
                            self.continue_query(id, iter, info);
                            proof {
                                assert(ends_with(
                                    info0,
                                    found,
                                    timed_out,
                                    lookups_left(info0, old(self).table()),
                                    result_of(None::<Event>),
                                    put_back(self.pool(), id) is Some,
                                ));
                            }
                            return None;
                        }
                        let r = Some(
                            Event::OutboundQueryProgressed {
                                id,
                                result: provider_result(
                                    context,
                                    Err(AddProviderError::Timeout { key }),
                                ),
                                stats,
                                step: ProgressStep::first_and_last(),
                            },
                        );
                        proof {
                            assert(ends_with(
                            info0,
                            found,
                            timed_out,
                            lookups_left(info0, old(self).table()),
                            result_of(r),
                            put_back(self.pool(), id) is Some,
                        ));
                        }
                        r
                    },
                    AddProviderPhase::AddProvider { get_closest_peers_stats } => {
                        let answer = if timed_out {
                            Err(AddProviderError::Timeout { key })
                        } else {
                            Ok(AddProviderOk { key })
                        };
                        let r = Some(
                            Event::OutboundQueryProgressed {
                                id,
                                result: provider_result(context, answer),
                                stats: get_closest_peers_stats.merge(stats),
                                step: ProgressStep::first_and_last(),
                            },
                        );
                        proof {
                            assert(ends_with(
                            info0,
                            found,
                            timed_out,
                            lookups_left(info0, old(self).table()),
                            result_of(r),
                            put_back(self.pool(), id) is Some,
                        ));
                        }
                        r
                    },
                }
            },
            QueryInfo::PutRecord { record, quorum, context, phase } => {
                let key = crate::bytes::bytes_copy(record.key.as_slice());
                match phase {
                    PutRecordPhase::GetClosestPeers => {
                        if !timed_out {
                            let iter = QueryPeerIter::Fixed(
                                FixedPeersIter::with_peers(
                                    &peers,
                                    self.config.query_config.parallelism,
                                    self.config.query_config.peer_timeout,
                                ),
                            );
                            let info = QueryInfo::PutRecord {
                                record,
                                quorum,
                                context,
                                phase: PutRecordPhase::PutRecord {
                                    get_closest_peers_stats: stats,
                                },
                            };
                            self.continue_query(id, iter, info);
                            proof {
                                assert(ends_with(
                                    info0,
                                    found,
                                    timed_out,
                                    lookups_left(info0, old(self).table()),
                                    result_of(None::<Event>),
                                    put_back(self.pool(), id) is Some,
                                ));
                            }
                            return None;
                        }
                        let answer = Err(
                            PutRecordError::Timeout { key, success: Vec::new(), quorum },
                        );
                        let r = Some(
                            Event::OutboundQueryProgressed {
                                id,
                                result: record_result(context, answer),
                                stats,
                                step: ProgressStep::first_and_last(),
                            },
                        );
                        proof {
                            assert(ends_with(
                            info0,
                            found,
                            timed_out,
                            lookups_left(info0, old(self).table()),
                            result_of(r),
                            put_back(self.pool(), id) is Some,
                        ));
                        }
                        r
                    },
                    PutRecordPhase::PutRecord { get_closest_peers_stats } => {
                        let answer = if timed_out {
                            Err(PutRecordError::Timeout { key, success: peers, quorum })
                        } else {
                            put_record_outcome(key, peers, quorum)
                        };
                        let r = Some(
                            Event::OutboundQueryProgressed {
                                id,
                                result: record_result(context, answer),
                                stats: get_closest_peers_stats.merge(stats),
                                step: ProgressStep::first_and_last(),
                            },
                        );
                        proof {
                            assert(ends_with(
                            info0,
                            found,
                            timed_out,
                            lookups_left(info0, old(self).table()),
                            result_of(r),
                            put_back(self.pool(), id) is Some,
                        ));
                        }
                        r
                    },
                }
            },
        }
    }

    /// Puts a query back into the pool under the identifier that it had.
    fn continue_query(&mut self, id: QueryId, iter: QueryPeerIter, info: QueryInfo)
        requires
            old(self).wf(),
            iter.wf(),
            !old(self).pool().contains(id),
            id.0 < old(self).pool().next_id(),
            !step_of(info).last,
            iter_target(iter) == lookup_key(info),
        ensures
            final(self).wf(),
            final(self).held() == old(self).held(),
            final(self).generator() == old(self).generator(),
            final(self).forced() == old(self).forced(),
            final(self).external() == old(self).external(),
            final(self).table() == old(self).table(),
            final(self).records() == old(self).records(),
            final(self).providers() == old(self).providers(),
            final(self).events() == old(self).events(),
            final(self).connected() == old(self).connected(),
            final(self).local() == old(self).local(),
            final(self).config() == old(self).config(),
            final(self).mode() == old(self).mode(),
            final(self).pool().next_id() == old(self).pool().next_id(),
            final(self).schedule() == old(self).schedule(),
            final(self).record_job() == old(self).record_job(),
            final(self).provider_job() == old(self).provider_job(),
            final(self).pool().contains(id),
            final(self).pool().queries() == old(self).pool().queries().push(
                Query { id, peers: iter, stats: crate::query::no_stats(), info },
            ),
            final(self).pool().queries().drop_last() == old(self).pool().queries(),
            final(self).pool().queries().last().id == id,
            weight(final(self).pool().queries()) == weight(old(self).pool().queries())
                + info_weight(info),
            forall|x: QueryId|
                #[trigger] final(self).pool().contains(x) ==> old(self).pool().contains(x) || x
                    == id,
    {
        self.queries.continue_with(id, iter, info);
        proof {
            lemma_weight_push(
                old(self).pool().queries(),
                Query { id, peers: iter, stats: crate::query::no_stats(), info },
            );
            assert forall|x: QueryId| #[trigger] self.pool().contains(x) implies old(self).pool().contains(x) || x == id by {
                let i = choose|i: int| query_at(self.pool().queries(), x, i);
                if i < old(self).pool().queries().len() {
                    assert(query_at(old(self).pool().queries(), x, i));
                }
            }
            lemma_query_pushed(
                old(self).pool().queries(),
                Query { id, peers: iter, stats: crate::query::no_stats(), info },
            );
            assert(self.pool().queries().drop_last() =~= old(self).pool().queries());
            assert(query_at(self.pool().queries(), id, old(self).pool().queries().len() as int));
        }
    }

    /// The peers from which a lookup towards `target` starts: the nodes of
    /// the routing table closest to it, a bucket's worth of them.
    fn seed_peers(&self, target: &Key) -> (r: Vec<Peer>)
        requires
            self.wf(),
        ensures
            is_closest(as_entries(r@), self.table().keys(), *target, crate::config::K_VALUE as nat),
    {
        let found = self.kbuckets.closest(target, crate::config::K_VALUE);
        let n = found.len();
        let mut out: Vec<Peer> = Vec::new();
        let mut i: usize = 0;
        while i < n
            invariant
                0 <= i <= n,
                n == found@.len(),
                out@.len() == i,
                forall|j: int| 0 <= j < i ==> (#[trigger] out@[j]) == found@[j].peer,
            decreases n - i,
        {
            out.push(found[i].peer);
            i += 1;
        }
        proof {
            assert forall|x: int| 0 <= x < found@.len() implies (#[trigger] as_entries(out@)[x]).peer
                == found@[x].peer by {}
            crate::serve::lemma_same_peers_closest(
                found@,
                as_entries(out@),
                self.table().keys(),
                *target,
                crate::config::K_VALUE as nat,
            );
        }
        out
    }

    /// Starts a lookup of the `num_results` closest peers to `target`, over
    /// one path or over disjoint paths as configured.
    fn start_lookup(&mut self, target: Key, num_results: usize, info: QueryInfo) -> (id: QueryId)
        requires
            old(self).wf(),
            num_results >= 1,
            old(self).pool().next_id() < usize::MAX,
            !step_of(info).last,
            lookup_key(info) == Some(target),
        ensures
            final(self).wf(),
            final(self).held() == old(self).held(),
            final(self).generator() == old(self).generator(),
            final(self).forced() == old(self).forced(),
            final(self).external() == old(self).external(),
            final(self).schedule() == old(self).schedule(),
            final(self).record_job() == old(self).record_job(),
            final(self).provider_job() == old(self).provider_job(),
            started(*old(self), *final(self), id, info),
            lookup_seeded(
                final(self).pool().queries().last().peers,
                old(self).config().query_config,
                target,
                old(self).table().keys(),
                num_results,
            ),
            final(self).events() == old(self).events(),
            final(self).records() == old(self).records(),
            final(self).providers() == old(self).providers(),
    {
        let peers = self.seed_peers(&target);
        let iter = self.lookup_iter(target, num_results, &peers);
        let id = self.queries.add(iter, info);
        proof {
            assert(self.pool().queries().drop_last() =~= old(self).pool().queries());
            assert(iter_seeded(
                self.pool().queries().last().peers,
                old(self).config().query_config,
                target,
                peers@,
                num_results,
            ));
            lemma_query_pushed(
                old(self).pool().queries(),
                Query { id, peers: iter, stats: crate::query::no_stats(), info },
            );
        }
        id
    }

    /// The iterator of a lookup of the `num_results` closest peers to
    /// `target` that starts from `peers`.
    fn lookup_iter(&self, target: Key, num_results: usize, peers: &Vec<Peer>) -> (iter:
        QueryPeerIter)
        requires
            self.wf(),
            num_results >= 1,
        ensures
            iter.wf(),
            iter_seeded(iter, self.config().query_config, target, peers@, num_results),
    {
        let cfg = ClosestPeersIterConfig {
            parallelism: self.config.query_config.parallelism,
            num_results,
            required: num_results,
            peer_timeout: self.config.query_config.peer_timeout,
        };
        if self.config.query_config.disjoint_query_paths {
            QueryPeerIter::ClosestDisjoint(
                ClosestDisjointPeersIter::with_config(
                    cfg,
                    target,
                    peers,
                    self.config.query_config.parallelism,
                ),
            )
        } else {
            QueryPeerIter::Closest(ClosestPeersIter::with_config(cfg, target, peers))
        }
    }

    /// Starts a lookup of the peers closest to `key`, a bucket's worth of them.
    pub fn get_closest_peers(&mut self, key: Vec<u8>) -> (id: QueryId)
        requires
            old(self).wf(),
            old(self).pool().next_id() < usize::MAX,
        ensures
            final(self).wf(),
            final(self).held() == old(self).held(),
            final(self).generator() == old(self).generator(),
            final(self).forced() == old(self).forced(),
            final(self).external() == old(self).external(),
            final(self).schedule() == old(self).schedule(),
            final(self).record_job() == old(self).record_job(),
            final(self).provider_job() == old(self).provider_job(),
            started(
                *old(self),
                *final(self),
                id,
                QueryInfo::GetClosestPeers {
                    key,
                    step: ProgressStep { count: 1, last: false },
                    num_results: crate::config::K_VALUE,
                },
            ),
            lookup_seeded(
                final(self).pool().queries().last().peers,
                old(self).config().query_config,
                key_at(key@),
                old(self).table().keys(),
                crate::config::K_VALUE,
            ),
            final(self).events() == old(self).events(),
            final(self).records() == old(self).records(),
            final(self).providers() == old(self).providers(),
    {
        self.get_n_closest_peers(key, crate::config::K_VALUE)
    }

    /// Starts a lookup of the `num_results` closest peers to `key`; of a
    /// bucket's worth at most.
    pub fn get_n_closest_peers(&mut self, key: Vec<u8>, num_results: usize) -> (id: QueryId)
        requires
            old(self).wf(),
            num_results >= 1,
            old(self).pool().next_id() < usize::MAX,
        ensures
            final(self).wf(),
            final(self).held() == old(self).held(),
            final(self).generator() == old(self).generator(),
            final(self).forced() == old(self).forced(),
            final(self).external() == old(self).external(),
            final(self).schedule() == old(self).schedule(),
            final(self).record_job() == old(self).record_job(),
            final(self).provider_job() == old(self).provider_job(),
            started(
                *old(self),
                *final(self),
                id,
                QueryInfo::GetClosestPeers {
                    key,
                    step: ProgressStep { count: 1, last: false },
                    num_results: at_most_k(num_results),
                },
            ),
            lookup_seeded(
                final(self).pool().queries().last().peers,
                old(self).config().query_config,
                key_at(key@),
                old(self).table().keys(),
                at_most_k(num_results),
            ),
            final(self).events() == old(self).events(),
            final(self).records() == old(self).records(),
            final(self).providers() == old(self).providers(),
    {
        let wanted = if num_results > crate::config::K_VALUE {
            crate::config::K_VALUE
        } else {
            num_results
        };
        let target = Key::new(key.as_slice());
        let info = QueryInfo::GetClosestPeers {
            key,
            step: ProgressStep::first(),
            num_results: wanted,
        };
        let id = self.start_lookup(target, wanted, info);
        proof {
            assert(lookup_seeded(
                self.pool().queries().last().peers,
                old(self).config().query_config,
                target,
                old(self).table().keys(),
                wanted,
            ));
        }
        id
    }

    /// Starts the bootstrap: a lookup of the neighbourhood of the local
    /// peer, after which the farther buckets are refreshed. Without a peer
    /// in the routing table there is nowhere to start from.
    pub fn bootstrap(&mut self, now: u64) -> (r: Result<QueryId, NoKnownPeers>)
        requires
            old(self).wf(),
            old(self).pool().next_id() < usize::MAX,
        ensures
            final(self).wf(),
            final(self).held() == old(self).held(),
            final(self).generator() == old(self).generator(),
            bootstrapped(*old(self), now, *final(self), r),
            final(self).forced() == old(self).forced(),
            final(self).external() == old(self).external(),
            final(self).record_job() == old(self).record_job(),
            final(self).provider_job() == old(self).provider_job(),
            final(self).table() == old(self).table(),
            final(self).local() == old(self).local(),
            final(self).config() == old(self).config(),
            final(self).mode() == old(self).mode(),
            final(self).connected() == old(self).connected(),
            r is Err <==> old(self).table().keys() == Set::<Key>::empty(),
            r is Err ==> final(self).pool() == old(self).pool()
                && final(self).schedule() == old(self).schedule(),
            r is Ok ==> final(self).schedule() == crate::bootstrap::after_start(
                old(self).schedule(),
                now,
            ),
            r is Ok ==> started(
                *old(self),
                *final(self),
                r->Ok_0,
                QueryInfo::Bootstrap {
                    peer: old(self).local(),
                    remaining: None,
                    step: ProgressStep { count: 1, last: false },
                },
            ) && lookup_seeded(
                final(self).pool().queries().last().peers,
                old(self).config().query_config,
                old(self).local().key,
                old(self).table().keys(),
                crate::config::K_VALUE,
            ),
            final(self).events() == old(self).events(),
            final(self).records() == old(self).records(),
            final(self).providers() == old(self).providers(),
    {
        let target = self.local.key;
        let peers = self.seed_peers(&target);
        if peers.len() == 0 {
            proof {
                let keys = self.table().keys();
                assert forall|k: Key| !keys.contains(k) by {
                    if keys.contains(k) {
                        assert(!has_key(as_entries(peers@), k));
                    }
                }
                assert(keys =~= Set::<Key>::empty());
            }
            return Err(NoKnownPeers);
        }
        proof {
            assert(self.table().keys().contains(as_entries(peers@)[0].peer.key));
        }
        let info = QueryInfo::Bootstrap {
            peer: self.local,
            remaining: None,
            step: ProgressStep::first(),
        };
        let iter = self.lookup_iter(target, crate::config::K_VALUE, &peers);
        let id = self.queries.add(iter, info);
        self.bootstrap_status.on_started(now);
        proof {
            lemma_query_pushed(
                old(self).pool().queries(),
                Query { id, peers: iter, stats: crate::query::no_stats(), info },
            );
            assert(self.pool().queries().drop_last() =~= old(self).pool().queries());
            assert(iter_seeded(
                self.pool().queries().last().peers,
                old(self).config().query_config,
                target,
                peers@,
                crate::config::K_VALUE,
            ));
        }
        Ok(id)
    }

    /// Stores `record` locally with the local peer as its publisher, and
    /// starts a query that stores it at the closest peers to its key. The
    /// query succeeds when as many peers as `quorum` asks for have stored the
    /// record. Where the local store refuses the record, nothing is started.
    pub fn put_record(&mut self, record: Record, quorum: Quorum, now: u64) -> (r: Result<
        QueryId,
        StoreError,
    >)
        requires
            old(self).wf(),
            old(self).pool().next_id() < usize::MAX,
        ensures
            final(self).wf(),
            final(self).held() == old(self).held(),
            final(self).generator() == old(self).generator(),
            final(self).forced() == old(self).forced(),
            final(self).external() == old(self).external(),
            final(self).schedule() == old(self).schedule(),
            final(self).record_job() == old(self).record_job(),
            final(self).provider_job() == old(self).provider_job(),
            final(self).providers() == old(self).providers(),
            final(self).events() == old(self).events(),
            final(self).table() == old(self).table(),
            final(self).records().config() == old(self).records().config(),
            r is Ok <==> put_result(
                old(self).records()@.records,
                old(self).records().spec_len(),
                old(self).records().config(),
                published(record@, old(self).local().id),
            ) is Ok,
            r is Err ==> Err::<(), StoreError>(r->Err_0) == put_result(
                old(self).records()@.records,
                old(self).records().spec_len(),
                old(self).records().config(),
                published(record@, old(self).local().id),
            ) && final(self).records()@.records == old(self).records()@.records
                && final(self).pool()
                == old(self).pool(),
            r is Ok ==> final(self).records()@.records == old(self).records()@.records.insert(
                record@.key,
                published(record@, old(self).local().id),
            ),
            r is Ok ==> started_query(*old(self), *final(self), r->Ok_0),
            r is Ok ==> lookup_seeded(
                final(self).pool().queries().last().peers,
                old(self).config().query_config,
                key_at(record@.key),
                old(self).table().keys(),
                old(self).config().query_config.replication_factor,
            ),
            r is Ok ==> (final(self).pool().queries().last().info matches QueryInfo::PutRecord {
                record: sent,
                quorum: q,
                context,
                phase,
            } && sent@ == (RecordView {
                expires: first_expiry(record@.expires, old(self).config().record_ttl, now),
                ..published(record@, old(self).local().id)
            }) && q == quorum_of(quorum, old(self).config().query_config.replication_factor)
                && context == PutRecordContext::Publish && phase
                == PutRecordPhase::GetClosestPeers),
    {
        let ghost old_record = record@;
        let ghost old_quorum = quorum;
        let mut record = record;
        record.publisher = Some(self.local.id);
        let local_copy = record.duplicate();
        match self.records.put(local_copy) {
            Err(e) => {
                return Err(e);
            },
            Ok(()) => {},
        }
        if record.expires.is_none() {
            record.expires = match self.config.record_ttl {
                Some(ttl) => Some(crate::candidates::deadline(now, ttl)),
                None => None,
            };
        }
        let replication = self.config.query_config.replication_factor;
        let quorum = quorum.eval(replication);
        let target = Key::new(record.key.as_slice());
        let ghost sent = record;
        let info = QueryInfo::PutRecord {
            record,
            quorum,
            context: PutRecordContext::Publish,
            phase: PutRecordPhase::GetClosestPeers,
        };
        let id = self.start_lookup(target, replication, info);
        Ok(id)
    }

    /// Removes the record under `key` from the local store. The peers that
    /// hold the record keep it until it expires.
    pub fn remove_record(&mut self, key: &[u8])
        requires
            old(self).wf(),
        ensures
            final(self).wf(),
            final(self).held() == old(self).held(),
            final(self).generator() == old(self).generator(),
            final(self).connected() == old(self).connected(),
            final(self).local() == old(self).local(),
            final(self).config() == old(self).config(),
            final(self).mode() == old(self).mode(),
            final(self).forced() == old(self).forced(),
            final(self).external() == old(self).external(),
            final(self).schedule() == old(self).schedule(),
            final(self).record_job() == old(self).record_job(),
            final(self).provider_job() == old(self).provider_job(),
            final(self).records()@.records == old(self).records()@.records.remove(key@),
            final(self).providers() == old(self).providers(),
            final(self).events() == old(self).events(),
            final(self).table() == old(self).table(),
            final(self).pool() == old(self).pool(),
    {
        self.records.remove(key);
    }

    /// Puts a record into the local store as it is. This is how the user
    /// accepts a record that was handed to them.
    pub fn store_put(&mut self, record: Record) -> (r: Result<(), StoreError>)
        requires
            old(self).wf(),
        ensures
            final(self).wf(),
            final(self).held() == old(self).held(),
            final(self).generator() == old(self).generator(),
            final(self).connected() == old(self).connected(),
            final(self).local() == old(self).local(),
            final(self).config() == old(self).config(),
            final(self).mode() == old(self).mode(),
            final(self).forced() == old(self).forced(),
            final(self).external() == old(self).external(),
            final(self).schedule() == old(self).schedule(),
            final(self).record_job() == old(self).record_job(),
            final(self).provider_job() == old(self).provider_job(),
            r == put_result(
                old(self).records()@.records,
                old(self).records().spec_len(),
                old(self).records().config(),
                record@,
            ),
            r is Ok ==> final(self).records()@.records == old(self).records()@.records.insert(
                record@.key,
                record@,
            ),
            r is Err ==> final(self).records()@.records == old(self).records()@.records,
            final(self).providers() == old(self).providers(),
            final(self).events() == old(self).events(),
            final(self).table() == old(self).table(),
            final(self).pool() == old(self).pool(),
    {
        self.records.put(record)
    }

    /// Starts a lookup of the record under `key`. A record that the local
    /// store holds and that has not expired is reported at once, as the
    /// first event of the query; one that has expired is removed. The query
    /// ends when as many records as `quorum` asks for were found, or when
    /// the lookup is done.
    pub fn get_record(&mut self, key: Vec<u8>, quorum: Quorum, now: u64) -> (id: QueryId)
        requires
            old(self).wf(),
            old(self).pool().next_id() < usize::MAX,
        ensures
            final(self).wf(),
            final(self).held() == old(self).held(),
            final(self).generator() == old(self).generator(),
            final(self).connected() == old(self).connected(),
            final(self).local() == old(self).local(),
            final(self).config() == old(self).config(),
            final(self).mode() == old(self).mode(),
            final(self).forced() == old(self).forced(),
            final(self).external() == old(self).external(),
            final(self).schedule() == old(self).schedule(),
            final(self).record_job() == old(self).record_job(),
            final(self).provider_job() == old(self).provider_job(),
            final(self).providers() == old(self).providers(),
            final(self).table() == old(self).table(),
            id == QueryId(old(self).pool().next_id()),
            final(self).pool().next_id() == old(self).pool().next_id() + 1,
            final(self).pool().queries().len() == old(self).pool().queries().len() + 1,
            final(self).pool().queries().last().id == id,
            final(self).records()@.records == if local_hit(
                old(self).records()@.records,
                key@,
                now,
            ) is Stale {
                old(self).records()@.records.remove(key@)
            } else {
                old(self).records()@.records
            },
            final(self).pool().queries().last().info == (QueryInfo::GetRecord {
                key,
                step: if local_hit(old(self).records()@.records, key@, now) is Live {
                    ProgressStep { count: 2, last: false }
                } else {
                    ProgressStep { count: 1, last: false }
                },
                found: if local_hit(old(self).records()@.records, key@, now) is Live {
                    1
                } else {
                    0
                },
                quorum: quorum_of(quorum,
                    old(self).config().query_config.replication_factor) as usize,
            }),
            local_hit(
                old(self).records()@.records,
                key@,
                now,
            ) is Live ==> final(self).events().len()
                == old(self).events().len() + 1
                    && final(self).events().drop_last() == old(self).events()
                    && exists|found: Record|
                #![trigger found@]
                found@ == old(self).records()@.records[key@] && final(self).events().last()
                    == (Event::OutboundQueryProgressed {
                    id,
                    result: QueryResult::GetRecord(
                        Ok(GetRecordOk::FoundRecord(PeerRecord { peer: None, record: found })),
                    ),
                    stats: crate::query::no_stats(),
                    step: ProgressStep { count: 1, last: false },
                }),
            !(local_hit(old(self).records()@.records, key@, now) is Live) ==> final(self).events()
                == old(self).events(),
            local_hit(old(self).records()@.records, key@, now) is Live && quorum_of(
                quorum,
                old(self).config().query_config.replication_factor,
            ) <= 1 ==> final(self).pool().queries().last().peers.finished(),
            !(local_hit(old(self).records()@.records, key@, now) is Live && quorum_of(
                quorum,
                old(self).config().query_config.replication_factor,
            ) <= 1) ==> lookup_seeded(
                final(self).pool().queries().last().peers,
                old(self).config().query_config,
                key_at(key@),
                old(self).table().keys(),
                crate::config::K_VALUE,
            ),
    {
        let found = match self.records.peek(key.as_slice()) {
            Some(record) => {
                if record.is_expired(now) {
                    None
                } else {
                    Some(record.duplicate())
                }
            },
            None => None,
        };
        let ghost hit = local_hit(old(self).records()@.records, key@, now);
        if found.is_none() {
            // Nothing is removed where the store does not hold the key.
            proof {
                if !old(self).records()@.records.dom().contains(key@) {
                    assert(old(self).records()@.records.remove(key@) =~= old(self).records()@.records);
                }
            }
            let stale = match self.records.peek(key.as_slice()) {
                Some(_) => true,
                None => false,
            };
            if stale {
                self.records.remove(key.as_slice());
            }
        }
        let replication = self.config.query_config.replication_factor;
        let quorum = quorum.eval(replication);
        let first = ProgressStep::first();
        let target = Key::new(key.as_slice());
        let info = if found.is_some() {
            QueryInfo::GetRecord { key, step: first.next(), found: 1, quorum }
        } else {
            QueryInfo::GetRecord { key, step: first, found: 0, quorum }
        };
        let id = self.start_lookup(target, crate::config::K_VALUE, info);
        match found {
            Some(record) => {
                if quorum <= 1 {
                    let ghost started = self.queries.queries();
                    let ghost next_id = self.queries.next_id();
                    self.queries.finish(id);
                    proof {
                        let n = started.len() as int - 1;
                        assert(query_at(started, id, n));
                        lemma_one_position(started, next_id, id, n);
                    }
                }
                let ghost before = self.queued@;
                self.queued.push(
                    Event::OutboundQueryProgressed {
                        id,
                        result: QueryResult::GetRecord(
                            Ok(GetRecordOk::FoundRecord(PeerRecord { peer: None, record })),
                        ),
                        stats: QueryStats::empty(),
                        step: first,
                    },
                );
                proof {
                    assert(self.queued@.drop_last() =~= before);
                    assert(record@ == old(self).records()@.records[key@]);
                }
            },
            None => {},
        }
        id
    }

    /// Notes in the local store that the local peer provides `key`, and
    /// starts a query that tells the closest peers to the key. Where the
    /// store refuses the provider, nothing is started.
    pub fn start_providing(&mut self, key: Vec<u8>) -> (r: Result<QueryId, StoreError>)
        requires
            old(self).wf(),
            old(self).pool().next_id() < usize::MAX,
        ensures
            final(self).wf(),
            final(self).held() == old(self).held(),
            final(self).generator() == old(self).generator(),
            final(self).forced() == old(self).forced(),
            final(self).external() == old(self).external(),
            final(self).schedule() == old(self).schedule(),
            final(self).record_job() == old(self).record_job(),
            final(self).provider_job() == old(self).provider_job(),
            final(self).records() == old(self).records(),
            final(self).events() == old(self).events(),
            final(self).table() == old(self).table(),
            r is Err <==> !old(self).providers().has(key@) && old(self).providers().sets().len()
                >= old(self).providers().config().max_provided_keys,
            r is Err ==> r->Err_0 == StoreError::MaxProvidedKeys
                && final(self).pool() == old(self).pool()
                && final(self).providers().sets() == old(self).providers().sets(),
            crate::providers::added(
                old(self).providers(),
                crate::record::ProviderRecordView {
                    key: key@,
                    provider: old(self).local().id,
                    expires: None,
                    addresses: crate::bytes::views(old(self).external()),
                },
                final(self).providers(),
                match r {
                    Ok(_) => Ok(()),
                    Err(e) => Err(e),
                },
            ),
            r is Ok && old(self).providers().config().max_providers_per_key >= 1 ==> has_key(
                final(self).providers().providers_of(key@),
                old(self).local().key,
            ),
            r is Ok ==> forall|k: Seq<u8>|
                k != key@ ==> #[trigger] final(self).providers().providers_of(k)
                    == old(self).providers().providers_of(k),
            r is Ok ==> started(
                *old(self),
                *final(self),
                r->Ok_0,
                QueryInfo::AddProvider {
                    key,
                    phase: AddProviderPhase::GetClosestPeers,
                    context: AddProviderContext::Publish,
                },
            ) && lookup_seeded(
                final(self).pool().queries().last().peers,
                old(self).config().query_config,
                key_at(key@),
                old(self).table().keys(),
                old(self).config().query_config.replication_factor,
            ),
    {
        let addresses = crate::bytes::list_copy(&self.external_addresses);
        let record = ProviderRecord::new(
            crate::bytes::bytes_copy(key.as_slice()),
            self.local.id,
            addresses,
        );
        let ghost list0 = self.providers.providers_of(key@);
        let ghost stored = record;
        match self.providers.add_provider(record) {
            Err(e) => {
                proof {
                    assert(crate::providers::adds(
                        old(self).providers(),
                        stored,
                        self.providers(),
                        Err(e),
                    ));
                }
                return Err(e);
            },
            Ok(()) => {},
        }
        proof {
            assert(crate::providers::adds(
                old(self).providers(),
                stored,
                self.providers(),
                Ok(()),
            ));
            old(self).providers().lemma_providers_sorted(key@);
            crate::key::lemma_distance_self(self.local.key);
            let list1 = self.providers.providers_of(key@);
            let (o, place) = choose|o: crate::nearest::Offer, place: Key|
                #![trigger crate::providers::provided(list0, list1, self.local.key, self.providers.config().max_providers_per_key as nat, crate::nearest::Entry { peer: Peer { id: record.provider, key: place }, data: record }, o)]
                place@ == record.provider.spec_key() && crate::providers::provided(
                    list0,
                    list1,
                    self.local.key,
                    self.providers.config().max_providers_per_key as nat,
                    crate::nearest::Entry {
                        peer: Peer { id: record.provider, key: place },
                        data: record,
                    },
                    o,
                );
            crate::key::lemma_key_ext(place, self.local.key);
            match o {
                crate::nearest::Offer::Known(i) => {
                    assert(list1[i as int].peer.key == place);
                },
                crate::nearest::Offer::Inserted(i) => {
                    if i > 0 {
                        assert(crate::key::distance(list0[0].peer.key, self.local.key)
                            < crate::key::distance(place, self.local.key));
                    }
                    assert(list0.insert(0, stored_entry(stored, place))[0].peer.key == place);
                    assert(list1[0].peer.key == place);
                },
                crate::nearest::Offer::TooFar => {
                    if self.providers.config().max_providers_per_key >= 1 {
                        assert(list0.len() >= 1);
                        assert(crate::key::distance(list0[0].peer.key, self.local.key)
                            < crate::key::distance(place, self.local.key));
                    }
                },
            }
        }
        let replication = self.config.query_config.replication_factor;
        let target = Key::new(key.as_slice());
        let info = QueryInfo::AddProvider {
            key,
            phase: AddProviderPhase::GetClosestPeers,
            context: AddProviderContext::Publish,
        };
        let id = self.start_lookup(target, replication, info);
        Ok(id)
    }

    /// Takes back from the local store that the local peer provides `key`.
    /// The peers that were told so keep the provider until it expires.
    pub fn stop_providing(&mut self, key: &[u8])
        requires
            old(self).wf(),
        ensures
            final(self).wf(),
            final(self).held() == old(self).held(),
            final(self).generator() == old(self).generator(),
            final(self).connected() == old(self).connected(),
            final(self).local() == old(self).local(),
            final(self).config() == old(self).config(),
            final(self).mode() == old(self).mode(),
            final(self).forced() == old(self).forced(),
            final(self).external() == old(self).external(),
            final(self).schedule() == old(self).schedule(),
            final(self).record_job() == old(self).record_job(),
            final(self).provider_job() == old(self).provider_job(),
            !has_key(final(self).providers().providers_of(key@), old(self).local().key),
            crate::providers::without_provider(
                old(self).providers().providers_of(key@),
                old(self).local().key,
                final(self).providers().providers_of(key@),
            ),
            forall|k: Seq<u8>|
                k != key@ ==> #[trigger] final(self).providers().providers_of(k)
                    == old(self).providers().providers_of(k),
            final(self).records() == old(self).records(),
            final(self).events() == old(self).events(),
            final(self).table() == old(self).table(),
            final(self).pool() == old(self).pool(),
    {
        let ghost list0 = self.providers.providers_of(key@);
        let ghost before = self.providers;
        let local = self.local.key;
        let r = self.providers.remove_provider(key, &local);
        proof {
            let list1 = self.providers.providers_of(key@);
            if r is Some {
                let j = choose|j: int|
                    #![trigger list0[j]]
                    0 <= j < list0.len() && list0[j].peer.key == local && list1 == list0.remove(j);
                before.lemma_providers_sorted(key@);
                if has_key(list1, local) {
                    let w = choose|w: int| 0 <= w < list1.len()
                        && (#[trigger] list1[w]).peer.key == local;
                    let w2 = if w < j { w } else { w + 1 };
                    assert(list1[w] == list0[w2]);
                    if w2 < j {
                        assert(crate::key::distance(list0[w2].peer.key, local)
                            < crate::key::distance(list0[j].peer.key, local));
                    } else {
                        assert(crate::key::distance(list0[j].peer.key, local)
                            < crate::key::distance(list0[w2].peer.key, local));
                    }
                }
            } else {
                assert(self.providers.providers_of(key@) == list0);
            }
        }
    }

    /// Starts a lookup of the providers of `key`. The providers that the
    /// local store knows and that have not expired are reported at once, as
    /// the first event of the query.
    pub fn get_providers(&mut self, key: Vec<u8>, now: u64) -> (id: QueryId)
        requires
            old(self).wf(),
            old(self).pool().next_id() < usize::MAX,
        ensures
            final(self).wf(),
            final(self).held() == old(self).held(),
            final(self).generator() == old(self).generator(),
            final(self).forced() == old(self).forced(),
            final(self).external() == old(self).external(),
            final(self).schedule() == old(self).schedule(),
            final(self).record_job() == old(self).record_job(),
            final(self).provider_job() == old(self).provider_job(),
            final(self).records() == old(self).records(),
            crate::providers::purged(old(self).providers(), key@, now, final(self).providers()),
            started_query(*old(self), *final(self), id),
            lookup_seeded(
                final(self).pool().queries().last().peers,
                old(self).config().query_config,
                key_at(key@),
                old(self).table().keys(),
                crate::config::K_VALUE,
            ),
            final(self).pool().queries().last().info == (QueryInfo::GetProviders {
                key,
                providers_found: old(self).known_providers(key@, now).len() as usize,
                step: if old(self).known_providers(key@, now).len() > 0 {
                    ProgressStep { count: 2, last: false }
                } else {
                    ProgressStep { count: 1, last: false }
                },
            }),
            final(self).events() == if old(self).known_providers(key@, now).len() > 0 {
                old(self).events().push(final(self).events().last())
            } else {
                old(self).events()
            },
            old(self).known_providers(key@, now).len() > 0 ==> found_locally(
                id,
                key@,
                old(self).known_providers(key@, now),
                final(self).events().last(),
            ),
    {
        let providers = self.live_providers_of(key.as_slice(), now);
        self.providers.remove_expired(key.as_slice(), now);
        let first = ProgressStep::first();
        let target = Key::new(key.as_slice());
        let key_copy = crate::bytes::bytes_copy(key.as_slice());
        let info = QueryInfo::GetProviders {
            key,
            providers_found: providers.len(),
            step: if providers.len() > 0 {
                first.next()
            } else {
                first
            },
        };
        let id = self.start_lookup(target, crate::config::K_VALUE, info);
        if providers.len() > 0 {
            let ghost before = self.queued@;
            self.queued.push(
                Event::OutboundQueryProgressed {
                    id,
                    result: QueryResult::GetProviders(
                        Ok(GetProvidersOk::FoundProviders { key: key_copy, providers }),
                    ),
                    stats: QueryStats::empty(),
                    step: first,
                },
            );
            proof {
                assert(self.queued@.drop_last() =~= before);
            }
        }
        id
    }

    /// The providers of `key` that the local store knows and that have not
    /// expired at `now`, closest to the local key first.
    pub fn live_providers_of(&self, key: &[u8], now: u64) -> (r: Vec<Peer>)
        requires
            self.wf(),
        ensures
            r@ == live_providers(self.providers().providers_of(key@), now),
    {
        let records = self.providers.providers(key);
        let ghost list = self.providers.providers_of(key@);
        proof {
            self.providers.lemma_providers_sorted(key@);
        }
        let n = records.len();
        let mut out: Vec<Peer> = Vec::new();
        let mut i: usize = 0;
        while i < n
            invariant
                0 <= i <= n,
                n == records@.len(),
                n == list.len(),
                forall|x: int|
                    0 <= x < n ==> (#[trigger] records@[x])@ == list[x].data@ && list[x].peer.id
                        == list[x].data.provider && list[x].peer.key == list[x].peer.id.key_of(),
                out@ == live_providers(list.take(i as int), now),
            decreases n - i,
        {
            proof {
                assert(list.take(i + 1).drop_last() =~= list.take(i as int));
                assert(list.take(i + 1).last() == list[i as int]);
            }
            if !records[i].is_expired(now) {
                out.push(Peer::new(records[i].provider));
            }
            i += 1;
        }
        assert(list.take(n as int) =~= list);
        out
    }

    /// Ends the query `id`: the next poll reports its result. Returns
    /// whether the query is under way.
    pub fn finish_query(&mut self, id: QueryId) -> (r: bool)
        requires
            old(self).wf(),
        ensures
            final(self).wf(),
            final(self).held() == old(self).held(),
            final(self).generator() == old(self).generator(),
            final(self).forced() == old(self).forced(),
            final(self).external() == old(self).external(),
            r == old(self).pool().contains(id),
            r ==> crate::pool::with_ended(
                old(self).pool().queries(),
                id,
                final(self).pool().queries(),
            ),
            !r ==> final(self).pool().queries() == old(self).pool().queries(),
            final(self).pool().queries().len() == old(self).pool().queries().len(),
            final(self).pool().next_id() == old(self).pool().next_id(),
            final(self).table() == old(self).table(),
            final(self).events() == old(self).events(),
            final(self).records() == old(self).records(),
            final(self).providers() == old(self).providers(),
            final(self).connected() == old(self).connected(),
            final(self).local() == old(self).local(),
            final(self).config() == old(self).config(),
            final(self).mode() == old(self).mode(),
            final(self).schedule() == old(self).schedule(),
            final(self).record_job() == old(self).record_job(),
            final(self).provider_job() == old(self).provider_job(),
    {
        self.queries.finish(id)
    }
}

/// The list `after` is the list `before` with `to` in the place of the first
/// occurrence of `from`; the same list where `from` does not occur.
pub open spec fn replaced_address(
    before: Seq<Seq<u8>>,
    from: Seq<u8>,
    to: Seq<u8>,
    after: Seq<Seq<u8>>,
) -> bool {
    if before.contains(from) {
        exists|i: int|
            0 <= i < before.len() && before[i] == from && (forall|j: int|
                0 <= j < i ==> before[j] != from) && after == before.update(i, to)
    } else {
        after == before
    }
}

/// The number of nodes by which a node lies beyond the `replication`
/// closest to a key, given the number of nodes between it and the key.
pub open spec fn beyond(between: u32, replication: usize) -> u32 {
    if between > replication {
        (between - replication) as u32
    } else {
        0
    }
}

/// The number of nodes by which a node lies beyond the `replication`
/// closest to a key.
pub fn beyond_replication(between: u32, replication: usize) -> (r: u32)
    ensures
        r == beyond(between, replication),
{
    if between as usize > replication {
        (between as usize - replication) as u32
    } else {
        0
    }
}

/// The peers `infos` are those that a response to a request for `target`
/// names to the peer at `source`: the closest that the table holds, a
/// bucket's worth, without `source`, each with the addresses of its node.
pub open spec fn answer_peers(
    table: RoutingTable,
    target: Key,
    source: Key,
    infos: Seq<PeerInfo>,
) -> bool {
    &&& is_closest(
        as_entries(info_peers(infos)),
        table.keys().remove(source),
        target,
        crate::config::K_VALUE as nat,
    )
    &&& forall|i: int|
        0 <= i < infos.len() ==> table.nodes().dom().contains((#[trigger] infos[i]).peer.key)
            && infos[i].peer == table.nodes()[infos[i].peer.key].peer && infos[i]@.addresses
            == table.nodes()[infos[i].peer.key].addresses@
}

/// The records after a look at `key` at time `now`: a record that has
/// expired is gone.
pub open spec fn purged(held: Map<Seq<u8>, RecordView>, key: Seq<u8>, now: u64) -> Map<
    Seq<u8>,
    RecordView,
> {
    if local_hit(held, key, now) is Stale {
        held.remove(key)
    } else {
        held
    }
}

/// The record `record` as it is stored when it arrives at the node `b` at
/// time `now`.
pub open spec fn arriving(b: Behaviour, record: RecordView, now: u64) -> RecordView {
    RecordView {
        expires: crate::serve::arrival_expiry(
            now,
            b.config().record_ttl,
            record.expires,
            beyond(
                crate::progress::capped_u32(
                    crate::serve::buckets_closer(
                        b.table().buckets(),
                        256,
                        b.table().local_key(),
                        key_at(record.key),
                    ),
                ),
                b.config().query_config.replication_factor,
            ),
        ),
        ..record
    }
}

/// The node `before`, which serves requests, takes the request of `source`
/// at time `now`, becomes `after` and gives the response `r`.
pub open spec fn served(
    before: Behaviour,
    source: Peer,
    request: Request,
    now: u64,
    after: Behaviour,
    r: Option<Response>,
) -> bool {
    match request {
        Request::FindNode { key } => {
            &&& r matches Some(Response::FindNode { closer_peers })
            &&& answer_peers(before.table(), key_at(key@), source.key, closer_peers@)
            &&& after.records() == before.records()
            &&& after.providers() == before.providers()
            &&& after.events() == before.events().push(
                Event::InboundRequest {
                    request: InboundRequest::FindNode { num_closer_peers: closer_peers.len() },
                },
            )
        },
        Request::GetValue { key } => {
            &&& r matches Some(Response::GetValue { record, closer_peers })
            &&& answer_peers(before.table(), key_at(key@), source.key, closer_peers@)
            &&& record is Some <==> local_hit(before.records()@.records, key@, now) is Live
            &&& record is Some ==> record->0@ == before.records()@.records[key@]
            &&& after.records()@.records == purged(before.records()@.records, key@, now)
            &&& after.providers() == before.providers()
            &&& after.events() == before.events().push(
                Event::InboundRequest {
                    request: InboundRequest::GetRecord {
                        num_closer_peers: closer_peers.len(),
                        present_locally: record is Some,
                    },
                },
            )
        },
        Request::GetProviders { key } => {
            &&& r matches Some(Response::GetProviders { closer_peers, providers })
            &&& answer_peers(before.table(), key_at(key@), source.key, closer_peers@)
            &&& info_peers(providers@) == live_providers(before.providers().providers_of(key@), now)
            &&& info_views(providers@) == live_infos(before.providers().providers_of(key@), now)
            &&& after.records() == before.records()
            &&& crate::providers::purged(before.providers(), key@, now, after.providers())
            &&& after.events() == before.events().push(
                Event::InboundRequest {
                    request: InboundRequest::GetProvider {
                        num_closer_peers: closer_peers.len(),
                        num_provider_peers: providers.len(),
                    },
                },
            )
        },
        Request::PutValue { record } => {
            &&& after.providers() == before.providers()
            &&& if record.publisher == Some(before.local().id) {
                &&& r matches Some(Response::PutValue { key, value })
                &&& key@ == record.key@
                &&& value@ == record.value@
                &&& after.records() == before.records()
                &&& after.events() == before.events()
            } else if before.config().record_filtering == StoreInserts::FilterBoth {
                &&& r matches Some(Response::PutValue { key, value })
                &&& key@ == record.key@
                &&& value@ == record.value@
                &&& after.records() == before.records()
                &&& after.events().len() == before.events().len() + 1
                &&& after.events().drop_last() == before.events()
                &&& after.events().last() matches Event::InboundRequest {
                    request: InboundRequest::PutRecord { source: from, record: Some(handed) },
                }
                &&& from == source
                &&& handed@ == arriving(before, record@, now)
            } else {
                let stored = arriving(before, record@, now);
                let answer = put_result(
                    before.records()@.records,
                    before.records().spec_len(),
                    before.records().config(),
                    stored,
                );
                &&& answer is Ok ==> {
                    &&& r matches Some(Response::PutValue { key, value })
                    &&& key@ == record.key@
                    &&& value@ == record.value@
                    &&& after.records()@.records == before.records()@.records.insert(
                        record.key@,
                        stored,
                    )
                    &&& after.events() == before.events().push(
                        Event::InboundRequest {
                            request: InboundRequest::PutRecord { source, record: None },
                        },
                    )
                }
                &&& answer is Err ==> {
                    &&& r is None
                    &&& after.records()@.records == before.records()@.records
                    &&& after.events() == before.events()
                }
            }
        },
        Request::AddProvider { key, provider } => {
            &&& after.records() == before.records()
            &&& if provider.peer.id != source.id {
                &&& r is None
                &&& after.providers() == before.providers()
                &&& after.events() == before.events()
            } else {
                let record = ProviderRecord {
                    key,
                    provider: provider.peer.id,
                    expires: match before.config().provider_record_ttl {
                        Some(ttl) => Some(crate::candidates::deadline_after(now, ttl)),
                        None => None,
                    },
                    addresses: provider.addresses,
                };
                &&& r == Some(Response::Ack)
                &&& if before.config().record_filtering == StoreInserts::FilterBoth {
                    &&& after.providers() == before.providers()
                    &&& after.events() == before.events().push(
                        Event::InboundRequest {
                            request: InboundRequest::AddProvider { record: Some(record) },
                        },
                    )
                } else {
                    &&& crate::providers::noted(before.providers(), record, after.providers())
                    &&& after.events() == before.events().push(
                        Event::InboundRequest {
                            request: InboundRequest::AddProvider { record: None },
                        },
                    )
                }
            }
        },
    }
}

/// The query `id` is among `queries` and waits for the answer of the peer
/// at `key`.
pub open spec fn awaited(queries: Seq<Query<QueryInfo>>, id: QueryId, key: Key) -> bool {
    exists|i: int| query_at(queries, id, i) && queries[i].peers.waits_for(key)
}

/// A count and one more, held at the largest count that fits.
pub open spec fn one_more(n: usize, by: usize) -> usize {
    if n + by > usize::MAX {
        usize::MAX
    } else {
        (n + by) as usize
    }
}

/// What a query records after a response: providers and records that the
/// response carries are counted, and the step of the query moves on.
pub open spec fn info_after_response(info: QueryInfo, response: Response) -> QueryInfo {
    match (info, response) {
        (
            QueryInfo::GetProviders { key, providers_found, step },
            Response::GetProviders { providers, .. },
        ) => if providers.len() > 0 {
            QueryInfo::GetProviders {
                key,
                providers_found: one_more(providers_found, providers.len()),
                step: next_step_of(step),
            }
        } else {
            info
        },
        (
            QueryInfo::GetRecord { key, step, found, quorum },
            Response::GetValue { record: Some(_), .. },
        ) => QueryInfo::GetRecord { key, step: next_step_of(step), found: one_more(found, 1),
            quorum },
        _ => info,
    }
}

/// The step after `step`.
pub open spec fn next_step_of(step: ProgressStep) -> ProgressStep {
    ProgressStep {
        count: if step.count < usize::MAX {
            (step.count + 1) as usize
        } else {
            usize::MAX
        },
        last: false,
    }
}

/// Whether a response brings a query to the number of answers that it asks for.
pub open spec fn quorum_reached(info: QueryInfo, stats: QueryStats, response: Response) -> bool {
    match (info, response) {
        (QueryInfo::GetRecord { found, quorum, .. }, Response::GetValue { record: Some(_),
            .. }) => found
            >= quorum,
        (
            QueryInfo::PutRecord { quorum, phase: PutRecordPhase::PutRecord { .. }, .. },
            Response::PutValue { .. },
        ) => stats.success >= quorum,
        _ => false,
    }
}

/// The report `event` is what a response to a query with record `info`
/// calls for: the providers or the record that the response carries, at the
/// step of the query; none where it carries neither.
pub open spec fn reported(
    id: QueryId,
    info: QueryInfo,
    stats: QueryStats,
    source: Peer,
    response: Response,
    event: Option<Event>,
) -> bool {
    match (info, response) {
        (QueryInfo::GetProviders { key, step, .. }, Response::GetProviders { providers,
            .. }) => if providers.len()
            > 0 {
            &&& event matches Some(
                Event::OutboundQueryProgressed {
                    id: i,
                    result: QueryResult::GetProviders(
                        Ok(GetProvidersOk::FoundProviders { key: k, providers: p }),
                    ),
                    stats: s,
                    step: t,
                },
            )
            &&& i == id
            &&& k@ == key@
            &&& p@ == info_peers(providers@)
            &&& s == stats
            &&& t == step
        } else {
            event is None
        },
        (QueryInfo::GetRecord { step, .. }, Response::GetValue { record: Some(record),
            .. }) => event
            == Some(
            Event::OutboundQueryProgressed {
                id,
                result: QueryResult::GetRecord(
                    Ok(GetRecordOk::FoundRecord(PeerRecord { peer: Some(source), record })),
                ),
                stats,
                step,
            },
        ),
        _ => event is None,
    }
}

/// What a response does to the record of a query.
pub struct Absorbed {
    /// The record of the query after the response.
    pub info: QueryInfo,
    /// What is reported, if anything.
    pub event: Option<Event>,
    /// Whether the query has reached the number of answers that it asks for.
    pub done: bool,
}

/// Takes a response into the record `info` of query `id`, whose statistics
/// are `stats`: what the response carries is counted and reported, and the
/// quorum of the query is checked.
pub fn absorb(
    id: QueryId,
    info: QueryInfo,
    stats: QueryStats,
    source: Peer,
    response: Response,
) -> (r:
    Absorbed)
    ensures
        r.info == info_after_response(info, response),
        reported(id, info, stats, source, response, r.event),
        r.done == quorum_reached(r.info, stats, response),
{
    match (info, response) {
        (
            QueryInfo::GetProviders { key, providers_found, step },
            Response::GetProviders { providers, closer_peers },
        ) => {
            if providers.len() > 0 {
                let found = crate::message::peers_of_infos(&providers);
                let event = Event::OutboundQueryProgressed {
                    id,
                    result: QueryResult::GetProviders(
                        Ok(
                            GetProvidersOk::FoundProviders {
                                key: crate::bytes::bytes_copy(key.as_slice()),
                                providers: found,
                            },
                        ),
                    ),
                    stats,
                    step,
                };
                Absorbed {
                    info: QueryInfo::GetProviders {
                        key,
                        providers_found: providers_found.saturating_add(providers.len()),
                        step: step.next(),
                    },
                    event: Some(event),
                    done: false,
                }
            } else {
                Absorbed {
                    info: QueryInfo::GetProviders { key, providers_found, step },
                    event: None,
                    done: false,
                }
            }
        },
        (
            QueryInfo::GetRecord { key, step, found, quorum },
            Response::GetValue { record: Some(record), closer_peers },
        ) => {
            let found = found.saturating_add(1);
            let event = Event::OutboundQueryProgressed {
                id,
                result: QueryResult::GetRecord(
                    Ok(GetRecordOk::FoundRecord(PeerRecord { peer: Some(source), record })),
                ),
                stats,
                step,
            };
            Absorbed {
                info: QueryInfo::GetRecord { key, step: step.next(), found, quorum },
                event: Some(event),
                done: found >= quorum,
            }
        },
        (
            QueryInfo::PutRecord { record, quorum, context, phase },
            Response::PutValue { key, value },
        ) => {
            let done = match &phase {
                PutRecordPhase::PutRecord { .. } => stats.success as usize >= quorum,
                PutRecordPhase::GetClosestPeers => false,
            };
            Absorbed {
                info: QueryInfo::PutRecord { record, quorum, context, phase },
                event: None,
                done,
            }
        },
        (info, _) => Absorbed { info, event: None, done: false },
    }
}

/// The peers that a response names as closer to the key, without the peer at
/// `local`.
pub open spec fn named_peers(response: Response, local: Key) -> Seq<Peer> {
    match response {
        Response::FindNode { closer_peers } => info_peers(closer_peers@).filter(
            |p: Peer| p.key != local,
        ),
        Response::GetProviders { closer_peers, .. } => info_peers(closer_peers@).filter(
            |p: Peer| p.key != local,
        ),
        Response::GetValue { closer_peers, .. } => info_peers(closer_peers@).filter(
            |p: Peer| p.key != local,
        ),
        _ => Seq::empty(),
    }
}

/// The response of `source` leads from the queries `before`, of which query
/// `id` waits for it, to the queries `after`, and from the reports
/// `events_before` to `events_after`: the query counts a success and
/// records what the response carries, which is reported; it is done if its
/// quorum is reached; no other query changes.
pub open spec fn responded(
    before: Seq<Query<QueryInfo>>,
    events_before: Seq<Event>,
    id: QueryId,
    source: Peer,
    local: Key,
    response: Response,
    after: Seq<Query<QueryInfo>>,
    events_after: Seq<Event>,
) -> bool {
    exists|i: int, event: Option<Event>|
        #![trigger before[i], reported(id, before[i].info, after[i].stats, source, response, event)]
        {
            &&& query_at(before, id, i)
            &&& after.len() == before.len()
            &&& after[i].id == id
            &&& after[i].stats == (QueryStats {
                success: capped_sum(before[i].stats.success, 1),
                ..before[i].stats
            })
            &&& after[i].info == info_after_response(before[i].info, response)
            &&& reported(id, before[i].info, after[i].stats, source, response, event)
            &&& events_after == match event {
                Some(e) => events_before.push(e),
                None => events_before,
            }
            &&& quorum_reached(
                after[i].info,
                after[i].stats,
                response,
            ) ==> after[i].peers.finished()
                && succeeds_and_ends(
                before[i].peers,
                source.key,
                named_peers(response, local),
                after[i].peers,
            )
            &&& !quorum_reached(after[i].info, after[i].stats, response)
                ==> before[i].peers.succeeds(
                source.key,
                named_peers(response, local),
                after[i].peers,
            )
            &&& forall|j: int| 0 <= j < before.len() && j != i ==> #[trigger] after[j] == before[j]
        }
}

/// In a pool in order a query stands at one position only.
pub proof fn lemma_one_position(queries: Seq<Query<QueryInfo>>, next_id: usize, id: QueryId, i: int)
    requires
        crate::pool::queries_wf(queries, next_id),
        query_at(queries, id, i),
    ensures
        forall|j: int| query_at(queries, id, j) ==> j == i,
{
}

/// The number of lookups that a bootstrap with record `info` has before it
/// after the one that has ended: the peers that remain, or, after the lookup
/// of the local peer, one for each bucket of the table that holds a node.
pub open spec fn lookups_left(info: QueryInfo, table: RoutingTable) -> nat {
    match info {
        QueryInfo::Bootstrap { remaining: Some(peers), .. } => peers@.len(),
        QueryInfo::Bootstrap { remaining: None, .. } => occupied(table.buckets(), 256),
        _ => 0,
    }
}

/// The query that stores the record `record`, which the job has handed
/// out, at the closest peers: a record of the local peer is published anew,
/// any other is replicated.
pub open spec fn replication_of(record: Record, local: PeerId, replication: usize) -> QueryInfo {
    QueryInfo::PutRecord {
        record,
        quorum: replication,
        context: if record.publisher == Some(local) {
            PutRecordContext::Republish
        } else {
            PutRecordContext::Replicate
        },
        phase: PutRecordPhase::GetClosestPeers,
    }
}

/// A step of the job that replicates the records, at time `now`, leads from
/// the behaviour `before` to the behaviour `after` and starts the query `r`.
/// Without the job, or where the jobs may start no query, nothing happens.
/// Otherwise the job is polled, and a query is started for the record that
/// it hands out: a lookup of the peers closest to the key of the record,
/// as many as the record is to be stored at.
pub open spec fn replicated(
    before: Behaviour,
    now: u64,
    after: Behaviour,
    r: Option<QueryId>,
) -> bool {
    match before.record_job() {
        Some(job) if before.jobs_may_start() => exists|handed: Option<Record>|
            {
                &&& after.record_job() is Some
                &&& #[trigger] records_polled(
                    job,
                    before.records(),
                    now,
                    after.record_job()->0,
                    after.records(),
                    handed,
                )
                &&& match handed {
                    Some(record) => {
                        &&& r matches Some(id)
                        &&& started(
                            before,
                            after,
                            id,
                            replication_of(
                                record,
                                before.local().id,
                                before.config().query_config.replication_factor,
                            ),
                        )
                        &&& lookup_seeded(
                            after.pool().queries().last().peers,
                            before.config().query_config,
                            key_at(record.key@),
                            before.table().keys(),
                            before.config().query_config.replication_factor,
                        )
                    },
                    None => r is None && after.pool() == before.pool(),
                }
            },
        _ => {
            &&& r is None
            &&& after.pool() == before.pool()
            &&& after.records() == before.records()
            &&& after.record_job() == before.record_job()
        },
    }
}

/// A step of the job that announces the keys of the local peer, at time
/// `now`, leads from the behaviour `before` to the behaviour `after` and
/// starts the query `r`. Without the job, or where the jobs may start no
/// query, nothing happens. Otherwise the job is polled, and a query is
/// started for the record that it hands out: a lookup of the peers closest
/// to the key, which are then told of the provider.
pub open spec fn republished(
    before: Behaviour,
    now: u64,
    after: Behaviour,
    r: Option<QueryId>,
) -> bool {
    match before.provider_job() {
        Some(job) if before.jobs_may_start() => exists|handed: Option<ProviderRecord>|
            {
                &&& after.provider_job() is Some
                &&& #[trigger] providers_polled(
                    job,
                    before.providers(),
                    now,
                    after.provider_job()->0,
                    after.providers(),
                    handed,
                )
                &&& match handed {
                    Some(record) => {
                        &&& r matches Some(id)
                        &&& started(
                            before,
                            after,
                            id,
                            QueryInfo::AddProvider {
                                key: record.key,
                                phase: AddProviderPhase::GetClosestPeers,
                                context: AddProviderContext::Republish,
                            },
                        )
                        &&& lookup_seeded(
                            after.pool().queries().last().peers,
                            before.config().query_config,
                            key_at(record.key@),
                            before.table().keys(),
                            before.config().query_config.replication_factor,
                        )
                    },
                    None => r is None && after.pool() == before.pool(),
                }
            },
        _ => {
            &&& r is None
            &&& after.pool() == before.pool()
            &&& after.providers() == before.providers()
            &&& after.provider_job() == before.provider_job()
        },
    }
}

/// The report `e` is the first of the lookup `id` of the providers of
/// `key`: it names the providers that the store of the node knows.
pub open spec fn found_locally(id: QueryId, key: Seq<u8>, providers: Seq<Peer>, e: Event) -> bool {
    &&& e matches Event::OutboundQueryProgressed {
        id: query,
        result: QueryResult::GetProviders(Ok(GetProvidersOk::FoundProviders { key: k,
            providers: p })),
        stats,
        step,
    }
    &&& query == id
    &&& k@ == key
    &&& p@ == providers
    &&& stats == crate::query::no_stats()
    &&& step == ProgressStep { count: 1, last: false }
}

/// The iterator `b` is the iterator `a` after it took the answer of the
/// peer at `key`, which reports `closer`, and was ended then.
pub open spec fn succeeds_and_ends(
    a: QueryPeerIter,
    key: Key,
    closer: Seq<Peer>,
    b: QueryPeerIter,
) -> bool {
    exists|mid: QueryPeerIter| a.succeeds(key, closer, mid) && #[trigger] mid.ends(b)
}

/// A provider record with the peer that it names, at `place`.
pub open spec fn stored_entry(record: ProviderRecord, place: Key) -> crate::providers::Provider {
    crate::nearest::Entry { peer: Peer { id: record.provider, key: place }, data: record }
}

/// The reports `after` are the reports `before` with what is reported when
/// a peer that speaks the protocol was offered to the routing table with
/// outcome `i`: that it entered, that it waits for a place, or, where its
/// bucket is full, that it could be routed to.
pub open spec fn confirmed_events(
    before: Seq<Event>,
    peer: Peer,
    address: Seq<u8>,
    i: InsertResult,
    after: Seq<Event>,
) -> bool {
    match i {
        InsertResult::Inserted | InsertResult::Replaced(_) => after == entered_events(
            before,
            peer,
            i,
        ),
        InsertResult::Full => {
            &&& after.len() == before.len() + 1
            &&& after.drop_last() == before
            &&& after.last() matches Event::RoutablePeer { peer: p, address: a }
            &&& p == peer
            &&& a@ == address
        },
        InsertResult::Pending(_) => {
            &&& after.len() == before.len() + 1
            &&& after.drop_last() == before
            &&& after.last() matches Event::PendingRoutablePeer { peer: p, address: a }
            &&& p == peer
            &&& a@ == address
        },
        _ => after == before,
    }
}

/// The settings of the node and its connections are the same in both.
pub open spec fn same_node(a: Behaviour, b: Behaviour) -> bool {
    &&& b.local() == a.local()
    &&& b.config() == a.config()
    &&& b.mode() == a.mode()
    &&& b.forced() == a.forced()
    &&& b.external() == a.external()
    &&& b.connected() == a.connected()
}

/// The oldest report that waits in `a` is handed out as `r`; the others
/// wait on in `b`, and nothing else has changed.
pub open spec fn handed_out(a: Behaviour, b: Behaviour, r: Option<ToSwarm>) -> bool {
    &&& a.events().len() > 0
    &&& r == Some(ToSwarm::GenerateEvent(a.events()[0]))
    &&& b.events() == a.events().skip(1)
    &&& same_node(a, b)
    &&& b.held() == a.held()
    &&& b.generator() == a.generator()
    &&& b.table() == a.table()
    &&& b.records() == a.records()
    &&& b.providers() == a.providers()
    &&& b.pool() == a.pool()
    &&& b.schedule() == a.schedule()
    &&& b.record_job() == a.record_job()
    &&& b.provider_job() == a.provider_job()
}

/// The candidates that wait for a place in a full bucket were looked at:
/// `applied` became of those that were due, the table of `b` is that of `a`
/// after it, a report is queued for each that entered, and nothing else has
/// changed.
pub open spec fn pending_step(
    a: Behaviour,
    now: u64,
    b: Behaviour,
    applied: Seq<AppliedPending>,
) -> bool {
    &&& crate::table::pending_applied(a.table(), now, b.table(), applied)
    &&& b.events() == a.events() + promotions(applied)
    &&& same_node(a, b)
    &&& b.held() == a.held()
    &&& b.generator() == a.generator()
    &&& b.records() == a.records()
    &&& b.providers() == a.providers()
    &&& b.pool() == a.pool()
    &&& b.schedule() == a.schedule()
    &&& b.record_job() == a.record_job()
    &&& b.provider_job() == a.provider_job()
}

/// Whether the report is the last of a bootstrap.
pub open spec fn ends_bootstrap(r: Option<Event>) -> bool {
    r matches Some(Event::OutboundQueryProgressed { result: QueryResult::Bootstrap(_), step, .. })
        && step.last
}

/// The report that a look at the queries gave, if it gave one.
pub open spec fn reported_by(r: Polled) -> Option<Event> {
    match r {
        Polled::Action(ToSwarm::GenerateEvent(e)) => Some(e),
        _ => None,
    }
}

/// One look at the queries at time `now` leads from `a` to `b` with
/// outcome `r`: the pool is polled, and what it hands out is dealt with as
/// `looked` says. A bootstrap that gives its last report is no longer under
/// way. Nothing else changes.
pub open spec fn query_looked(a: Behaviour, now: u64, b: Behaviour, r: Polled) -> bool {
    &&& exists|mid: Seq<Query<QueryInfo>>, polled: QueryPoolState<QueryInfo>|
        crate::pool::pool_step(
            a.pool().queries(),
            a.config().query_config.timeout,
            now,
            mid,
            polled,
        ) && #[trigger] looked(a, mid, polled, b, r)
    &&& same_node(a, b)
    &&& b.table() == a.table()
    &&& b.records() == a.records()
    &&& b.providers() == a.providers()
    &&& b.events() == a.events()
    &&& b.record_job() == a.record_job()
    &&& b.provider_job() == a.provider_job()
    &&& b.pool().next_id() == a.pool().next_id()
    &&& b.schedule() == if ends_bootstrap(reported_by(r)) {
        crate::bootstrap::after_finish(a.schedule())
    } else {
        a.schedule()
    }
}

/// `b` is reached from `a` by `n` looks at the queries at time `now`, after
/// each of which a query went on with its next phase.
pub open spec fn looks_continued(a: Behaviour, now: u64, n: nat, b: Behaviour) -> bool
    decreases n,
{
    if n == 0 {
        b == a
    } else {
        exists|mid: Behaviour|
            looks_continued(a, now, (n - 1) as nat, mid) && #[trigger] query_looked(
                mid,
                now,
                b,
                Polled::Continued,
            )
    }
}

/// What is asked of the driver as the outcome of the last look.
pub open spec fn outcome_of(r: Option<ToSwarm>) -> Polled {
    match r {
        Some(action) => Polled::Action(action),
        None => Polled::Rest,
    }
}

/// With no report left in the queue of `s`, the queries are looked at until
/// one has something to say or all are at rest; a report that is queued in
/// `s` is handed out instead.
pub open spec fn after_pending(s: Behaviour, now: u64, b: Behaviour, r: Option<ToSwarm>) -> bool {
    if s.events().len() > 0 {
        handed_out(s, b, r)
    } else {
        exists|n: nat, last: Behaviour| #[trigger]
            looks_continued(s, now, n, last) && query_looked(last, now, b, outcome_of(r))
    }
}

/// A poll of the queries at time `now` leads from `a` to `b` and asks `r`
/// of the driver. The oldest report that waits is handed out. Where none
/// waits, the candidates of full buckets are looked at, and the first
/// report of one that entered is handed out. Where none entered, the
/// queries are looked at, as often as one goes on with its next phase, and
/// the outcome of the last look is that of the poll.
pub open spec fn queries_polled(a: Behaviour, now: u64, b: Behaviour, r: Option<ToSwarm>) -> bool {
    if a.events().len() > 0 {
        handed_out(a, b, r)
    } else {
        exists|applied: Seq<AppliedPending>, s: Behaviour| #[trigger]
            pending_step(a, now, s, applied) && after_pending(s, now, b, r)
    }
}

/// The job has the settings that it had.
pub open spec fn record_job_kept(a: Option<PutRecordJob>, b: Option<PutRecordJob>) -> bool {
    match (a, b) {
        (Some(x), Some(y)) => {
            &&& y.local() == x.local()
            &&& y.interval() == x.interval()
            &&& y.publish_interval() == x.publish_interval()
            &&& y.record_ttl() == x.record_ttl()
        },
        (None, None) => true,
        _ => false,
    }
}

/// The job has the interval that it had.
pub open spec fn provider_job_kept(a: Option<AddProviderJob>, b: Option<AddProviderJob>) -> bool {
    match (a, b) {
        (Some(x), Some(y)) => y.interval() == x.interval(),
        (None, None) => true,
        _ => false,
    }
}

/// A step of the job that replicates the records, at time `now`, leads
/// from `a` to `b` and starts the query `r`, as `replicated` says. Nothing
/// changes but the job, the record store and the pool.
pub open spec fn replication_step(
    a: Behaviour,
    now: u64,
    b: Behaviour,
    r: Option<QueryId>,
) -> bool {
    &&& replicated(a, now, b, r)
    &&& record_job_kept(a.record_job(), b.record_job())
    &&& same_node(a, b)
    &&& b.held() == a.held()
    &&& b.generator() == a.generator()
    &&& b.table() == a.table()
    &&& b.providers() == a.providers()
    &&& b.events() == a.events()
    &&& b.schedule() == a.schedule()
    &&& b.provider_job() == a.provider_job()
}

/// A step of the job that announces the keys of the local peer, at time
/// `now`, leads from `a` to `b` and starts the query `r`, as `republished`
/// says. Nothing changes but the job, the provider store and the pool.
pub open spec fn republication_step(
    a: Behaviour,
    now: u64,
    b: Behaviour,
    r: Option<QueryId>,
) -> bool {
    &&& republished(a, now, b, r)
    &&& provider_job_kept(a.provider_job(), b.provider_job())
    &&& same_node(a, b)
    &&& b.held() == a.held()
    &&& b.generator() == a.generator()
    &&& b.table() == a.table()
    &&& b.records() == a.records()
    &&& b.events() == a.events()
    &&& b.schedule() == a.schedule()
    &&& b.record_job() == a.record_job()
}

/// `b` is reached from `a` by `n` steps of the job that replicates the
/// records, each of which started a query.
pub open spec fn replications(a: Behaviour, now: u64, n: nat, b: Behaviour) -> bool
    decreases n,
{
    if n == 0 {
        b == a
    } else {
        exists|mid: Behaviour, id: QueryId|
            replications(a, now, (n - 1) as nat, mid) && #[trigger] replication_step(
                mid,
                now,
                b,
                Some(id),
            )
    }
}

/// `b` is reached from `a` by `n` steps of the job that announces the keys
/// of the local peer, each of which started a query.
pub open spec fn republications(a: Behaviour, now: u64, n: nat, b: Behaviour) -> bool
    decreases n,
{
    if n == 0 {
        b == a
    } else {
        exists|mid: Behaviour, id: QueryId|
            republications(a, now, (n - 1) as nat, mid) && #[trigger] republication_step(
                mid,
                now,
                b,
                Some(id),
            )
    }
}

/// The record job ran at time `now` from `a` to `b`: it took steps as long
/// as each started a query, and one more that started none.
pub open spec fn replication_ran(a: Behaviour, now: u64, b: Behaviour) -> bool {
    exists|n: nat, last: Behaviour| #[trigger]
        replications(a, now, n, last) && replication_step(last, now, b, None)
}

/// The provider job ran at time `now` from `a` to `b`: it took steps as
/// long as each started a query, and one more that started none.
pub open spec fn republication_ran(a: Behaviour, now: u64, b: Behaviour) -> bool {
    exists|n: nat, last: Behaviour| #[trigger]
        republications(a, now, n, last) && republication_step(last, now, b, None)
}

/// The periodic jobs ran at time `now` from `a` to `b`: first the job that
/// replicates the records, then the job that announces the keys of the
/// local peer.
pub open spec fn jobs_ran(a: Behaviour, now: u64, b: Behaviour) -> bool {
    exists|mid: Behaviour| #[trigger] replication_ran(a, now, mid) && republication_ran(mid, now, b)
}

/// The bootstrap was asked for at time `now`, with answer `r`. Without a
/// peer in the routing table it is refused and nothing changes. Otherwise
/// a lookup of the neighbourhood of the local peer is started, from the
/// nodes of the table that are closest to it, and the schedule takes note.
pub open spec fn bootstrapped(
    a: Behaviour,
    now: u64,
    b: Behaviour,
    r: Result<QueryId, NoKnownPeers>,
) -> bool {
    &&& same_node(a, b)
    &&& b.held() == a.held()
    &&& b.generator() == a.generator()
    &&& b.table() == a.table()
    &&& b.events() == a.events()
    &&& b.records() == a.records()
    &&& b.providers() == a.providers()
    &&& b.record_job() == a.record_job()
    &&& b.provider_job() == a.provider_job()
    &&& r is Err <==> a.table().keys() == Set::<Key>::empty()
    &&& match r {
        Err(_) => b.pool() == a.pool() && b.schedule() == a.schedule(),
        Ok(id) => {
            &&& b.schedule() == crate::bootstrap::after_start(a.schedule(), now)
            &&& started(
                a,
                b,
                id,
                QueryInfo::Bootstrap {
                    peer: a.local(),
                    remaining: None,
                    step: ProgressStep { count: 1, last: false },
                },
            )
            &&& lookup_seeded(
                b.pool().queries().last().peers,
                a.config().query_config,
                a.local().key,
                a.table().keys(),
                crate::config::K_VALUE,
            )
        },
    }
}

/// The schedule was asked at time `now` whether a bootstrap is due, and
/// nothing else has changed.
pub open spec fn schedule_asked(a: Behaviour, now: u64, b: Behaviour) -> bool {
    &&& b.schedule() == crate::bootstrap::after_poll(a.schedule(), now)
    &&& same_node(a, b)
    &&& b.held() == a.held()
    &&& b.generator() == a.generator()
    &&& b.table() == a.table()
    &&& b.events() == a.events()
    &&& b.records() == a.records()
    &&& b.providers() == a.providers()
    &&& b.pool() == a.pool()
    &&& b.record_job() == a.record_job()
    &&& b.provider_job() == a.provider_job()
}

/// The bootstrap that is due at time `now` was started: the schedule is
/// asked, and if a bootstrap is due and the pool has an identifier left,
/// the bootstrap is asked for.
pub open spec fn boot_step(a: Behaviour, now: u64, b: Behaviour) -> bool {
    exists|asked: Behaviour| #[trigger]
        schedule_asked(a, now, asked) && if crate::bootstrap::due(a.schedule(), now)
            && a.pool().next_id() < usize::MAX {
            exists|r: Result<QueryId, NoKnownPeers>| #[trigger] bootstrapped(asked, now, b, r)
        } else {
            b == asked
        }
}

/// A poll of the behaviour at time `now` leads from `a` to `b` and asks `r`
/// of the driver. The oldest report that waits is handed out. Where none
/// waits, the bootstrap that is due is started, the periodic jobs run, and
/// the queries are polled.
pub open spec fn polled(a: Behaviour, now: u64, b: Behaviour, r: Option<ToSwarm>) -> bool {
    if a.events().len() > 0 {
        handed_out(a, b, r)
    } else {
        exists|booted: Behaviour, ran: Behaviour|
            boot_step(a, now, booted) && #[trigger] jobs_ran(booted, now, ran) && queries_polled(
                ran,
                now,
                b,
                r,
            )
    }
}

/// The query `id` has been in the pool and has left it for good: its
/// identifier is not given out again.
pub open spec fn retired(b: Behaviour, id: QueryId) -> bool {
    !b.pool().contains(id) && id.0 < b.pool().next_id()
}

/// Whether a query with record `info` draws the peers of a refresh when its
/// lookup ends: the first lookup of a bootstrap does.
pub open spec fn draws(info: QueryInfo) -> bool {
    info matches QueryInfo::Bootstrap { remaining: None, .. }
}

/// What the generator of the node does when a query with record `info`
/// ends and goes on as `next`. The first lookup of a bootstrap draws the
/// peers that `refresh_drawn` gives for the table: the bootstrap goes on
/// with the first of them and keeps the others. No other query draws.
pub open spec fn refreshed(
    before: Behaviour,
    info: QueryInfo,
    next: Option<Query<QueryInfo>>,
    after: Behaviour,
) -> bool {
    let drawn = refresh_drawn(before.table(), 256, before.generator().state());
    if draws(info) {
        &&& after.generator().state() == drawn.1
        &&& match next {
            Some(n) => n.info matches QueryInfo::Bootstrap { peer, remaining: Some(rest), .. }
                && seq![peer] + rest@ == drawn.0,
            None => drawn.0.len() == 0,
        }
    } else {
        after.generator() == before.generator()
    }
}

/// The key that a query with record `info` looks up the closest peers to,
/// if it is in a phase that looks up.
pub open spec fn lookup_key(info: QueryInfo) -> Option<Key> {
    match info {
        QueryInfo::Bootstrap { peer, .. } => Some(peer.key),
        QueryInfo::GetClosestPeers { key, .. } => Some(key_at(key@)),
        QueryInfo::GetProviders { key, .. } => Some(key_at(key@)),
        QueryInfo::GetRecord { key, .. } => Some(key_at(key@)),
        QueryInfo::AddProvider { key, phase: AddProviderPhase::GetClosestPeers, .. } => Some(
            key_at(key@),
        ),
        QueryInfo::PutRecord { record, phase: PutRecordPhase::GetClosestPeers, .. } => Some(
            key_at(record.key@),
        ),
        _ => None,
    }
}

/// The key that an iterator closes in on, if it is one of a lookup.
pub open spec fn iter_target(iter: QueryPeerIter) -> Option<Key> {
    match iter {
        QueryPeerIter::Closest(it) => Some(it.spec_target()),
        QueryPeerIter::ClosestDisjoint(it) => Some(it.spec_target()),
        QueryPeerIter::Fixed(_) => None,
    }
}

/// The iterator of the query closes in on the key that the query looks up.
pub open spec fn on_target(q: Query<QueryInfo>) -> bool {
    iter_target(q.peers) == lookup_key(q.info)
}

/// Every query closes in on the key that it looks up.
pub open spec fn all_on_target(queries: Seq<Query<QueryInfo>>) -> bool {
    forall|i: int| 0 <= i < queries.len() ==> on_target(#[trigger] queries[i])
}

/// The reports of the candidates that entered their bucket: one for each,
/// in their order.
pub open spec fn promotions(applied: Seq<AppliedPending>) -> Seq<Event>
    decreases applied.len(),
{
    if applied.len() == 0 {
        Seq::empty()
    } else {
        match applied.last() {
            AppliedPending::Promoted { inserted, evicted } => promotions(
                applied.drop_last(),
            ).push(Event::RoutingUpdated { peer: inserted, is_new_peer: true, old_peer: evicted }),
            AppliedPending::Dropped(_) => promotions(applied.drop_last()),
        }
    }
}

/// The statistics that the report of the query `q` carries: its own, in
/// its second phase together with those of its first.
pub open spec fn stats_of(q: Query<QueryInfo>) -> QueryStats {
    match q.info {
        QueryInfo::AddProvider {
            phase: AddProviderPhase::AddProvider { get_closest_peers_stats },
            ..
        } => crate::query::merged(get_closest_peers_stats, q.stats),
        QueryInfo::PutRecord {
            phase: PutRecordPhase::PutRecord { get_closest_peers_stats },
            ..
        } => crate::query::merged(get_closest_peers_stats, q.stats),
        _ => q.stats,
    }
}

/// What one look at the queries leads to.
#[derive(Debug, PartialEq, Eq)]
pub enum Polled {
    /// The driver is to do this.
    Action(ToSwarm),
    /// A query has gone on with its next phase, without a report.
    Continued,
    /// No query has anything to do until a message arrives or time passes.
    Rest,
}

/// The report that a look at the queries has led to, if any.
pub open spec fn report_of(r: Polled) -> Option<QueryResult> {
    match r {
        Polled::Action(ToSwarm::GenerateEvent(e)) => result_of(Some(e)),
        _ => None,
    }
}

/// The query `q` has left the pool, which then held the queries `mid`,
/// because it was done, or out of time if `timed_out`. This leads from the
/// behaviour `before` to the behaviour `after` with outcome `r`: the query
/// gives the report that `concluded` says, marked as last if and only if it
/// does not go on; a query that goes on is put back at the end of the pool.
/// The query was in order, and closed in on the key that it looked up.
pub open spec fn wound_up(
    before: Behaviour,
    mid: Seq<Query<QueryInfo>>,
    q: Query<QueryInfo>,
    timed_out: bool,
    after: Behaviour,
    r: Polled,
) -> bool {
    let next = put_back(after.pool(), q.id);
    &&& q.wf()
    &&& on_target(q)
    &&& refreshed(before, q.info, next, after)
    &&& after.held() == before.held()
    &&& concluded(
        q,
        before.table(),
        before.config().query_config,
        timed_out,
        report_of(r),
        next,
    )
    &&& after.pool().queries() == match next {
        Some(n) => mid.push(n),
        None => mid,
    }
    &&& match r {
        Polled::Action(
            ToSwarm::GenerateEvent(Event::OutboundQueryProgressed { id, stats, step, .. }),
        ) => id == q.id && stats == stats_of(q) && step.count == step_of(q.info).count && (step.last
            <==> next is None),
        Polled::Continued => next is Some,
        _ => false,
    }
}

/// The look `polled` at the pool, which left the queries `mid` there, leads
/// from the behaviour `before` to the behaviour `after` with outcome `r`.
/// A request to a peer to which a connection is open is to be sent. A
/// request to another peer waits, and the peer is to be dialed. A query
/// that left the pool is wound up.
pub open spec fn looked(
    before: Behaviour,
    mid: Seq<Query<QueryInfo>>,
    polled: QueryPoolState<QueryInfo>,
    after: Behaviour,
    r: Polled,
) -> bool {
    match polled {
        QueryPoolState::Idle => r is Rest && after.pool().queries() == mid && after.generator()
            == before.generator() && after.held() == before.held(),
        QueryPoolState::Waiting(None) => r is Rest && after.pool().queries() == mid
            && after.generator() == before.generator() && after.held() == before.held(),
        QueryPoolState::Waiting(Some((id, peer))) => {
            &&& after.generator() == before.generator()
            &&& after.pool().queries() == mid
            &&& if before.connected().contains(peer.key) {
                &&& r matches Polled::Action(ToSwarm::SendRequest { peer: to, query_id, request })
                &&& to == peer
                &&& query_id == id
                &&& sends(mid, id, before.local(), request)
                &&& after.held() == before.held()
            } else {
                &&& r == Polled::Action(ToSwarm::Dial { peer })
                &&& after.held().len() == before.held().len() + 1
                &&& after.held().drop_last() == before.held()
                &&& after.held().last().peer == peer
                &&& after.held().last().query_id == id
                &&& sends(mid, id, before.local(), after.held().last().request)
            }
        },
        QueryPoolState::Finished(q) => wound_up(before, mid, q, false, after, r),
        QueryPoolState::Timeout(q) => wound_up(before, mid, q, true, after, r),
    }
}

/// The iterator contacts each of `peers` once, in their order, with the
/// parallelism and the patience of the configuration, and has contacted
/// none yet.
pub open spec fn sent_to(iter: QueryPeerIter, peers: Seq<Peer>, config: QueryConfig) -> bool {
    &&& iter matches QueryPeerIter::Fixed(it)
    &&& it.parallelism() == config.parallelism
    &&& it.peer_timeout() == config.peer_timeout
    &&& !it.finished()
    &&& crate::candidates::peers_of(it.candidates()) == crate::fixed_peers::first_occurrences(peers)
    &&& crate::fixed_peers::all_not_contacted(it.candidates())
}

/// The query `next` is the next phase of the query `q`, whose lookup has
/// ended with answers from `peers`. A query that stores at the closest peers
/// sends the record, or the provider, to the peers that answered. A
/// bootstrap looks up the next of its peers, starting from the nodes of the
/// table that are closest to it.
pub open spec fn next_phase(
    q: Query<QueryInfo>,
    peers: Seq<Peer>,
    table: RoutingTable,
    config: QueryConfig,
    next: Query<QueryInfo>,
) -> bool {
    &&& next.id == q.id
    &&& next.stats == crate::query::no_stats()
    &&& match q.info {
        QueryInfo::AddProvider { key, context, .. } => {
            &&& next.info == QueryInfo::AddProvider {
                key,
                phase: AddProviderPhase::AddProvider { get_closest_peers_stats: q.stats },
                context,
            }
            &&& sent_to(next.peers, peers, config)
        },
        QueryInfo::PutRecord { record, quorum, context, .. } => {
            &&& next.info == QueryInfo::PutRecord {
                record,
                quorum,
                context,
                phase: PutRecordPhase::PutRecord { get_closest_peers_stats: q.stats },
            }
            &&& sent_to(next.peers, peers, config)
        },
        QueryInfo::Bootstrap { remaining, step, .. } => {
            &&& next.info matches QueryInfo::Bootstrap { peer: target, remaining: Some(rest),
                step: s }
            &&& s == next_step_of(step)
            &&& rest@.len() + 1 == lookups_left(q.info, table)
            &&& remaining matches Some(r) ==> target == r@[0] && rest@ == r@.skip(1)
            &&& lookup_seeded(next.peers, config, target.key, table.keys(), crate::config::K_VALUE)
        },
        _ => false,
    }
}

/// The query `q`, which is done, or out of time if `timed_out`, reports
/// `result` for the peers that answered, or goes on without a report as the
/// query `next`. The table and the configuration are those of the node.
pub open spec fn concluded(
    q: Query<QueryInfo>,
    table: RoutingTable,
    config: QueryConfig,
    timed_out: bool,
    result: Option<QueryResult>,
    next: Option<Query<QueryInfo>>,
) -> bool {
    exists|peers: Seq<Peer>|
        {
            &&& q.peers.yields(peers)
            &&& #[trigger] ends_with(
                q.info,
                peers,
                timed_out,
                lookups_left(q.info, table),
                result,
                next is Some,
            )
            &&& next matches Some(n) ==> next_phase(q, peers, table, config, n)
        }
}

/// The query of a pool with the identifier, if the pool has one: it is the
/// last of the pool when it has just been put there.
pub open spec fn put_back(pool: QueryPool<QueryInfo>, id: QueryId) -> Option<Query<QueryInfo>> {
    if pool.contains(id) {
        Some(pool.queries().last())
    } else {
        None
    }
}

/// The number of buckets among the first `n` that hold a node.
pub open spec fn occupied(buckets: Seq<crate::bucket::KBucket>, n: int) -> nat
    decreases n,
{
    if n <= 0 {
        0
    } else {
        occupied(buckets, n - 1) + if buckets[n - 1].nodes().len() > 0 {
            1nat
        } else {
            0nat
        }
    }
}

/// The request `r` is what a query with record `info` sends: a lookup asks
/// for the closest peers, for providers or for a record under its key, and
/// the second phase of a query brings the provider or the record.
pub open spec fn request_of(info: QueryInfo, local: Peer, r: Request) -> bool {
    match info {
        QueryInfo::Bootstrap { peer, .. } => r matches Request::FindNode { key } && key@
            == peer.id.canonical(),
        QueryInfo::GetClosestPeers { key, .. } => r matches Request::FindNode { key: k } && k@
            == key@,
        QueryInfo::GetProviders { key, .. } => r matches Request::GetProviders { key: k } && k@
            == key@,
        QueryInfo::GetRecord { key, .. } => r matches Request::GetValue { key: k } && k@ == key@,
        QueryInfo::AddProvider { key, phase: AddProviderPhase::GetClosestPeers,
            .. } => r matches Request::FindNode {
            key: k,
        } && k@ == key@,
        QueryInfo::AddProvider { key, phase: AddProviderPhase::AddProvider { .. },
            .. } => r matches Request::AddProvider {
            key: k,
            provider,
        } && k@ == key@ && provider.peer == local,
        QueryInfo::PutRecord { record, phase: PutRecordPhase::GetClosestPeers,
            .. } => r matches Request::FindNode {
            key: k,
        } && k@ == record.key@,
        QueryInfo::PutRecord { record, phase: PutRecordPhase::PutRecord { .. },
            .. } => r matches Request::PutValue {
            record: sent,
        } && sent@ == record@,
    }
}

/// The step at which a query with record `info` reports next. A query that
/// reports once, when it ends, stands at its first step throughout.
pub open spec fn step_of(info: QueryInfo) -> ProgressStep {
    match info {
        QueryInfo::Bootstrap { step, .. } => step,
        QueryInfo::GetClosestPeers { step, .. } => step,
        QueryInfo::GetProviders { step, .. } => step,
        QueryInfo::GetRecord { step, .. } => step,
        QueryInfo::AddProvider { .. } => ProgressStep { count: 1, last: false },
        QueryInfo::PutRecord { .. } => ProgressStep { count: 1, last: false },
    }
}

/// Whether an event is the last report of a query.
pub open spec fn is_terminal(e: Event) -> bool {
    e matches Event::OutboundQueryProgressed { step, .. } && step.last
}

/// The query of whose progress an event reports, if it reports of one.
pub open spec fn query_of(e: Event) -> Option<QueryId> {
    match e {
        Event::OutboundQueryProgressed { id, .. } => Some(id),
        _ => None,
    }
}

/// No query stands at a step that is marked as last.
pub open spec fn steps_open(queries: Seq<Query<QueryInfo>>) -> bool {
    forall|i: int| 0 <= i < queries.len() ==> !step_of((#[trigger] queries[i]).info).last
}

/// None of the reports is the last of its query.
pub open spec fn none_terminal(events: Seq<Event>) -> bool {
    forall|i: int| 0 <= i < events.len() ==> !is_terminal(#[trigger] events[i])
}

/// Reports of which none is the last of its query, with one more such report.
pub proof fn lemma_event_pushed(events: Seq<Event>, e: Event)
    requires
        none_terminal(events),
        !is_terminal(e),
    ensures
        none_terminal(events.push(e)),
{
    let after = events.push(e);
    assert forall|i: int| 0 <= i < after.len() implies !is_terminal(#[trigger] after[i]) by {
        if i < events.len() {
            assert(after[i] == events[i]);
        }
    }
}

/// Queries of which none stands at a last step, with one more such query.
pub proof fn lemma_query_pushed(queries: Seq<Query<QueryInfo>>, q: Query<QueryInfo>)
    requires
        steps_open(queries),
        !step_of(q.info).last,
    ensures
        steps_open(queries.push(q)),
{
    let after = queries.push(q);
    assert forall|i: int| 0 <= i < after.len() implies !step_of((#[trigger] after[i]).info).last by {
        if i < queries.len() {
            assert(after[i] == queries[i]);
        }
    }
}

/// Queries that record what they recorded before stand at the steps at
/// which they stood.
pub proof fn lemma_same_infos(before: Seq<Query<QueryInfo>>, after: Seq<Query<QueryInfo>>)
    requires
        steps_open(before),
        after.len() == before.len(),
        forall|i: int| 0 <= i < before.len() ==> (#[trigger] after[i]).info == before[i].info,
    ensures
        steps_open(after),
{
    assert forall|i: int| 0 <= i < after.len() implies !step_of((#[trigger] after[i]).info).last by {
        assert(after[i].info == before[i].info);
    }
}

/// The result that a report carries, if it reports of a query.
pub open spec fn result_of(e: Option<Event>) -> Option<QueryResult> {
    match e {
        Some(Event::OutboundQueryProgressed { result, .. }) => Some(result),
        _ => None,
    }
}

/// The result of announcing a provider, by what the announcement was for.
pub fn provider_result(
    context: AddProviderContext,
    answer: Result<AddProviderOk, AddProviderError>,
) -> (r:
    QueryResult)
    ensures
        r == if context == AddProviderContext::Publish {
            QueryResult::StartProviding(answer)
        } else {
            QueryResult::RepublishProvider(answer)
        },
{
    match context {
        AddProviderContext::Publish => QueryResult::StartProviding(answer),
        AddProviderContext::Republish => QueryResult::RepublishProvider(answer),
    }
}

/// The result of storing a record, by what the record was put for.
pub fn record_result(context: PutRecordContext, answer: Result<PutRecordOk, PutRecordError>) -> (r:
    QueryResult)
    ensures
        r == if context == PutRecordContext::Publish {
            QueryResult::PutRecord(answer)
        } else {
            QueryResult::RepublishRecord(answer)
        },
{
    match context {
        PutRecordContext::Publish => QueryResult::PutRecord(answer),
        _ => QueryResult::RepublishRecord(answer),
    }
}

/// The request `request` is the one that query `id` among `queries` sends.
pub open spec fn sends(
    queries: Seq<Query<QueryInfo>>,
    id: QueryId,
    local: Peer,
    request: Request,
) -> bool {
    exists|i: int| query_at(queries, id, i) && request_of(queries[i].info, local, request)
}

/// A number of results, a bucket's worth at most.
pub open spec fn at_most_k(n: usize) -> usize {
    if n > crate::config::K_VALUE {
        crate::config::K_VALUE
    } else {
        n
    }
}

/// The report of a lookup of the closest peers names the peers that
/// answered in strictly ascending distance from the target of the lookup.
/// Where the lookup went over one path, the first of them is the closest of
/// all candidates that answered.
pub proof fn lemma_lookup_reports_closest_first(
    q: Query<QueryInfo>,
    table: RoutingTable,
    config: QueryConfig,
    timed_out: bool,
    answer: GetClosestPeersOk,
    next: Option<Query<QueryInfo>>,
)
    requires
        q.wf(),
        q.info is GetClosestPeers,
        concluded(
            q,
            table,
            config,
            timed_out,
            Some(QueryResult::GetClosestPeers(Ok(answer))),
            next,
        ),
    ensures
        !timed_out,
        next is None,
        q.peers matches QueryPeerIter::Closest(it) ==> {
            &&& answer.peers@ == crate::candidates::succeeded(it.candidates())
            &&& crate::candidates::peers_sorted(answer.peers@, it.spec_target())
            &&& forall|j: int|
                0 <= j < it.candidates().len() && (#[trigger] it.candidates()[j]).data is Succeeded
                    ==> answer.peers@.len() > 0 && crate::key::distance(
                    answer.peers@[0].key,
                    it.spec_target(),
                ) <= crate::key::distance(it.candidates()[j].peer.key, it.spec_target())
        },
        q.peers matches QueryPeerIter::ClosestDisjoint(it) ==> crate::candidates::peers_sorted(
            answer.peers@,
            it.spec_target(),
        ),
{
    let peers = choose|peers: Seq<Peer>|
        {
            &&& q.peers.yields(peers)
            &&& #[trigger] ends_with(
                q.info,
                peers,
                timed_out,
                lookups_left(q.info, table),
                Some(QueryResult::GetClosestPeers(Ok(answer))),
                next is Some,
            )
            &&& next matches Some(n) ==> next_phase(q, peers, table, config, n)
        };
    assert(answer.peers@ == peers);
    match q.peers {
        QueryPeerIter::Closest(it) => {
            it.lemma_result_closest_first();
        },
        QueryPeerIter::ClosestDisjoint(it) => {
            let entries = as_entries(peers);
            assert forall|i: int, j: int| 0 <= i < j < peers.len() implies crate::key::distance(
                #[trigger] peers[i].key,
                it.spec_target(),
            ) < crate::key::distance(#[trigger] peers[j].key, it.spec_target()) by {
                assert(entries[i].peer == peers[i]);
                assert(entries[j].peer == peers[j]);
            }
        },
        QueryPeerIter::Fixed(_) => {},
    }
}

/// A record is sent to the peers that answered the lookup of its key,
/// closest to the key first: when a query that stores a record has looked
/// up the closest peers over one path, its second phase contacts the peers
/// that answered, each once, in ascending distance from the key.
pub proof fn lemma_record_goes_to_the_closest(
    q: Query<QueryInfo>,
    table: RoutingTable,
    config: QueryConfig,
    next: Query<QueryInfo>,
)
    requires
        q.wf(),
        q.info is PutRecord,
        q.peers is Closest,
        concluded(q, table, config, false, None, Some(next)),
    ensures
        next.info is PutRecord,
        next.peers matches QueryPeerIter::Fixed(to) && q.peers matches QueryPeerIter::Closest(it)
            && crate::candidates::peers_of(to.candidates()) == crate::candidates::succeeded(
            it.candidates(),
        ) && crate::candidates::peers_sorted(
            crate::candidates::peers_of(to.candidates()),
            it.spec_target(),
        ),
{
    let peers = choose|peers: Seq<Peer>|
        {
            &&& q.peers.yields(peers)
            &&& #[trigger] ends_with(
                q.info,
                peers,
                false,
                lookups_left(q.info, table),
                None,
                Some(next) is Some,
            )
            &&& Some(next) matches Some(n) ==> next_phase(q, peers, table, config, n)
        };
    assert(next_phase(q, peers, table, config, next));
    match q.peers {
        QueryPeerIter::Closest(it) => {
            it.lemma_result_closest_first();
            crate::fixed_peers::lemma_sorted_first_occurrences(peers, it.spec_target());
        },
        _ => {},
    }
}

/// The report of a lookup of a bootstrap says how many lookups remain; the
/// bootstrap goes on if and only if one remains. So the last report of a
/// bootstrap, and no other, says that none remains.
pub proof fn lemma_bootstrap_ends_with_none_left(
    q: Query<QueryInfo>,
    table: RoutingTable,
    config: QueryConfig,
    timed_out: bool,
    result: QueryResult,
    next: Option<Query<QueryInfo>>,
)
    requires
        q.info is Bootstrap,
        concluded(q, table, config, timed_out, Some(result), next),
    ensures
        match result {
            QueryResult::Bootstrap(Ok(ok)) => !timed_out && (ok.num_remaining == 0
                <==> next is None)
                && ok.num_remaining == crate::progress::capped_u32(lookups_left(q.info, table)),
            QueryResult::Bootstrap(Err(BootstrapError::Timeout { num_remaining, .. })) => timed_out
                && num_remaining is Some && (num_remaining->0 == 0 <==> next is None),
            _ => false,
        },
{
}

/// What a lookup of the closest peers reports when it is done: the key that
/// was looked up, and the peers that answered, in strictly ascending
/// distance from that key, so that none is named twice. Where the lookup
/// went over one path, the first of them is the closest of all candidates
/// that answered.
pub proof fn lemma_closest_peers_report(
    before: Behaviour,
    mid: Seq<Query<QueryInfo>>,
    q: Query<QueryInfo>,
    timed_out: bool,
    after: Behaviour,
    r: Polled,
    answer: GetClosestPeersOk,
)
    requires
        wound_up(before, mid, q, timed_out, after, r),
        q.info is GetClosestPeers,
        report_of(r) == Some(QueryResult::GetClosestPeers(Ok(answer))),
    ensures
        !timed_out,
        !after.pool().contains(q.id),
        q.info matches QueryInfo::GetClosestPeers { key, .. } && answer.key == key,
        crate::candidates::peers_sorted(answer.peers@, key_at(answer.key@)),
        forall|i: int, j: int|
            0 <= i < j < answer.peers@.len() ==> (#[trigger] answer.peers@[i]).key != (
            #[trigger] answer.peers@[j]).key,
        q.peers matches QueryPeerIter::Closest(it) ==> {
            &&& answer.peers@ == crate::candidates::succeeded(it.candidates())
            &&& forall|j: int|
                0 <= j < it.candidates().len() && (#[trigger] it.candidates()[j]).data is Succeeded
                    ==> answer.peers@.len() > 0 && crate::key::distance(
                    answer.peers@[0].key,
                    key_at(answer.key@),
                ) <= crate::key::distance(it.candidates()[j].peer.key, key_at(answer.key@))
        },
{
    let next = put_back(after.pool(), q.id);
    lemma_lookup_reports_closest_first(
        q,
        before.table(),
        before.config().query_config,
        timed_out,
        answer,
        next,
    );
    let target = key_at(answer.key@);
    assert forall|i: int, j: int| 0 <= i < j < answer.peers@.len() implies (
    #[trigger] answer.peers@[i]).key != (#[trigger] answer.peers@[j]).key by {
        assert(crate::key::distance(answer.peers@[i].key, target) < crate::key::distance(
            answer.peers@[j].key,
            target,
        ));
    }
}

/// A record that was put with success is stored at as many peers as the
/// quorum asks for, no peer counted twice, and each of them is a peer that
/// the second phase of the query was sent to and that answered.
pub proof fn lemma_put_record_ok(
    targets: Seq<crate::candidates::Candidate>,
    record: Record,
    quorum: usize,
    phase: PutRecordPhase,
    answer: Result<PutRecordOk, PutRecordError>,
)
    requires
        crate::fixed_peers::distinct_candidates(targets),
        phase is PutRecord,
        put_answer(record, quorum, phase, crate::candidates::succeeded(targets), false, answer),
        answer is Ok,
    ensures
        crate::candidates::succeeded(targets).len() >= quorum,
        forall|a: int, b: int|
            0 <= a < crate::candidates::succeeded(targets).len() && 0 <= b
                < crate::candidates::succeeded(targets).len() && a != b ==> (
            #[trigger] crate::candidates::succeeded(targets)[a]).key != (
            #[trigger] crate::candidates::succeeded(targets)[b]).key,
        forall|i: int|
            0 <= i < crate::candidates::succeeded(targets).len()
                ==> crate::fixed_peers::is_succeeded_candidate(
                targets,
                #[trigger] crate::candidates::succeeded(targets)[i],
            ),
{
    crate::fixed_peers::lemma_succeeded_distinct(targets);
}

/// The reports after a peer was offered to the routing table with outcome
/// `i`: a peer that entered is reported, with the peer that left for it.
pub open spec fn entered_events(events: Seq<Event>, peer: Peer, i: InsertResult) -> Seq<Event> {
    match i {
        InsertResult::Inserted => events.push(
            Event::RoutingUpdated { peer, is_new_peer: true, old_peer: None },
        ),
        InsertResult::Replaced(evicted) => events.push(
            Event::RoutingUpdated { peer, is_new_peer: true, old_peer: Some(evicted) },
        ),
        _ => events,
    }
}

/// The mode of a node: the one that the user has set, or else the one that
/// follows from the number of addresses under which the node can be reached.
pub open spec fn mode_for(forced: Option<Mode>, addresses: nat) -> Mode {
    match forced {
        Some(mode) => mode,
        None => if addresses > 0 {
            Mode::Server
        } else {
            Mode::Client
        },
    }
}

/// The first position at which `item` occurs in `list`, if it does.
pub open spec fn first_of(list: Seq<Seq<u8>>, item: Seq<u8>) -> Option<int> {
    if list.contains(item) {
        Some(
            choose|i: int|
                0 <= i < list.len() && list[i] == item && forall|j: int|
                    0 <= j < i ==> list[j] != item,
        )
    } else {
        None
    }
}

/// The first position of an item is the position before which it does not
/// occur.
pub proof fn lemma_first_of(list: Seq<Seq<u8>>, item: Seq<u8>, i: int)
    requires
        0 <= i < list.len(),
        list[i] == item,
        forall|j: int| 0 <= j < i ==> list[j] != item,
    ensures
        first_of(list, item) == Some(i),
{
    assert(list.contains(item));
    let c = choose|c: int|
        0 <= c < list.len() && list[c] == item && forall|j: int| 0 <= j < c ==> list[j] != item;
    if c < i {
        assert(list[c] != item);
    }
    if i < c {
        assert(list[i] != item);
    }
}

/// An item that occurs nowhere has no first position.
pub proof fn lemma_first_of_none(list: Seq<Seq<u8>>, item: Seq<u8>)
    requires
        forall|j: int| 0 <= j < list.len() ==> list[j] != item,
    ensures
        first_of(list, item) is None,
{
    if list.contains(item) {
        let w = choose|w: int| 0 <= w < list.len() && list[w] == item;
        assert(list[w] != item);
    }
}

/// The number of reports or phases that a query with record `info` has yet
/// to go through at least: two for a query in the first of two phases, one
/// for any other.
pub open spec fn info_weight(info: QueryInfo) -> nat {
    match info {
        QueryInfo::PutRecord { phase: PutRecordPhase::GetClosestPeers, .. } => 2,
        QueryInfo::AddProvider { phase: AddProviderPhase::GetClosestPeers, .. } => 2,
        _ => 1,
    }
}

/// The weights of the queries, added up.
pub open spec fn weight(queries: Seq<Query<QueryInfo>>) -> nat
    decreases queries.len(),
{
    if queries.len() == 0 {
        0
    } else {
        weight(queries.drop_last()) + info_weight(queries.last().info)
    }
}

/// The weight of queries with one more query.
pub proof fn lemma_weight_push(queries: Seq<Query<QueryInfo>>, q: Query<QueryInfo>)
    ensures
        weight(queries.push(q)) == weight(queries) + info_weight(q.info),
{
    assert(queries.push(q).drop_last() =~= queries);
}

/// The weight of queries that record what other queries record.
pub proof fn lemma_weight_same(a: Seq<Query<QueryInfo>>, b: Seq<Query<QueryInfo>>)
    requires
        a.len() == b.len(),
        forall|i: int| 0 <= i < a.len() ==> (#[trigger] a[i]).info == b[i].info,
    ensures
        weight(a) == weight(b),
    decreases a.len(),
{
    if a.len() > 0 {
        assert forall|i: int| 0 <= i < a.drop_last().len() implies (#[trigger] a.drop_last()[i]).info
            == b.drop_last()[i].info by {
            assert(a.drop_last()[i] == a[i]);
            assert(b.drop_last()[i] == b[i]);
        }
        lemma_weight_same(a.drop_last(), b.drop_last());
        assert(a.last() == a[a.len() - 1]);
        assert(b.last() == b[b.len() - 1]);
    }
}

/// The weight of queries without one of them.
pub proof fn lemma_weight_remove(queries: Seq<Query<QueryInfo>>, m: int)
    requires
        0 <= m < queries.len(),
    ensures
        weight(queries.remove(m)) + info_weight(queries[m].info) == weight(queries),
    decreases queries.len(),
{
    let n = queries.len() as int;
    if m == n - 1 {
        assert(queries.remove(m) =~= queries.drop_last());
    } else {
        lemma_weight_remove(queries.drop_last(), m);
        assert(queries.remove(m).drop_last() =~= queries.drop_last().remove(m));
        assert(queries.remove(m).last() == queries.last());
        assert(queries.drop_last()[m] == queries[m]);
    }
}

/// A poll of the pool takes the weight of the query that leaves off the
/// weight of the pool, and leaves the weight as it is if none leaves.
pub proof fn lemma_weight_after_poll(
    before: Seq<Query<QueryInfo>>,
    timeout: u64,
    now: u64,
    after: Seq<Query<QueryInfo>>,
    r: QueryPoolState<QueryInfo>,
)
    requires
        crate::pool::pool_step(before, timeout, now, after, r),
    ensures
        weight(after) + match r {
            QueryPoolState::Finished(q) => info_weight(q.info),
            QueryPoolState::Timeout(q) => info_weight(q.info),
            _ => 0,
        } == weight(before),
{
    if before.len() > 0 {
        let (stepped, rs) = choose|
            stepped: Seq<Query<QueryInfo>>,
            rs: Seq<crate::candidates::PeersIterState>,
        |
            #![trigger stepped.len(), rs.len()]
            {
                &&& stepped.len() == before.len()
                &&& 1 <= rs.len() <= before.len()
                &&& forall|j: int|
                    0 <= j < rs.len() ==> crate::pool::query_step(
                        before[j],
                        now,
                        #[trigger] stepped[j],
                        rs[j],
                    )
                &&& forall|j: int| rs.len() <= j < before.len() ==> #[trigger] stepped[j]
                    == before[j]
                &&& {
                    let m = rs.len() - 1;
                    match r {
                        QueryPoolState::Idle => false,
                        QueryPoolState::Waiting(_) => after == stepped,
                        QueryPoolState::Finished(q) => q == crate::pool::ended(stepped[m], now)
                            && after == stepped.remove(m),
                        QueryPoolState::Timeout(q) => q == crate::pool::ended(stepped[m], now)
                            && after == stepped.remove(m),
                    }
                }
            };
        assert forall|i: int| 0 <= i < before.len() implies (#[trigger] stepped[i]).info
            == before[i].info by {
            if i < rs.len() {
                assert(crate::pool::query_step(before[i], now, stepped[i], rs[i]));
            }
        }
        lemma_weight_same(stepped, before);
        let m = rs.len() - 1;
        match r {
            QueryPoolState::Finished(q) => {
                lemma_weight_remove(stepped, m);
            },
            QueryPoolState::Timeout(q) => {
                lemma_weight_remove(stepped, m);
            },
            _ => {},
        }
    }
}

/// The query is one that a periodic job has started: it stores a record
/// anew at all of the closest peers, or announces a provider anew, and
/// stands in its first phase, with nothing sent.
pub open spec fn started_by_job(q: Query<QueryInfo>, replication: usize) -> bool {
    &&& q.stats == crate::query::no_stats()
    &&& match q.info {
        QueryInfo::PutRecord { quorum, context, phase, .. } => quorum == replication && context
            != PutRecordContext::Publish && phase is GetClosestPeers,
        QueryInfo::AddProvider { phase, context, .. } => context == AddProviderContext::Republish
            && phase is GetClosestPeers,
        _ => false,
    }
}

/// The schedule after a poll at `now` that found a bootstrap due or not: a
/// bootstrap that is due and can start is under way afterwards.
pub open spec fn polled_schedule(s: BootstrapStatus, now: u64, can_start: bool) -> BootstrapStatus {
    if crate::bootstrap::due(s, now) && can_start {
        crate::bootstrap::after_start(crate::bootstrap::after_poll(s, now), now)
    } else {
        crate::bootstrap::after_poll(s, now)
    }
}

/// What the behaviour asks of its driver.
#[derive(Debug, PartialEq, Eq)]
pub enum ToSwarm {
    /// Report the event to the user.
    GenerateEvent(Event),
    /// Send the request of the query to the peer, and bring back the
    /// response or the failure.
    SendRequest { peer: Peer, query_id: QueryId, request: Request },
    /// Open a connection to the peer: a request waits for it.
    Dial { peer: Peer },
}

/// A request that waits for a connection to its peer.
#[derive(Debug, PartialEq, Eq)]
pub struct HeldRequest {
    pub peer: Peer,
    pub query_id: QueryId,
    pub request: Request,
}

/// The requests of `held` to the peer at `key`, in their order.
pub open spec fn held_for(held: Seq<HeldRequest>, key: Key) -> Seq<HeldRequest>
    decreases held.len(),
{
    if held.len() == 0 {
        Seq::empty()
    } else if held.last().peer.key == key {
        held_for(held.drop_last(), key).push(held.last())
    } else {
        held_for(held.drop_last(), key)
    }
}

/// The requests of `held` to other peers than the one at `key`, in their
/// order.
pub open spec fn held_for_others(held: Seq<HeldRequest>, key: Key) -> Seq<HeldRequest>
    decreases held.len(),
{
    if held.len() == 0 {
        Seq::empty()
    } else if held.last().peer.key == key {
        held_for_others(held.drop_last(), key)
    } else {
        held_for_others(held.drop_last(), key).push(held.last())
    }
}

/// Takes the requests to the peer at `key` out of `held`. Returns them, in
/// their order.
fn release(held: &mut Vec<HeldRequest>, key: &Key) -> (r: Vec<HeldRequest>)
    ensures
        r@ == held_for(old(held)@, *key),
        final(held)@ == held_for_others(old(held)@, *key),
{
    let ghost all = held@;
    let mut released: Vec<HeldRequest> = Vec::new();
    let mut kept: Vec<HeldRequest> = Vec::new();
    let ghost mut j: int = 0;
    proof {
        assert(all.take(0) =~= Seq::<HeldRequest>::empty());
        assert(all.skip(0) =~= all);
    }
    while held.len() > 0
        invariant
            0 <= j <= all.len(),
            held@ == all.skip(j),
            released@ == held_for(all.take(j), *key),
            kept@ == held_for_others(all.take(j), *key),
        decreases held@.len(),
    {
        let first = held.remove(0);
        proof {
            assert(first == all[j]);
            assert(held@ =~= all.skip(j + 1));
            assert(all.take(j + 1).drop_last() =~= all.take(j));
            assert(all.take(j + 1).last() == all[j]);
            j = j + 1;
        }
        if first.peer.key.same(key) {
            released.push(first);
        } else {
            kept.push(first);
        }
    }
    proof {
        assert(all.take(all.len() as int) =~= all);
    }
    *held = kept;
    released
}

/// The result that a query with record `info` reports at its end, when
/// `peers` have answered: `result` is that result, and `continues` says
/// whether the query goes on with another phase or lookup instead of
/// ending.
pub open spec fn ends_with(
    info: QueryInfo,
    peers: Seq<Peer>,
    timed_out: bool,
    remaining: nat,
    result: Option<QueryResult>,
    continues: bool,
) -> bool {
    match info {
        QueryInfo::Bootstrap { peer, .. } => {
            &&& continues == (remaining > 0)
            &&& if timed_out {
                result == Some(
                    QueryResult::Bootstrap(
                        Err(
                            BootstrapError::Timeout {
                                peer,
                                num_remaining: Some(crate::progress::capped_u32(remaining)),
                            },
                        ),
                    ),
                )
            } else {
                result == Some(
                    QueryResult::Bootstrap(
                        Ok(BootstrapOk { peer,
                            num_remaining: crate::progress::capped_u32(remaining) }),
                    ),
                )
            }
        },
        QueryInfo::GetClosestPeers { key, .. } => {
            &&& !continues
            &&& if timed_out {
                result matches Some(
                    QueryResult::GetClosestPeers(Err(GetClosestPeersError::Timeout { key: k,
                        peers: p })),
                ) && k == key && p@ == peers
            } else {
                result matches Some(QueryResult::GetClosestPeers(Ok(GetClosestPeersOk { key: k,
                    peers: p })))
                    && k == key && p@ == peers
            }
        },
        QueryInfo::GetProviders { key, .. } => {
            &&& !continues
            &&& if timed_out {
                result matches Some(
                    QueryResult::GetProviders(Err(GetProvidersError::Timeout { key: k,
                        closest_peers: p })),
                ) && k == key && p@ == peers
            } else {
                result matches Some(
                    QueryResult::GetProviders(
                        Ok(GetProvidersOk::FinishedWithNoAdditionalRecord { closest_peers: p }),
                    ),
                ) && p@ == peers
            }
        },
        QueryInfo::GetRecord { key, found, quorum, .. } => {
            &&& !continues
            &&& if timed_out {
                result == Some(QueryResult::GetRecord(Err(GetRecordError::Timeout { key })))
            } else if found == 0 {
                result matches Some(
                    QueryResult::GetRecord(Err(GetRecordError::NotFound { key: k,
                        closest_peers: p })),
                ) && k == key && p@ == peers
            } else if found < quorum {
                result == Some(
                    QueryResult::GetRecord(Err(GetRecordError::QuorumFailed { key, found,
                        quorum })),
                )
            } else {
                result matches Some(
                    QueryResult::GetRecord(
                        Ok(GetRecordOk::FinishedWithNoAdditionalRecord { cache_candidates: p }),
                    ),
                ) && p@ == peers
            }
        },
        QueryInfo::AddProvider { key, phase, context } => {
            let failed = Err::<AddProviderOk, AddProviderError>(AddProviderError::Timeout { key });
            let done = Ok::<AddProviderOk, AddProviderError>(AddProviderOk { key });
            let answer = if timed_out {
                failed
            } else {
                done
            };
            &&& continues == (phase is GetClosestPeers && !timed_out)
            &&& result == if continues {
                None
            } else if context == AddProviderContext::Publish {
                Some(QueryResult::StartProviding(answer))
            } else {
                Some(QueryResult::RepublishProvider(answer))
            }
        },
        QueryInfo::PutRecord { record, quorum, context, phase } => {
            &&& continues == (phase is GetClosestPeers && !timed_out)
            &&& continues ==> result is None
            &&& !continues ==> {
                &&& result is Some
                &&& match result->0 {
                    QueryResult::PutRecord(answer) => context == PutRecordContext::Publish
                        && put_answer(record, quorum, phase, peers, timed_out, answer),
                    QueryResult::RepublishRecord(answer) => context != PutRecordContext::Publish
                        && put_answer(record, quorum, phase, peers, timed_out, answer),
                    _ => false,
                }
            }
        },
    }
}

/// The answer of a query that stored a record: success if and only if it
/// did not run out of time and as many peers as the quorum asks for have
/// stored the record.
pub open spec fn put_answer(
    record: Record,
    quorum: usize,
    phase: PutRecordPhase,
    peers: Seq<Peer>,
    timed_out: bool,
    answer: Result<PutRecordOk, PutRecordError>,
) -> bool {
    let success = if phase is GetClosestPeers {
        Seq::<Peer>::empty()
    } else {
        peers
    };
    if timed_out {
        answer matches Err(PutRecordError::Timeout { key, success: s, quorum: q }) && key@
            == record.key@ && s@ == success && q == quorum
    } else if success.len() >= quorum {
        answer matches Ok(PutRecordOk { key }) && key@ == record.key@
    } else {
        answer matches Err(PutRecordError::QuorumFailed { key, success: s, quorum: q }) && key@
            == record.key@ && s@ == success && q == quorum
    }
}

/// The record as the local peer publishes it.
pub open spec fn published(record: RecordView, local: PeerId) -> RecordView {
    RecordView { publisher: Some(local), ..record }
}

/// The expiry with which a record leaves for the first time: its own, or
/// the time to live from `now` on.
pub open spec fn first_expiry(expires: Option<u64>, ttl: Option<u64>, now: u64) -> Option<u64> {
    if expires is Some {
        expires
    } else {
        match ttl {
            Some(ttl) => Some(crate::candidates::deadline_after(now, ttl)),
            None => None,
        }
    }
}

/// What the local store has under a key at a time.
pub enum LocalHit {
    /// Nothing.
    Missing,
    /// A record that has expired.
    Stale,
    /// A record that has not expired.
    Live,
}

/// What the records `held` have under `key` at time `now`.
pub open spec fn local_hit(held: Map<Seq<u8>, RecordView>, key: Seq<u8>, now: u64) -> LocalHit {
    if !held.dom().contains(key) {
        LocalHit::Missing
    } else if crate::record::expired_at(held[key].expires, now) {
        LocalHit::Stale
    } else {
        LocalHit::Live
    }
}

/// The providers of a list whose record has not expired at `now`, each with
/// the addresses of its record, in the order of the list.
pub open spec fn live_infos(list: Seq<crate::providers::Provider>, now: u64) -> Seq<
    crate::message::PeerInfoView,
> {
    crate::providers::live(list, now).map_values(
        |e: crate::providers::Provider|
            crate::message::PeerInfoView { peer: e.peer, addresses: e.data@.addresses },
    )
}

/// The providers of a list whose record has not expired at `now`, in the
/// order of the list.
pub open spec fn live_providers(list: Seq<crate::providers::Provider>, now: u64) -> Seq<Peer>
    decreases list.len(),
{
    if list.len() == 0 {
        Seq::empty()
    } else if crate::record::expired_at(list.last().data.expires, now) {
        live_providers(list.drop_last(), now)
    } else {
        live_providers(list.drop_last(), now).push(list.last().peer)
    }
}

/// The query `id` with record `info` was added to the pool of `before`, and
/// nothing else changed but the pool.
pub open spec fn started(
    before: Behaviour,
    after: Behaviour,
    id: QueryId,
    info: QueryInfo,
) -> bool {
    started_query(before, after, id) && after.pool().queries().last().info == info
}

/// A query `id` was added to the pool of `before`, and nothing else changed
/// but the pool.
pub open spec fn started_query(before: Behaviour, after: Behaviour, id: QueryId) -> bool {
    &&& id == QueryId(before.pool().next_id())
    &&& !before.pool().contains(id)
    &&& after.pool().next_id() == before.pool().next_id() + 1
    &&& after.pool().queries().len() == before.pool().queries().len() + 1
    &&& after.pool().queries().drop_last() == before.pool().queries()
    &&& after.pool().queries().last().id == id
    &&& after.pool().queries().last().stats == crate::query::no_stats()
    &&& after.table() == before.table()
    &&& after.local() == before.local()
    &&& after.config() == before.config()
    &&& after.mode() == before.mode()
    &&& after.connected() == before.connected()
}

/// The iterator `iter` is that of a fresh lookup of the `num_results`
/// closest peers to `target` that starts from `peers`: over one path it
/// holds the closest of them, over disjoint paths each path holds the closest
/// of those that it took.
pub open spec fn iter_seeded(
    iter: QueryPeerIter,
    config: QueryConfig,
    target: Key,
    peers: Seq<Peer>,
    num_results: usize,
) -> bool {
    match iter {
        QueryPeerIter::Closest(it) => {
            &&& !config.disjoint_query_paths
            &&& it.spec_target() == target
            &&& it.spec_config() == lookup_config(config, num_results)
            &&& it.spec_state() == IterState::Iterating
            &&& is_closest(it.candidates(), peer_keys(peers), target, num_results as nat)
            &&& forall|i: int|
                0 <= i < it.candidates().len() ==> (#[trigger] it.candidates()[i]).data
                    == PeerState::NotContacted && peers.contains(it.candidates()[i].peer)
        },
        QueryPeerIter::ClosestDisjoint(it) => {
            &&& config.disjoint_query_paths
            &&& it.spec_target() == target
            &&& it.spec_config() == lookup_config(config, num_results)
            &&& it.paths().len() == config.parallelism
            &&& it.seen() == peer_keys(peers)
            &&& forall|q: int|
                #![trigger it.paths()[q]]
                0 <= q < config.parallelism ==> {
                    &&& it.paths()[q].spec_state() == IterState::Iterating
                    &&& is_closest(
                        it.paths()[q].candidates(),
                        assigned(
                            fresh_peers(Set::empty(), peers),
                            0,
                            config.parallelism as int,
                            q,
                        ),
                        target,
                        num_results as nat,
                    )
                    &&& forall|x: int|
                        0 <= x < it.paths()[q].candidates().len() ==> (
                        #[trigger] it.paths()[q].candidates()[x]).data == PeerState::NotContacted
                }
        },
        QueryPeerIter::Fixed(_) => false,
    }
}

/// The parameters of the iterator of a lookup of `num_results` peers.
pub open spec fn lookup_config(config: QueryConfig, num_results: usize) -> ClosestPeersIterConfig {
    ClosestPeersIterConfig {
        parallelism: config.parallelism,
        num_results,
        required: num_results,
        peer_timeout: config.peer_timeout,
    }
}

/// The iterator `iter` is that of a fresh lookup towards `target` that
/// starts from the nodes closest to it among `keys`, a bucket's worth.
pub open spec fn lookup_seeded(
    iter: QueryPeerIter,
    config: QueryConfig,
    target: Key,
    keys: Set<Key>,
    num_results: usize,
) -> bool {
    exists|peers: Seq<Peer>|
        #![trigger iter_seeded(iter, config, target, peers, num_results)]
        is_closest(as_entries(peers), keys, target, crate::config::K_VALUE as nat) && iter_seeded(
            iter,
            config,
            target,
            peers,
            num_results,
        )
}

} // verus!
