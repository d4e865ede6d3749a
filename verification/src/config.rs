//! The configuration of the behaviour.

use crate::pool::QueryConfig;
use vstd::prelude::*;

verus! {

/// The bucket size and the number of closest peers that a lookup looks for.
pub const K_VALUE: usize = 20;

/// The number of requests of a lookup in flight at a time.
pub const ALPHA_VALUE: usize = 3;

/// The number of queries under way above which the background jobs start
/// no new ones.
pub const JOBS_MAX_QUERIES: usize = 100;

/// Whether the local node serves requests.
#[derive(Clone, Copy, Debug, PartialEq, Eq, Structural)]
pub enum Mode {
    /// The node sends requests and serves none.
    Client,
    /// The node sends and serves requests.
    Server,
}

/// How peers enter the routing table.
#[derive(Clone, Copy, Debug, PartialEq, Eq, Structural)]
pub enum BucketInserts {
    /// A peer enters when it is connected and known to speak the protocol.
    OnConnected,
    /// A peer enters only when the user adds it; a peer that could enter is
    /// reported to the user.
    Manual,
}

/// How records that other peers send enter the store.
#[derive(Clone, Copy, Debug, PartialEq, Eq, Structural)]
pub enum StoreInserts {
    /// Records and providers are stored as they arrive.
    Unfiltered,
    /// Records and providers are handed to the user, who stores what they accept.
    FilterBoth,
}

/// The configuration of the behaviour. Times are in seconds.
#[derive(Clone, Copy, Debug, PartialEq, Eq)]
pub struct Config {
    /// The parameters of the queries.
    pub query_config: QueryConfig,
    /// The time for which a candidate waits for a place in a full bucket.
    pub kbucket_pending_timeout: u64,
    /// The time to live of records that are stored for others.
    pub record_ttl: Option<u64>,
    /// The interval at which stored records are replicated to the closest peers.
    pub record_replication_interval: Option<u64>,
    /// The interval at which the records of the local node are published anew.
    pub record_publication_interval: Option<u64>,
    /// How records of other peers enter the store.
    pub record_filtering: StoreInserts,
    /// The time to live of provider records.
    pub provider_record_ttl: Option<u64>,
    /// The interval at which the local node announces anew what it provides.
    pub provider_publication_interval: Option<u64>,
    /// How peers enter the routing table.
    pub kbucket_inserts: BucketInserts,
    /// The interval of the periodic bootstrap; none switches it off.
    pub periodic_bootstrap_interval: Option<u64>,
    /// The shortest time between two bootstraps that new peers set off; none
    /// switches them off.
    pub automatic_bootstrap_throttle: Option<u64>,
}

impl Config {
    /// The configuration is usable: its queries are.
    pub open spec fn valid(self) -> bool {
        self.query_config.valid()
    }

    /// Whether the configuration is usable.
    pub fn is_valid(&self) -> (r: bool)
        ensures
            r == self.valid(),
    {
        self.query_config.is_valid()
    }

    /// The default configuration.
    pub open spec fn standard() -> Config {
        Config {
            query_config: QueryConfig {
                timeout: 60,
                replication_factor: 20,
                parallelism: 3,
                disjoint_query_paths: false,
                peer_timeout: 10,
            },
            kbucket_pending_timeout: 60,
            record_ttl: Some(172800),
            record_replication_interval: Some(3600),
            record_publication_interval: Some(79200),
            record_filtering: StoreInserts::Unfiltered,
            provider_record_ttl: Some(172800),
            provider_publication_interval: Some(43200),
            kbucket_inserts: BucketInserts::OnConnected,
            periodic_bootstrap_interval: Some(300),
            automatic_bootstrap_throttle: Some(1),
        }
    }

    /// The default configuration: buckets of 20, three requests in flight, a
    /// minute per query and ten seconds per request.
    pub fn new() -> (c: Self)
        ensures
            c == Config::standard(),
            c.valid(),
    {
        Config {
            query_config: QueryConfig {
                timeout: 60,
                replication_factor: 20,
                parallelism: 3,
                disjoint_query_paths: false,
                peer_timeout: 10,
            },
            kbucket_pending_timeout: 60,
            record_ttl: Some(172800),
            record_replication_interval: Some(3600),
            record_publication_interval: Some(79200),
            record_filtering: StoreInserts::Unfiltered,
            provider_record_ttl: Some(172800),
            provider_publication_interval: Some(43200),
            kbucket_inserts: BucketInserts::OnConnected,
            periodic_bootstrap_interval: Some(300),
            automatic_bootstrap_throttle: Some(1),
        }
    }

    /// Sets the number of peers that a record is replicated to.
    pub fn set_replication_factor(&mut self, replication_factor: usize)
        requires
            1 <= replication_factor <= K_VALUE,
        ensures
            *final(self) == (Config {
                query_config: QueryConfig { replication_factor, ..old(self).query_config },
                ..*old(self)
            }),
    {
        self.query_config.replication_factor = replication_factor;
    }

    /// Sets the number of requests of a query in flight at a time.
    pub fn set_parallelism(&mut self, parallelism: usize)
        requires
            1 <= parallelism <= K_VALUE,
        ensures
            *final(self) == (Config {
                query_config: QueryConfig { parallelism, ..old(self).query_config },
                ..*old(self)
            }),
    {
        self.query_config.parallelism = parallelism;
    }

    /// Sets the time after which a query is ended.
    pub fn set_query_timeout(&mut self, timeout: u64)
        ensures
            *final(self) == (Config {
                query_config: QueryConfig { timeout, ..old(self).query_config },
                ..*old(self)
            }),
    {
        self.query_config.timeout = timeout;
    }

    /// Lets lookups run over disjoint paths, or over one.
    pub fn disjoint_query_paths(&mut self, enabled: bool)
        ensures
            *final(self) == (Config {
                query_config: QueryConfig {
                    disjoint_query_paths: enabled,
                    ..old(self).query_config
                },
                ..*old(self)
            }),
    {
        self.query_config.disjoint_query_paths = enabled;
    }

    /// Sets how records of other peers enter the store.
    pub fn set_record_filtering(&mut self, filtering: StoreInserts)
        ensures
            *final(self) == (Config { record_filtering: filtering, ..*old(self) }),
    {
        self.record_filtering = filtering;
    }

    /// Sets how peers enter the routing table.
    pub fn set_kbucket_inserts(&mut self, inserts: BucketInserts)
        ensures
            *final(self) == (Config { kbucket_inserts: inserts, ..*old(self) }),
    {
        self.kbucket_inserts = inserts;
    }

    /// Sets the interval of the periodic bootstrap; none switches it off.
    pub fn set_periodic_bootstrap_interval(&mut self, interval: Option<u64>)
        ensures
            *final(self) == (Config { periodic_bootstrap_interval: interval, ..*old(self) }),
    {
        self.periodic_bootstrap_interval = interval;
    }

    /// Sets the shortest time between two bootstraps that new peers set off;
    /// none switches them off.
    pub fn set_automatic_bootstrap_throttle(&mut self, throttle: Option<u64>)
        ensures
            *final(self) == (Config { automatic_bootstrap_throttle: throttle, ..*old(self) }),
    {
        self.automatic_bootstrap_throttle = throttle;
    }
}

} // verus!
