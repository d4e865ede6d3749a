//! The core of a Kademlia distributed hash table.
//!
//! The leaves are the XOR keyspace (`key`, `peer`), the k-buckets and the
//! routing table (`bucket`, `table`), and the stores of records and of
//! providers (`record`, `store`, `providers`). On them stand the peer
//! iterators that drive a lookup (`closest_peers`, `fixed_peers`,
//! `disjoint_peers`), the pool of queries (`query`, `pool`), the periodic
//! jobs (`jobs`, `bootstrap`) and the handler of a connection (`handler`).
//! The `behaviour` owns all of them: it takes what the network and the user
//! hand it, and says what to send and what to report. Beside them stand the
//! steps by which a connection is made ready for the protocol: its
//! authentication and multiplexing (`upgrade`), and the choice between two
//! multiplexers (`select`).
//!
//! The library does no input or output, and reads no clock: the time is an
//! argument, in seconds, and messages are values. Every function carries a
//! contract over a mathematical model of its data, and every contract is
//! proved, but for the few calls into the `sha2` and `rand` crates, whose
//! doc comments say what is taken on trust.

pub mod addresses;
pub mod behaviour;
pub mod bootstrap;
pub mod bucket;
pub mod bytes;
pub mod candidates;
pub mod closest_peers;
pub mod config;
pub mod disjoint_peers;
pub mod event;
pub mod fixed_peers;
pub mod handler;
pub mod jobs;
pub mod key;
pub mod message;
pub mod nearest;
pub mod peer;
pub mod pool;
pub mod progress;
pub mod providers;
pub mod query;
pub mod random;
pub mod record;
pub mod select;
pub mod serve;
pub mod store;
pub mod table;
pub mod upgrade;
