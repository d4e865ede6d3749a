//! Records and provider records.

use crate::bytes::{bytes_copy, list_copy, views};
use crate::peer::PeerId;
use vstd::prelude::*;

verus! {

/// A record stored in the table: a value under a key.
#[derive(Clone, Debug, PartialEq, Eq, Hash)]
pub struct Record {
    /// The key of the record.
    pub key: Vec<u8>,
    /// The value of the record.
    pub value: Vec<u8>,
    /// The peer that published the record, if known.
    pub publisher: Option<PeerId>,
    /// The time at which the record expires, if it does.
    pub expires: Option<u64>,
}

/// What a record holds.
pub struct RecordView {
    pub key: Seq<u8>,
    pub value: Seq<u8>,
    pub publisher: Option<PeerId>,
    pub expires: Option<u64>,
}

impl View for Record {
    type V = RecordView;

    open spec fn view(&self) -> RecordView {
        RecordView {
            key: self.key@,
            value: self.value@,
            publisher: self.publisher,
            expires: self.expires,
        }
    }
}

/// Whether something that expires at `expires` has expired at `now`.
pub open spec fn expired_at(expires: Option<u64>, now: u64) -> bool {
    expires is Some && now >= expires->0
}

impl Record {
    /// A record without publisher and without expiry.
    pub fn new(key: Vec<u8>, value: Vec<u8>) -> (r: Record)
        ensures
            r@ == (RecordView { key: key@, value: value@, publisher: None, expires: None }),
    {
        Record { key, value, publisher: None, expires: None }
    }

    /// Whether the record has expired at `now`.
    pub fn is_expired(&self, now: u64) -> (r: bool)
        ensures
            r == expired_at(self.expires, now),
    {
        match self.expires {
            Some(t) => now >= t,
            None => false,
        }
    }

    /// A copy of the record.
    pub fn duplicate(&self) -> (r: Record)
        ensures
            r@ == self@,
    {
        Record {
            key: bytes_copy(self.key.as_slice()),
            value: bytes_copy(self.value.as_slice()),
            publisher: self.publisher,
            expires: self.expires,
        }
    }
}

/// The statement that a peer can provide the value for a key.
#[derive(Clone, Debug, PartialEq, Eq, Hash)]
pub struct ProviderRecord {
    /// The key whose value the provider has.
    pub key: Vec<u8>,
    /// The provider.
    pub provider: PeerId,
    /// The time at which the statement expires, if it does.
    pub expires: Option<u64>,
    /// The addresses of the provider, in their canonical bytes.
    pub addresses: Vec<Vec<u8>>,
}

/// What a provider record holds.
pub struct ProviderRecordView {
    pub key: Seq<u8>,
    pub provider: PeerId,
    pub expires: Option<u64>,
    pub addresses: Seq<Seq<u8>>,
}

impl View for ProviderRecord {
    type V = ProviderRecordView;

    open spec fn view(&self) -> ProviderRecordView {
        ProviderRecordView {
            key: self.key@,
            provider: self.provider,
            expires: self.expires,
            addresses: views(self.addresses@),
        }
    }
}

impl ProviderRecord {
    /// A provider record without expiry.
    pub fn new(key: Vec<u8>, provider: PeerId, addresses: Vec<Vec<u8>>) -> (r: ProviderRecord)
        ensures
            r@ == (ProviderRecordView {
                key: key@,
                provider,
                expires: None,
                addresses: views(addresses@),
            }),
    {
        ProviderRecord { key, provider, expires: None, addresses }
    }

    /// Whether the record has expired at `now`.
    pub fn is_expired(&self, now: u64) -> (r: bool)
        ensures
            r == expired_at(self.expires, now),
    {
        match self.expires {
            Some(t) => now >= t,
            None => false,
        }
    }

    /// A copy of the record.
    pub fn duplicate(&self) -> (r: ProviderRecord)
        ensures
            r@ == self@,
    {
        ProviderRecord {
            key: bytes_copy(self.key.as_slice()),
            provider: self.provider,
            expires: self.expires,
            addresses: list_copy(&self.addresses),
        }
    }
}

/// A time to live of `ttl` seconds halved `exp` times; zero from 64 halvings on.
pub open spec fn exp_decreased(ttl: u64, exp: u32) -> u64 {
    if exp >= 64 {
        0
    } else {
        ttl >> exp
    }
}

/// Shortens a time to live exponentially: `ttl` seconds are halved `exp`
/// times. No number of halvings overflows; from 64 on the result is zero.
pub fn exp_decrease(ttl: u64, exp: u32) -> (r: u64)
    ensures
        r == exp_decreased(ttl, exp),
        r <= ttl,
        exp >= 64 ==> r == 0,
{
    if exp >= 64 {
        0
    } else {
        let r = ttl >> exp;
        assert(ttl >> exp <= ttl) by (bit_vector);
        r
    }
}

} // verus!
