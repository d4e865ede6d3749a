//! The record store: a bounded map from keys to records, held in memory.

use crate::bytes::bytes_eq;
use crate::record::{expired_at, Record, RecordView};
use vstd::prelude::*;

verus! {

/// Why a store refused a record or a provider.
#[derive(Clone, Copy, Debug, PartialEq, Eq, Structural)]
pub enum StoreError {
    /// The store holds as many records as it may.
    MaxRecords,
    /// The store holds providers for as many keys as it may.
    MaxProvidedKeys,
    /// The value of the record is too large.
    ValueTooLarge,
}

/// The limits of a store.
#[derive(Clone, Copy, Debug, PartialEq, Eq)]
pub struct MemoryStoreConfig {
    /// The largest number of records.
    pub max_records: usize,
    /// The size in bytes from which on a value is too large.
    pub max_value_bytes: usize,
    /// The largest number of providers kept for a key.
    pub max_providers_per_key: usize,
    /// The largest number of keys for which providers are kept.
    pub max_provided_keys: usize,
}

impl Default for MemoryStoreConfig {
    fn default() -> (c: Self)
        ensures
            c.max_records == 1024,
            c.max_value_bytes == 65 * 1024,
            c.max_providers_per_key == 20,
            c.max_provided_keys == 1024,
    {
        MemoryStoreConfig {
            max_records: 1024,
            max_value_bytes: 65 * 1024,
            max_providers_per_key: 20,
            max_provided_keys: 1024,
        }
    }
}

/// Position `i` holds the record with key `key`.
pub open spec fn record_at(s: Seq<Record>, key: Seq<u8>, i: int) -> bool {
    0 <= i < s.len() && s[i].key@ == key
}

/// No two records have the same key.
pub open spec fn distinct_records(s: Seq<Record>) -> bool {
    forall|i: int, j: int|
        0 <= i < s.len() && 0 <= j < s.len() && i != j ==> (#[trigger] s[i]).key@ != (
        #[trigger] s[j]).key@
}

/// The records of `s` by key.
pub open spec fn record_map(s: Seq<Record>) -> Map<Seq<u8>, RecordView> {
    Map::new(
        |k: Seq<u8>| exists|i: int| record_at(s, k, i),
        |k: Seq<u8>| s[choose|i: int| record_at(s, k, i)]@,
    )
}

/// Where distinct records hold `key` at position `i`, the map has that record
/// under `key`.
pub proof fn lemma_record_map_at(s: Seq<Record>, key: Seq<u8>, i: int)
    requires
        distinct_records(s),
        record_at(s, key, i),
    ensures
        record_map(s).dom().contains(key),
        record_map(s)[key] == s[i]@,
{
    let j = choose|j: int| record_at(s, key, j);
    assert(j == i);
}

/// What `put` answers for a record, given the records held and the limits.
pub open spec fn put_result(
    held: Map<Seq<u8>, RecordView>,
    len: nat,
    config: MemoryStoreConfig,
    record: RecordView,
) -> Result<(), StoreError> {
    if record.value.len() >= config.max_value_bytes {
        Err(StoreError::ValueTooLarge)
    } else if !held.dom().contains(record.key) && len >= config.max_records {
        Err(StoreError::MaxRecords)
    } else {
        Ok(())
    }
}

/// A record that was put with success is the record that is read back under
/// its key: key, value, publisher and expiry are as they were given.
pub proof fn lemma_put_then_get(
    held: Map<Seq<u8>, RecordView>,
    len: nat,
    config: MemoryStoreConfig,
    record: RecordView,
)
    requires
        put_result(held, len, config, record) is Ok,
    ensures
        held.insert(record.key, record).dom().contains(record.key),
        held.insert(record.key, record)[record.key] == record,
        held.insert(record.key, record)[record.key].value == record.value,
        held.insert(record.key, record)[record.key].publisher == record.publisher,
        held.insert(record.key, record)[record.key].expires == record.expires,
{
}

/// A store of records in memory.
#[derive(Debug)]
pub struct RecordStore {
    config: MemoryStoreConfig,
    records: Vec<Record>,
}

/// What a record store holds.
pub struct RecordStoreView {
    /// The records by their keys.
    pub records: Map<Seq<u8>, RecordView>,
    /// The limits of the store.
    pub config: MemoryStoreConfig,
}

impl View for RecordStore {
    type V = RecordStoreView;

    closed spec fn view(&self) -> RecordStoreView {
        RecordStoreView { records: record_map(self.records@), config: self.config }
    }
}

impl RecordStore {
    /// The limits of the store.
    pub open spec fn config(self) -> MemoryStoreConfig {
        self@.config
    }

    /// The number of records held.
    pub closed spec fn spec_len(self) -> nat {
        self.records@.len()
    }

    /// The records in the order in which their keys were first put.
    pub closed spec fn in_order(self) -> Seq<Record> {
        self.records@
    }

    /// No key is held twice and the number of records is within the limit.
    pub closed spec fn wf(self) -> bool {
        &&& distinct_records(self.records@)
        &&& self.records@.len() <= self.config.max_records
    }

    /// A store never holds more records than its limit, and what it holds by
    /// key is what it holds in order.
    pub proof fn lemma_bounded(self)
        requires
            self.wf(),
        ensures
            self.spec_len() <= self.config().max_records,
            self.in_order().len() == self.spec_len(),
            distinct_records(self.in_order()),
            self@.records == record_map(self.in_order()),
    {
    }

    /// An empty store with the given limits.
    pub fn new(config: MemoryStoreConfig) -> (s: RecordStore)
        ensures
            s.wf(),
            s.config() == config,
            s@.records == Map::<Seq<u8>, RecordView>::empty(),
            s.spec_len() == 0,
    {
        let s = RecordStore { config, records: Vec::new() };
        assert(s@.records =~= Map::<Seq<u8>, RecordView>::empty());
        s
    }

    /// The position of the record with key `key`.
    fn position(&self, key: &[u8]) -> (r: Option<usize>)
        ensures
            r is Some ==> record_at(self.records@, key@, r->0 as int),
            r is None ==> forall|i: int| !record_at(self.records@, key@, i),
    {
        let n = self.records.len();
        let mut i: usize = 0;
        while i < n
            invariant
                0 <= i <= n,
                n == self.records@.len(),
                forall|j: int| 0 <= j < i ==> !record_at(self.records@, key@, j),
            decreases n - i,
        {
            if bytes_eq(self.records[i].key.as_slice(), key) {
                return Some(i);
            }
            i += 1;
        }
        None
    }

    /// The number of records held.
    pub fn len(&self) -> (n: usize)
        ensures
            n == self.spec_len(),
    {
        self.records.len()
    }

    /// The record at position `i` of the order in which keys were first put.
    pub fn record(&self, i: usize) -> (r: &Record)
        requires
            i < self.spec_len(),
        ensures
            *r == self.in_order()[i as int],
    {
        &self.records[i]
    }

    /// The record that is held under `key`, whatever its expiry.
    pub fn peek(&self, key: &[u8]) -> (r: Option<&Record>)
        requires
            self.wf(),
        ensures
            r is Some <==> self@.records.dom().contains(key@),
            r is Some ==> r->0@ == self@.records[key@],
    {
        match self.position(key) {
            Some(i) => {
                proof {
                    lemma_record_map_at(self.records@, key@, i as int);
                }
                Some(&self.records[i])
            },
            None => None,
        }
    }

    /// The record under `key`, if the store holds one that has not expired
    /// at `now`.
    pub fn get(&self, key: &[u8], now: u64) -> (r: Option<&Record>)
        requires
            self.wf(),
        ensures
            r is Some <==> self@.records.dom().contains(key@) && !expired_at(
                self@.records[key@].expires,
                now,
            ),
            r is Some ==> r->0@ == self@.records[key@],
    {
        match self.peek(key) {
            Some(record) => if record.is_expired(now) {
                None
            } else {
                Some(record)
            },
            None => None,
        }
    }

    /// Puts a record under its key, in place of the record held under that
    /// key if there is one. A value that is too large is refused, and so is a
    /// new key when the store is full; the store is then unchanged.
    pub fn put(&mut self, record: Record) -> (r: Result<(), StoreError>)
        requires
            old(self).wf(),
        ensures
            final(self).wf(),
            final(self).config() == old(self).config(),
            r == put_result(old(self)@.records, old(self).spec_len(), old(self).config(), record@),
            r is Ok ==> final(self)@.records == old(self)@.records.insert(record@.key, record@),
            r is Ok ==> final(self).spec_len()
                == if old(self)@.records.dom().contains(record@.key) {
                old(self).spec_len()
            } else {
                old(self).spec_len() + 1
            },
            r is Err ==> final(self)@.records == old(self)@.records
                && final(self).spec_len() == old(self).spec_len(),
    {
        let ghost before = self.records@;
        if record.value.len() >= self.config.max_value_bytes {
            return Err(StoreError::ValueTooLarge);
        }
        match self.position(record.key.as_slice()) {
            Some(i) => {
                proof {
                    lemma_record_map_at(before, record@.key, i as int);
                }
                self.records.set(i, record);
                proof {
                    let after = self.records@;
                    assert forall|a: int, b: int|
                        0 <= a < after.len() && 0 <= b < after.len() && a != b implies (
                    #[trigger] after[a]).key@ != (#[trigger] after[b]).key@ by {
                        assert(after[a].key@ == before[a].key@);
                        assert(after[b].key@ == before[b].key@);
                    }
                    lemma_map_after_set(before, after, i as int, record);
                }
                Ok(())
            },
            None => {
                if self.records.len() >= self.config.max_records {
                    return Err(StoreError::MaxRecords);
                }
                self.records.push(record);
                proof {
                    let after = self.records@;
                    assert forall|a: int, b: int|
                        0 <= a < after.len() && 0 <= b < after.len() && a != b implies (
                    #[trigger] after[a]).key@ != (#[trigger] after[b]).key@ by {
                        if a < before.len() {
                            assert(after[a] == before[a]);
                            assert(!record_at(before, record@.key, a));
                        }
                        if b < before.len() {
                            assert(after[b] == before[b]);
                            assert(!record_at(before, record@.key, b));
                        }
                    }
                    lemma_map_after_push(before, after, record);
                }
                Ok(())
            },
        }
    }

    /// Removes the record under `key`, if the store holds one.
    pub fn remove(&mut self, key: &[u8])
        requires
            old(self).wf(),
        ensures
            final(self).wf(),
            final(self).config() == old(self).config(),
            final(self)@.records == old(self)@.records.remove(key@),
            final(self).spec_len() == if old(self)@.records.dom().contains(key@) {
                old(self).spec_len() - 1
            } else {
                old(self).spec_len() as int
            },
    {
        let ghost before = self.records@;
        match self.position(key) {
            Some(i) => {
                proof {
                    lemma_record_map_at(before, key@, i as int);
                }
                self.records.remove(i);
                proof {
                    lemma_map_after_remove(before, self.records@, i as int);
                }
            },
            None => {
                assert(self@.records =~= self@.records.remove(key@));
            },
        }
    }

    /// Removes the records that have expired at `now`. Returns how many were removed.
    pub fn remove_expired(&mut self, now: u64) -> (n: usize)
        requires
            old(self).wf(),
        ensures
            final(self).wf(),
            final(self).config() == old(self).config(),
            final(self).spec_len() + n == old(self).spec_len(),
            forall|k: Seq<u8>|
                #![trigger final(self)@.records.dom().contains(k)]
                final(self)@.records.dom().contains(k) <==> (old(self)@.records.dom().contains(k)
                    && !expired_at(
                    old(self)@.records[k].expires,
                    now,
                )),
            forall|k: Seq<u8>|
                #![trigger final(self)@.records[k]]
                final(self)@.records.dom().contains(k) ==> final(self)@.records[k]
                    == old(self)@.records[k],
    {
        let ghost start = self.records@;
        let mut removed: usize = 0;
        let mut i: usize = 0;
        while i < self.records.len()
            invariant
                0 <= i <= self.records@.len(),
                self.config == old(self).config,
                distinct_records(self.records@),
                distinct_records(start),
                self.records@.len() + removed == start.len(),
                start.len() <= self.config.max_records,
                forall|j: int|
                    0 <= j < i ==> !expired_at((#[trigger] self.records@[j]).expires, now),
                forall|j: int|
                    0 <= j < self.records@.len() ==> start.contains(#[trigger] self.records@[j]),
                forall|j: int|
                    0 <= j < start.len() && !expired_at((#[trigger] start[j]).expires, now)
                        ==> self.records@.contains(start[j]),
            decreases self.records@.len() - i,
        {
            if self.records[i].is_expired(now) {
                let ghost prev = self.records@;
                self.records.remove(i);
                removed += 1;
                proof {
                    let cur = self.records@;
                    assert forall|a: int, b: int|
                        0 <= a < cur.len() && 0 <= b < cur.len() && a != b implies (
                    #[trigger] cur[a]).key@ != (#[trigger] cur[b]).key@ by {
                        let a2 = if a < i { a } else { a + 1 };
                        let b2 = if b < i { b } else { b + 1 };
                        assert(cur[a] == prev[a2]);
                        assert(cur[b] == prev[b2]);
                    }
                    assert forall|j: int| 0 <= j < cur.len() implies start.contains(
                        #[trigger] cur[j],
                    ) by {
                        let j2 = if j < i { j } else { j + 1 };
                        assert(cur[j] == prev[j2]);
                    }
                    assert forall|j: int| 0 <= j < i implies !expired_at(
                        (#[trigger] cur[j]).expires,
                        now,
                    ) by {
                        assert(cur[j] == prev[j]);
                    }
                    assert forall|j: int|
                        0 <= j < start.len() && !expired_at(
                            (#[trigger] start[j]).expires,
                            now,
                        ) implies cur.contains(start[j]) by {
                        let w = choose|w: int| 0 <= w < prev.len() && prev[w] == start[j];
                        assert(w != i);
                        let w2 = if w < i { w } else { w - 1 };
                        assert(cur[w2] == prev[w]);
                    }
                }
            } else {
                i += 1;
            }
        }
        proof {
            let cur = self.records@;
            assert forall|k: Seq<u8>|
                #![trigger record_map(cur).dom().contains(k)]
                record_map(cur).dom().contains(k) <==> (record_map(start).dom().contains(k)
                    && !expired_at(record_map(start)[k].expires, now)) by {
                if record_map(cur).dom().contains(k) {
                    let a = choose|a: int| record_at(cur, k, a);
                    let b = choose|b: int| 0 <= b < start.len() && start[b] == cur[a];
                    assert(record_at(start, k, b));
                    lemma_record_map_at(start, k, b);
                }
                if record_map(start).dom().contains(k) && !expired_at(
                    record_map(start)[k].expires,
                    now,
                ) {
                    let b = choose|b: int| record_at(start, k, b);
                    lemma_record_map_at(start, k, b);
                    assert(cur.contains(start[b]));
                    let a = choose|a: int| 0 <= a < cur.len() && cur[a] == start[b];
                    assert(record_at(cur, k, a));
                }
            }
            assert forall|k: Seq<u8>|
                #![trigger record_map(cur)[k]]
                record_map(cur).dom().contains(k) implies record_map(cur)[k] == record_map(
                start,
            )[k] by {
                let a = choose|a: int| record_at(cur, k, a);
                lemma_record_map_at(cur, k, a);
                let b = choose|b: int| 0 <= b < start.len() && start[b] == cur[a];
                assert(record_at(start, k, b));
                lemma_record_map_at(start, k, b);
            }
        }
        removed
    }
}

/// The map of a list in which one record was replaced by a record with the
/// same key.
proof fn lemma_map_after_set(before: Seq<Record>, after: Seq<Record>, i: int, record: Record)
    requires
        distinct_records(before),
        distinct_records(after),
        record_at(before, record@.key, i),
        after == before.update(i, record),
    ensures
        record_map(after) == record_map(before).insert(record@.key, record@),
{
    let a = record_map(after);
    let b = record_map(before).insert(record@.key, record@);
    assert forall|k: Seq<u8>| a.dom().contains(k) <==> b.dom().contains(k) by {
        if a.dom().contains(k) {
            let w = choose|w: int| record_at(after, k, w);
            if w != i {
                assert(after[w] == before[w]);
                assert(record_at(before, k, w));
            }
        }
        if b.dom().contains(k) && k != record@.key {
            let w = choose|w: int| record_at(before, k, w);
            assert(after[w] == before[w]);
            assert(record_at(after, k, w));
        }
        if k == record@.key {
            assert(record_at(after, k, i));
        }
    }
    assert forall|k: Seq<u8>| a.dom().contains(k) implies a[k] == b[k] by {
        let w = choose|w: int| record_at(after, k, w);
        lemma_record_map_at(after, k, w);
        if w != i {
            assert(after[w] == before[w]);
            assert(record_at(before, k, w));
            lemma_record_map_at(before, k, w);
        }
    }
    assert(a =~= b);
}

/// The map of a list to which a record with a new key was added.
proof fn lemma_map_after_push(before: Seq<Record>, after: Seq<Record>, record: Record)
    requires
        distinct_records(before),
        distinct_records(after),
        forall|i: int| !record_at(before, record@.key, i),
        after == before.push(record),
    ensures
        record_map(after) == record_map(before).insert(record@.key, record@),
{
    let a = record_map(after);
    let b = record_map(before).insert(record@.key, record@);
    let n = before.len() as int;
    assert forall|k: Seq<u8>| a.dom().contains(k) <==> b.dom().contains(k) by {
        if a.dom().contains(k) {
            let w = choose|w: int| record_at(after, k, w);
            if w < n {
                assert(after[w] == before[w]);
                assert(record_at(before, k, w));
            }
        }
        if b.dom().contains(k) && k != record@.key {
            let w = choose|w: int| record_at(before, k, w);
            assert(after[w] == before[w]);
            assert(record_at(after, k, w));
        }
        if k == record@.key {
            assert(record_at(after, k, n));
        }
    }
    assert forall|k: Seq<u8>| a.dom().contains(k) implies a[k] == b[k] by {
        let w = choose|w: int| record_at(after, k, w);
        lemma_record_map_at(after, k, w);
        if w < n {
            assert(after[w] == before[w]);
            assert(record_at(before, k, w));
            lemma_record_map_at(before, k, w);
        }
    }
    assert(a =~= b);
}

/// The map of a list from which one record was taken.
proof fn lemma_map_after_remove(before: Seq<Record>, after: Seq<Record>, i: int)
    requires
        distinct_records(before),
        0 <= i < before.len(),
        after == before.remove(i),
    ensures
        distinct_records(after),
        record_map(after) == record_map(before).remove(before[i].key@),
{
    assert forall|a: int, b: int| 0 <= a < after.len() && 0 <= b < after.len() && a != b implies (
    #[trigger] after[a]).key@ != (#[trigger] after[b]).key@ by {
        let a2 = if a < i { a } else { a + 1 };
        let b2 = if b < i { b } else { b + 1 };
        assert(after[a] == before[a2]);
        assert(after[b] == before[b2]);
    }
    let a = record_map(after);
    let b = record_map(before).remove(before[i].key@);
    assert forall|k: Seq<u8>| a.dom().contains(k) <==> b.dom().contains(k) by {
        if a.dom().contains(k) {
            let w = choose|w: int| record_at(after, k, w);
            let w2 = if w < i { w } else { w + 1 };
            assert(after[w] == before[w2]);
            assert(record_at(before, k, w2));
        }
        if b.dom().contains(k) {
            let w = choose|w: int| record_at(before, k, w);
            assert(w != i);
            let w2 = if w < i { w } else { w - 1 };
            assert(after[w2] == before[w]);
            assert(record_at(after, k, w2));
        }
    }
    assert forall|k: Seq<u8>| a.dom().contains(k) implies a[k] == b[k] by {
        let w = choose|w: int| record_at(after, k, w);
        lemma_record_map_at(after, k, w);
        let w2 = if w < i { w } else { w + 1 };
        assert(after[w] == before[w2]);
        assert(record_at(before, k, w2));
        lemma_record_map_at(before, k, w2);
    }
    assert(a =~= b);
}

} // verus!
