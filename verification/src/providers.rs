//! The provider store: for each key, the peers that can provide its value.
//!
//! For every key the store keeps a bounded list of provider records, ordered
//! by the distance of the provider from the local key. When the list is full,
//! a new provider enters only if it is closer than the farthest one, which
//! then leaves.

use crate::bytes::bytes_eq;
use crate::key::{distance, Key};
use crate::nearest::{has_key, offer, offered, sorted, Entry, Offer, Peer};
use crate::record::{expired_at, ProviderRecord, ProviderRecordView};
use crate::store::{MemoryStoreConfig, StoreError};
use vstd::prelude::*;

verus! {

/// A provider with its record.
pub type Provider = Entry<ProviderRecord>;

/// The providers of one key.
#[derive(Debug)]
pub struct ProviderSet {
    pub key: Vec<u8>,
    pub providers: Vec<Provider>,
}

/// Position `i` holds the providers of `key`.
pub open spec fn set_at(s: Seq<ProviderSet>, key: Seq<u8>, i: int) -> bool {
    0 <= i < s.len() && s[i].key@ == key
}

/// The entry belongs to a list of providers of `key`: it is the entry of its
/// record's provider, at the provider's place in the keyspace.
pub open spec fn provider_entry(e: Provider, key: Seq<u8>) -> bool {
    &&& e.data.key@ == key
    &&& e.peer.id == e.data.provider
    &&& e.peer.key@ == e.data.provider.spec_key()
}

/// The providers of one key are in order: there is one, they are within the
/// limit, sorted by their distance from the local key, and each belongs to
/// the key.
pub open spec fn set_wf(set: ProviderSet, local: Key, limit: usize) -> bool {
    &&& 1 <= set.providers@.len() <= limit
    &&& sorted(set.providers@, local)
    &&& forall|i: int|
        0 <= i < set.providers@.len() ==> provider_entry(#[trigger] set.providers@[i], set.key@)
}

/// How the list of providers of a key changes when `entry` is added to it
/// with outcome `o`: a provider that is in the list has its record replaced,
/// and any other is offered to the list.
pub open spec fn provided(
    before: Seq<Provider>,
    after: Seq<Provider>,
    local: Key,
    limit: nat,
    entry: Provider,
    o: Offer,
) -> bool {
    match o {
        Offer::Known(i) => {
            &&& i < before.len()
            &&& before[i as int].peer.key == entry.peer.key
            &&& after == before.update(i as int, entry)
        },
        _ => offered(before, after, local, limit, entry, o),
    }
}

/// Adding the provider record `record` leads from the store `before` to the
/// store `after` with answer `r`: a new key is refused when the store has
/// providers for as many keys as it may; otherwise the list of the key
/// changes as `provided` says, and no other list changes.
pub open spec fn adds(
    before: ProviderStore,
    record: ProviderRecord,
    after: ProviderStore,
    r: Result<(), StoreError>,
) -> bool {
    &&& after.local_key() == before.local_key()
    &&& after.config() == before.config()
    &&& r is Err <==> !before.has(record.key@) && before.sets().len()
        >= before.config().max_provided_keys
    &&& r is Err ==> r == Err::<(), StoreError>(StoreError::MaxProvidedKeys) && after.sets()
        == before.sets()
    &&& r is Ok ==> exists|o: Offer, place: Key|
        #![trigger provided(before.providers_of(record.key@), after.providers_of(record.key@), before.local_key(), before.config().max_providers_per_key as nat, Entry { peer: Peer { id: record.provider, key: place }, data: record }, o)]
        place@ == record.provider.spec_key() && provided(
            before.providers_of(record.key@),
            after.providers_of(record.key@),
            before.local_key(),
            before.config().max_providers_per_key as nat,
            Entry { peer: Peer { id: record.provider, key: place }, data: record },
            o,
        )
    &&& r is Ok ==> forall|k: Seq<u8>|
        k != record.key@ ==> #[trigger] after.providers_of(k) == before.providers_of(k)
}

/// A store that took a provider record as `provided` says, with outcome
/// `o`, has added it.
proof fn lemma_added(
    before: ProviderStore,
    record: ProviderRecord,
    after: ProviderStore,
    o: Offer,
    place: Key,
)
    requires
        after.local_key() == before.local_key(),
        after.config() == before.config(),
        before.has(record.key@) || before.sets().len() < before.config().max_provided_keys,
        place@ == record.provider.spec_key(),
        provided(
            before.providers_of(record.key@),
            after.providers_of(record.key@),
            before.local_key(),
            before.config().max_providers_per_key as nat,
            Entry { peer: Peer { id: record.provider, key: place }, data: record },
            o,
        ),
        forall|k: Seq<u8>|
            k != record.key@ ==> #[trigger] after.providers_of(k) == before.providers_of(k),
    ensures
        adds(before, record, after, Ok(())),
{
}

/// The store `after` is the store `before` after it was asked to add a
/// provider record that holds `record`, with answer `r`.
pub open spec fn added(
    before: ProviderStore,
    record: ProviderRecordView,
    after: ProviderStore,
    r: Result<(), StoreError>,
) -> bool {
    exists|full: ProviderRecord| full@ == record && #[trigger] adds(before, full, after, r)
}

/// The store `after` is the store `before` after it was asked to add the
/// provider record `record`, whatever it answered.
pub open spec fn noted(
    before: ProviderStore,
    record: ProviderRecord,
    after: ProviderStore,
) -> bool {
    exists|answer: Result<(), StoreError>| adds(before, record, after, answer)
}

/// The position of the provider at `key` in a list of providers.
pub fn find_provider(list: &Vec<Provider>, key: &Key) -> (r: Option<usize>)
    ensures
        r is Some ==> r->0 < list@.len() && list@[r->0 as int].peer.key == *key,
        r is None ==> !has_key(list@, *key),
{
    let n = list.len();
    let mut i: usize = 0;
    while i < n
        invariant
            0 <= i <= n,
            n == list@.len(),
            forall|j: int| 0 <= j < i ==> (#[trigger] list@[j]).peer.key != *key,
        decreases n - i,
    {
        if list[i].peer.key.same(key) {
            return Some(i);
        }
        i += 1;
    }
    None
}

/// The provider store.
#[derive(Debug)]
pub struct ProviderStore {
    local_key: Key,
    config: MemoryStoreConfig,
    sets: Vec<ProviderSet>,
}

impl ProviderStore {
    /// The key of the local peer, from which distances are taken.
    pub closed spec fn local_key(self) -> Key {
        self.local_key
    }

    /// The limits of the store.
    pub closed spec fn config(self) -> MemoryStoreConfig {
        self.config
    }

    /// The lists of providers, one per key.
    pub closed spec fn sets(self) -> Seq<ProviderSet> {
        self.sets@
    }

    /// Whether the store has providers for `key`.
    pub open spec fn has(self, key: Seq<u8>) -> bool {
        exists|i: int| set_at(self.sets(), key, i)
    }

    /// The providers of `key`, closest to the local key first; none if the
    /// store has none for the key.
    pub open spec fn providers_of(self, key: Seq<u8>) -> Seq<Provider> {
        if self.has(key) {
            self.sets()[choose|i: int| set_at(self.sets(), key, i)].providers@
        } else {
            Seq::empty()
        }
    }

    /// The store has providers for no more keys than it may, for no key
    /// twice, and each list is in order.
    pub open spec fn wf(self) -> bool {
        &&& self.sets().len() <= self.config().max_provided_keys
        &&& forall|i: int, j: int|
            0 <= i < self.sets().len() && 0 <= j < self.sets().len() && i != j ==> (
            #[trigger] self.sets()[i]).key@ != (#[trigger] self.sets()[j]).key@
        &&& forall|i: int|
            0 <= i < self.sets().len() ==> set_wf(
                #[trigger] self.sets()[i],
                self.local_key(),
                self.config().max_providers_per_key,
            )
    }

    /// The list at position `i` is the list of providers of its key.
    pub proof fn lemma_set_at(self, i: int)
        requires
            self.wf(),
            0 <= i < self.sets().len(),
        ensures
            self.has(self.sets()[i].key@),
            self.providers_of(self.sets()[i].key@) == self.sets()[i].providers@,
    {
        let key = self.sets()[i].key@;
        assert(set_at(self.sets(), key, i));
        let j = choose|j: int| set_at(self.sets(), key, j);
        assert(j == i);
    }

    /// The providers of a key are sorted by their distance from the local
    /// key, within the limit, and each is the entry of its record's provider.
    pub proof fn lemma_providers_sorted(self, key: Seq<u8>)
        requires
            self.wf(),
        ensures
            sorted(self.providers_of(key), self.local_key()),
            self.providers_of(key).len() <= self.config().max_providers_per_key,
            forall|i: int|
                0 <= i < self.providers_of(key).len() ==> provider_entry(
                    #[trigger] self.providers_of(key)[i],
                    key,
                ) && self.providers_of(key)[i].peer.key
                    == self.providers_of(key)[i].peer.id.key_of(),
    {
        if self.has(key) {
            let i = choose|i: int| set_at(self.sets(), key, i);
            self.lemma_set_at(i);
            assert(set_wf(self.sets()[i], self.local_key(), self.config().max_providers_per_key));
            assert forall|x: int| 0 <= x < self.providers_of(key).len() implies (
            #[trigger] self.providers_of(key)[x]).peer.key == self.providers_of(
                key,
            )[x].peer.id.key_of() by {
                let e = self.providers_of(key)[x];
                assert(provider_entry(e, key));
                crate::key::lemma_key_ext(e.peer.key, e.peer.id.key_of());
            }
        }
    }

    /// An empty store around `local_key`.
    pub fn new(local_key: Key, config: MemoryStoreConfig) -> (s: ProviderStore)
        ensures
            s.wf(),
            s.local_key() == local_key,
            s.config() == config,
            s.sets().len() == 0,
            forall|k: Seq<u8>| !s.has(k),
    {
        ProviderStore { local_key, config, sets: Vec::new() }
    }

    /// The key of the local peer, from which distances are taken.
    pub fn local(&self) -> (k: Key)
        ensures
            k == self.local_key(),
    {
        self.local_key
    }

    /// The number of keys for which the store has providers.
    pub fn num_keys(&self) -> (n: usize)
        ensures
            n == self.sets().len(),
    {
        self.sets.len()
    }

    /// The position of the list of providers of `key`.
    fn position(&self, key: &[u8]) -> (r: Option<usize>)
        ensures
            r is Some ==> set_at(self.sets(), key@, r->0 as int),
            r is None ==> !self.has(key@),
    {
        let n = self.sets.len();
        let mut i: usize = 0;
        while i < n
            invariant
                0 <= i <= n,
                n == self.sets@.len(),
                forall|j: int| 0 <= j < i ==> !set_at(self.sets@, key@, j),
            decreases n - i,
        {
            if bytes_eq(self.sets[i].key.as_slice(), key) {
                return Some(i);
            }
            i += 1;
        }
        None
    }

    /// Adds a provider record. A new key is refused when the store has
    /// providers for as many keys as it may. The record of a provider that
    /// the key has already takes the place of the old one. Any other provider
    /// enters the list of the key at its distance from the local key, unless
    /// the list is full of closer providers; if the list grows beyond its
    /// limit, the farthest provider leaves. Where a key may have no provider
    /// at all, nothing is taken.
    pub fn add_provider(&mut self, record: ProviderRecord) -> (r: Result<(), StoreError>)
        requires
            old(self).wf(),
        ensures
            final(self).wf(),
            final(self).local_key() == old(self).local_key(),
            final(self).config() == old(self).config(),
            adds(*old(self), record, *final(self), r),
    {
        let ghost before = *self;
        let ghost key = record.key@;
        let limit = self.config.max_providers_per_key;
        let place = record.provider.key();
        match self.position(record.key.as_slice()) {
            Some(i) => {
                proof {
                    before.lemma_set_at(i as int);
                }
                let ghost list0 = self.sets@[i as int].providers@;
                let peer = Peer { id: record.provider, key: place };
                let found = find_provider(&self.sets[i].providers, &place);
                match found {
                    Some(j) => {
                        let entry = Entry { peer, data: record };
                        self.sets[i].providers.set(j, entry);
                        proof {
                            let list1 = self.sets@[i as int].providers@;
                            assert(list1 == list0.update(j as int, entry));
                            assert forall|a: int, b: int| 0 <= a < b < list1.len() implies distance(
                                #[trigger] list1[a].peer.key,
                                self.local_key,
                            ) < distance(#[trigger] list1[b].peer.key, self.local_key) by {
                                assert(list1[a].peer.key == list0[a].peer.key);
                                assert(list1[b].peer.key == list0[b].peer.key);
                            }
                            assert forall|x: int| 0 <= x < list1.len() implies provider_entry(
                                #[trigger] list1[x],
                                key,
                            ) by {
                                if x != j {
                                    assert(list1[x] == list0[x]);
                                }
                            }
                            self.lemma_one_set_changed(before, i as int);
                            assert(provided(
                                before.providers_of(key),
                                self.providers_of(key),
                                self.local_key,
                                limit as nat,
                                entry,
                                Offer::Known(j),
                            ));
                            lemma_added(before, record, *self, Offer::Known(j), place);
                            assert(adds(before, record, *self, Ok(())));
                        }
                        Ok(())
                    },
                    None => {
                        let entry = Entry { peer, data: record };
                        let o = offer(&mut self.sets[i].providers, &self.local_key, limit, entry);
                        proof {
                            let list1 = self.sets@[i as int].providers@;
                            assert(!(o is Known)) by {
                                if let Offer::Known(x) = o {
                                    assert(list0[x as int].peer.key == place);
                                    assert(has_key(list0, place));
                                }
                            }
                            crate::candidates::lemma_offered_members(
                                list0,
                                list1,
                                self.local_key,
                                limit as nat,
                                entry,
                                o,
                            );
                            assert forall|x: int| 0 <= x < list1.len() implies provider_entry(
                                #[trigger] list1[x],
                                key,
                            ) by {
                                if list1[x] != entry {
                                    let y = choose|y: int| 0 <= y < list0.len()
                                        && list0[y] == list1[x];
                                    assert(provider_entry(list0[y], key));
                                }
                            }
                            crate::nearest::lemma_offered_sorted(
                                list0,
                                list1,
                                self.local_key,
                                limit as nat,
                                entry,
                                o,
                            );
                            self.lemma_one_set_changed(before, i as int);
                            assert(provided(
                                before.providers_of(key),
                                self.providers_of(key),
                                self.local_key,
                                limit as nat,
                                entry,
                                o,
                            ));
                            lemma_added(before, record, *self, o, place);
                            assert(adds(before, record, *self, Ok(())));
                        }
                        Ok(())
                    },
                }
            },
            None => {
                if self.sets.len() >= self.config.max_provided_keys {
                    return Err(StoreError::MaxProvidedKeys);
                }
                if limit == 0 {
                    // A key may have no provider: the record is not taken.
                    proof {
                        let none = Seq::<Provider>::empty();
                        let entry = Entry {
                            peer: Peer { id: record.provider, key: place },
                            data: record,
                        };
                        assert(self.providers_of(key) =~= none);
                        assert(offered(none, none, self.local_key, 0, entry, Offer::TooFar));
                        assert(provided(none, none, self.local_key, 0, entry, Offer::TooFar));
                        lemma_added(before, record, *self, Offer::TooFar, place);
                    }
                    return Ok(());
                }
                let key_copy = crate::bytes::bytes_copy(record.key.as_slice());
                let entry = Entry { peer: Peer { id: record.provider, key: place }, data: record };
                let mut providers: Vec<Provider> = Vec::new();
                let o = offer(&mut providers, &self.local_key, limit, entry);
                self.sets.push(ProviderSet { key: key_copy, providers });
                proof {
                    let n = before.sets().len() as int;
                    assert(o == Offer::Inserted(0));
                    assert(providers@ =~= seq![entry]);
                    assert forall|a: int, b: int|
                        0 <= a < self.sets().len() && 0 <= b < self.sets().len() && a != b implies (
                    #[trigger] self.sets()[a]).key@ != (#[trigger] self.sets()[b]).key@ by {
                        if a < n {
                            assert(self.sets()[a] == before.sets()[a]);
                            assert(!set_at(before.sets(), key, a));
                        }
                        if b < n {
                            assert(self.sets()[b] == before.sets()[b]);
                            assert(!set_at(before.sets(), key, b));
                        }
                    }
                    assert forall|a: int| 0 <= a < self.sets().len() implies set_wf(
                        #[trigger] self.sets()[a],
                        self.local_key(),
                        self.config().max_providers_per_key,
                    ) by {
                        if a < n {
                            assert(self.sets()[a] == before.sets()[a]);
                        }
                    }
                    self.lemma_set_at(n);
                    assert(before.providers_of(key) =~= Seq::<Provider>::empty());
                    assert forall|k: Seq<u8>| k != key implies #[trigger] self.providers_of(k)
                        == before.providers_of(k) by {
                        if before.has(k) {
                            let a = choose|a: int| set_at(before.sets(), k, a);
                            assert(self.sets()[a] == before.sets()[a]);
                            before.lemma_set_at(a);
                            self.lemma_set_at(a);
                        } else if self.has(k) {
                            let a = choose|a: int| set_at(self.sets(), k, a);
                            assert(a < n);
                            assert(self.sets()[a] == before.sets()[a]);
                            assert(set_at(before.sets(), k, a));
                        }
                    }
                    assert(provided(
                        before.providers_of(key),
                        self.providers_of(key),
                        self.local_key,
                        limit as nat,
                        entry,
                        o,
                    ));
                    lemma_added(before, record, *self, o, place);
                    assert(adds(before, record, *self, Ok(())));
                }
                Ok(())
            },
        }
    }

    /// A store of which only the list at position `i` changed, its key and
    /// order kept, is in order, and has the providers it had for other keys.
    proof fn lemma_one_set_changed(self, before: ProviderStore, i: int)
        requires
            before.wf(),
            0 <= i < before.sets().len(),
            self.sets().len() == before.sets().len(),
            self.local_key() == before.local_key(),
            self.config() == before.config(),
            self.sets()[i].key@ == before.sets()[i].key@,
            set_wf(self.sets()[i], self.local_key(), self.config().max_providers_per_key),
            forall|j: int|
                0 <= j < before.sets().len() && j != i ==> #[trigger] self.sets()[j]
                    == before.sets()[j],
        ensures
            self.wf(),
            self.providers_of(before.sets()[i].key@) == self.sets()[i].providers@,
            before.providers_of(before.sets()[i].key@) == before.sets()[i].providers@,
            forall|k: Seq<u8>|
                k != before.sets()[i].key@ ==> #[trigger] self.providers_of(k)
                    == before.providers_of(k),
    {
        assert forall|a: int, b: int|
            0 <= a < self.sets().len() && 0 <= b < self.sets().len() && a != b implies (
        #[trigger] self.sets()[a]).key@ != (#[trigger] self.sets()[b]).key@ by {
            assert(self.sets()[a].key@ == before.sets()[a].key@);
            assert(self.sets()[b].key@ == before.sets()[b].key@);
        }
        assert forall|a: int| 0 <= a < self.sets().len() implies set_wf(
            #[trigger] self.sets()[a],
            self.local_key(),
            self.config().max_providers_per_key,
        ) by {
            if a != i {
                assert(self.sets()[a] == before.sets()[a]);
            }
        }
        self.lemma_set_at(i);
        before.lemma_set_at(i);
        assert forall|k: Seq<u8>| k != before.sets()[i].key@ implies #[trigger] self.providers_of(k)
            == before.providers_of(k) by {
            if before.has(k) {
                let a = choose|a: int| set_at(before.sets(), k, a);
                assert(self.sets()[a] == before.sets()[a]);
                before.lemma_set_at(a);
                self.lemma_set_at(a);
            } else if self.has(k) {
                let a = choose|a: int| set_at(self.sets(), k, a);
                assert(self.sets()[a].key@ == before.sets()[a].key@);
                assert(set_at(before.sets(), k, a));
            }
        }
    }

    /// Copies of the provider records of `key`, closest to the local key first.
    pub fn providers(&self, key: &[u8]) -> (r: Vec<ProviderRecord>)
        requires
            self.wf(),
        ensures
            r@.len() == self.providers_of(key@).len(),
            forall|i: int|
                0 <= i < r@.len() ==> (#[trigger] r@[i])@ == self.providers_of(key@)[i].data@,
    {
        let mut out: Vec<ProviderRecord> = Vec::new();
        match self.position(key) {
            None => out,
            Some(i) => {
                proof {
                    self.lemma_set_at(i as int);
                }
                let n = self.sets[i].providers.len();
                let mut j: usize = 0;
                while j < n
                    invariant
                        0 <= j <= n,
                        0 <= i < self.sets@.len(),
                        n == self.sets@[i as int].providers@.len(),
                        out@.len() == j,
                        forall|x: int|
                            0 <= x < j ==> (#[trigger] out@[x])@
                                == self.sets@[i as int].providers@[x].data@,
                    decreases n - j,
                {
                    out.push(self.sets[i].providers[j].data.duplicate());
                    j += 1;
                }
                out
            },
        }
    }

    /// Removes the provider at `provider` from the providers of `key`.
    /// Returns its record, if the key had that provider.
    pub fn remove_provider(&mut self, key: &[u8], provider: &Key) -> (r: Option<ProviderRecord>)
        requires
            old(self).wf(),
        ensures
            final(self).wf(),
            final(self).local_key() == old(self).local_key(),
            final(self).config() == old(self).config(),
            r is Some <==> has_key(old(self).providers_of(key@), *provider),
            r is None ==> final(self).sets() == old(self).sets(),
            r is Some ==> exists|j: int|
                #![trigger old(self).providers_of(key@)[j]]
                0 <= j < old(self).providers_of(key@).len() && old(self).providers_of(
                    key@,
                )[j].peer.key == *provider && r->0 == old(self).providers_of(key@)[j].data
                    && final(self).providers_of(key@) == old(self).providers_of(key@).remove(j),
            forall|k: Seq<u8>|
                k != key@ ==> #[trigger] final(self).providers_of(k) == old(self).providers_of(k),
    {
        let ghost before = *self;
        let i = match self.position(key) {
            None => {
                return None;
            },
            Some(i) => i,
        };
        proof {
            before.lemma_set_at(i as int);
        }
        let ghost list0 = self.sets@[i as int].providers@;
        let n = self.sets[i].providers.len();
        let j = match find_provider(&self.sets[i].providers, provider) {
            None => {
                return None;
            },
            Some(j) => j,
        };
        assert(has_key(list0, *provider)) by {
            assert(list0[j as int].peer.key == *provider);
        }
        if n == 1 {
            let set = self.sets.remove(i);
            let mut providers = set.providers;
            let entry = providers.remove(0);
            proof {
                assert(list0.remove(0) =~= Seq::<Provider>::empty());
                let n0 = before.sets().len() as int;
                assert forall|a: int, b: int|
                    0 <= a < self.sets().len() && 0 <= b < self.sets().len() && a != b implies (
                #[trigger] self.sets()[a]).key@ != (#[trigger] self.sets()[b]).key@ by {
                    let a2 = if a < i { a } else { a + 1 };
                    let b2 = if b < i { b } else { b + 1 };
                    assert(self.sets()[a] == before.sets()[a2]);
                    assert(self.sets()[b] == before.sets()[b2]);
                }
                assert forall|a: int| 0 <= a < self.sets().len() implies set_wf(
                    #[trigger] self.sets()[a],
                    self.local_key(),
                    self.config().max_providers_per_key,
                ) by {
                    let a2 = if a < i { a } else { a + 1 };
                    assert(self.sets()[a] == before.sets()[a2]);
                }
                assert(!self.has(key@)) by {
                    if self.has(key@) {
                        let a = choose|a: int| set_at(self.sets(), key@, a);
                        let a2 = if a < i { a } else { a + 1 };
                        assert(self.sets()[a] == before.sets()[a2]);
                    }
                }
                assert forall|k: Seq<u8>| k != key@ implies #[trigger] self.providers_of(k)
                    == before.providers_of(k) by {
                    if before.has(k) {
                        let a = choose|a: int| set_at(before.sets(), k, a);
                        let a2 = if a < i { a } else { a - 1 };
                        assert(self.sets()[a2] == before.sets()[a]);
                        before.lemma_set_at(a);
                        self.lemma_set_at(a2);
                    } else if self.has(k) {
                        let a = choose|a: int| set_at(self.sets(), k, a);
                        let a2 = if a < i { a } else { a + 1 };
                        assert(self.sets()[a] == before.sets()[a2]);
                        assert(set_at(before.sets(), k, a2));
                    }
                }
            }
            Some(entry.data)
        } else {
            let entry = self.sets[i].providers.remove(j);
            proof {
                let list1 = self.sets@[i as int].providers@;
                assert(list1 == list0.remove(j as int));
                assert forall|a: int, b: int| 0 <= a < b < list1.len() implies distance(
                    #[trigger] list1[a].peer.key,
                    self.local_key,
                ) < distance(#[trigger] list1[b].peer.key, self.local_key) by {
                    let a2 = if a < j { a } else { a + 1 };
                    let b2 = if b < j { b } else { b + 1 };
                    assert(list1[a] == list0[a2]);
                    assert(list1[b] == list0[b2]);
                }
                assert forall|x: int| 0 <= x < list1.len() implies provider_entry(
                    #[trigger] list1[x],
                    key@,
                ) by {
                    let x2 = if x < j { x } else { x + 1 };
                    assert(list1[x] == list0[x2]);
                }
                self.lemma_one_set_changed(before, i as int);
            }
            Some(entry.data)
        }
    }

    /// Whether the record of the provider at place `j` among the providers
    /// of `key` has expired at `now`, and the provider's key; `None` where
    /// the key has no more than `j` providers.
    fn entry_at(&self, key: &[u8], j: usize, now: u64) -> (r: Option<(bool, Key)>)
        requires
            self.wf(),
        ensures
            match r {
                Some((expired, place)) => j < self.providers_of(key@).len() && expired
                    == expired_at(self.providers_of(key@)[j as int].data.expires, now) && place
                    == self.providers_of(key@)[j as int].peer.key,
                None => j >= self.providers_of(key@).len(),
            },
    {
        match self.position(key) {
            None => None,
            Some(i) => {
                proof {
                    self.lemma_set_at(i as int);
                }
                if j < self.sets[i].providers.len() {
                    let entry = &self.sets[i].providers[j];
                    Some((entry.data.is_expired(now), entry.peer.key))
                } else {
                    None
                }
            },
        }
    }

    /// Removes the providers of `key` whose record has expired at `now`.
    /// Returns their number.
    pub fn remove_expired(&mut self, key: &[u8], now: u64) -> (n: usize)
        requires
            old(self).wf(),
        ensures
            final(self).wf(),
            purged(*old(self), key@, now, *final(self)),
            n + final(self).providers_of(key@).len() == old(self).providers_of(key@).len(),
    {
        let ghost list0 = self.providers_of(key@);
        let mut j: usize = 0;
        let mut n: usize = 0;
        let mut next = self.entry_at(key, j, now);
        proof {
            assert(list0.take(0) =~= Seq::empty());
            assert(list0.skip(0) =~= list0);
            assert(self.providers_of(key@).take(0) =~= live(list0.take(0), now));
            self.lemma_providers_sorted(key@);
        }
        while next.is_some()
            invariant
                self.wf(),
                list0.len() <= usize::MAX,
                self.local_key() == old(self).local_key(),
                self.config() == old(self).config(),
                list0 == old(self).providers_of(key@),
                forall|k: Seq<u8>|
                    k != key@ ==> #[trigger] self.providers_of(k) == old(self).providers_of(k),
                j <= self.providers_of(key@).len(),
                j + n <= list0.len(),
                n + self.providers_of(key@).len() == list0.len(),
                self.providers_of(key@).take(j as int) == live(list0.take(j + n), now),
                self.providers_of(key@).skip(j as int) == list0.skip(j + n),
                match next {
                    Some((expired, place)) => j < self.providers_of(key@).len() && expired
                        == expired_at(self.providers_of(key@)[j as int].data.expires, now) && place
                        == self.providers_of(key@)[j as int].peer.key,
                    None => j >= self.providers_of(key@).len(),
                },
            decreases self.providers_of(key@).len() - j,
        {
            let ghost list = self.providers_of(key@);
            let (expired, place) = next.unwrap();
            proof {
                self.lemma_providers_sorted(key@);
                assert(list.skip(j as int)[0] == list0.skip(j + n)[0]);
                assert(list[j as int] == list0[j + n]);
                assert(list0.take(j + n + 1).drop_last() =~= list0.take(j + n));
                assert(list0.take(j + n + 1).last() == list0[j + n]);
            }
            if expired {
                let gone = self.remove_provider(key, &place);
                proof {
                    assert(has_key(list, place));
                    let x = choose|x: int|
                        0 <= x < list.len() && (#[trigger] list[x]).peer.key == place
                            && self.providers_of(key@) == list.remove(x);
                    lemma_same_place(list, self.local_key(), x, j as int);
                    let rest = list.remove(j as int);
                    assert(rest.take(j as int) =~= list.take(j as int));
                    assert(rest.skip(j as int) =~= list.skip(j as int).skip(1));
                    assert(list0.skip(j + n).skip(1) =~= list0.skip(j + n + 1));
                }
                n += 1;
            } else {
                proof {
                    assert(list.take(j + 1) =~= list.take(j as int).push(list[j as int]));
                    assert(list.skip(j + 1) =~= list.skip(j as int).skip(1));
                    assert(list0.skip(j + n).skip(1) =~= list0.skip(j + n + 1));
                }
                j += 1;
            }
            next = self.entry_at(key, j, now);
        }
        proof {
            let list = self.providers_of(key@);
            assert(list.take(j as int) =~= list);
            assert(list.skip(j as int).len() == 0);
            assert(list0.skip(j + n).len() == list0.len() - (j + n));
            assert(list0.take(j + n) =~= list0);
        }
        n
    }

    /// Copies of the records by which the local peer is a provider, in the
    /// order of the keys of the store.
    pub fn provided(&self) -> (r: Vec<ProviderRecord>)
        requires
            self.wf(),
        ensures
            provider_views(r@) == provided_by(self.sets(), self.local_key()),
    {
        let n = self.sets.len();
        let ghost all = self.sets@;
        let ghost local = self.local_key;
        let mut out: Vec<ProviderRecord> = Vec::new();
        let mut i: usize = 0;
        proof {
            assert(provider_views(out@) =~= provided_by(all.take(0), local));
        }
        while i < n
            invariant
                0 <= i <= n,
                n == all.len(),
                all == self.sets@,
                self.wf(),
                local == self.local_key,
                provider_views(out@) == provided_by(all.take(i as int), local),
            decreases n - i,
        {
            proof {
                assert(all.take(i + 1).drop_last() =~= all.take(i as int));
                assert(all.take(i + 1).last() == all[i as int]);
            }
            match find_provider(&self.sets[i].providers, &self.local_key) {
                Some(j) => {
                    let ghost before = out@;
                    let copy = self.sets[i].providers[j].data.duplicate();
                    out.push(copy);
                    proof {
                        let list = all[i as int].providers@;
                        assert(has_key(list, local));
                        assert(provider_views(out@) =~= provider_views(before).push(copy@));
                        assert(set_wf(
                            self.sets()[i as int],
                            local,
                            self.config.max_providers_per_key,
                        ));
                        lemma_one_place(list, local, local, j as int);
                    }
                },
                None => {},
            }
            i += 1;
        }
        assert(all.take(n as int) =~= all);
        out
    }
}

/// The providers of a list whose record has not expired at `now`, in the
/// order of the list.
pub open spec fn live(list: Seq<Provider>, now: u64) -> Seq<Provider>
    decreases list.len(),
{
    if list.len() == 0 {
        Seq::empty()
    } else if expired_at(list.last().data.expires, now) {
        live(list.drop_last(), now)
    } else {
        live(list.drop_last(), now).push(list.last())
    }
}

/// The store `after` is the store `before` without the providers of `key`
/// whose record has expired at `now`.
pub open spec fn purged(
    before: ProviderStore,
    key: Seq<u8>,
    now: u64,
    after: ProviderStore,
) -> bool {
    &&& after.local_key() == before.local_key()
    &&& after.config() == before.config()
    &&& after.providers_of(key) == live(before.providers_of(key), now)
    &&& forall|k: Seq<u8>| k != key ==> #[trigger] after.providers_of(k) == before.providers_of(k)
}

/// In a list sorted by distance no two places hold the same key.
pub proof fn lemma_same_place(list: Seq<Provider>, target: Key, a: int, b: int)
    requires
        sorted(list, target),
        0 <= a < list.len(),
        0 <= b < list.len(),
        list[a].peer.key == list[b].peer.key,
    ensures
        a == b,
{
    if a < b {
        assert(distance(list[a].peer.key, target) < distance(list[b].peer.key, target));
    } else if b < a {
        assert(distance(list[b].peer.key, target) < distance(list[a].peer.key, target));
    }
}

/// The list `after` is the list `before`, but for the provider at `key`,
/// which may have left.
pub open spec fn without_provider(before: Seq<Provider>, key: Key, after: Seq<Provider>) -> bool {
    after == before || exists|j: int|
        0 <= j < before.len() && (#[trigger] before[j]).peer.key == key && after == before.remove(j)
}

/// A sorted list from which the provider at `key` was taken does not hold
/// that key.
pub proof fn lemma_removed_is_gone(list: Seq<Provider>, target: Key, key: Key, j: int)
    requires
        sorted(list, target),
        0 <= j < list.len(),
        list[j].peer.key == key,
    ensures
        !has_key(list.remove(j), key),
{
    let rest = list.remove(j);
    if has_key(rest, key) {
        let w = choose|w: int| 0 <= w < rest.len() && (#[trigger] rest[w]).peer.key == key;
        let w2 = if w < j { w } else { w + 1 };
        assert(rest[w] == list[w2]);
        if w2 < j {
            assert(distance(list[w2].peer.key, target) < distance(list[j].peer.key, target));
        } else {
            assert(distance(list[j].peer.key, target) < distance(list[w2].peer.key, target));
        }
    }
}

/// The views of a list of provider records.
pub open spec fn provider_views(s: Seq<ProviderRecord>) -> Seq<ProviderRecordView> {
    s.map_values(|r: ProviderRecord| r@)
}

/// The record of the provider at `key` in a list of providers that has one.
pub open spec fn record_of(list: Seq<Provider>, key: Key) -> ProviderRecordView {
    list[choose|i: int| 0 <= i < list.len() && (#[trigger] list[i]).peer.key == key].data@
}

/// The records by which the peer at `local` is a provider, in the order of
/// the lists.
pub open spec fn provided_by(sets: Seq<ProviderSet>, local: Key) -> Seq<ProviderRecordView>
    decreases sets.len(),
{
    if sets.len() == 0 {
        Seq::empty()
    } else if has_key(sets.last().providers@, local) {
        provided_by(sets.drop_last(), local).push(record_of(sets.last().providers@, local))
    } else {
        provided_by(sets.drop_last(), local)
    }
}

/// In a list sorted by distance a key stands at one position only.
pub proof fn lemma_one_place(list: Seq<Provider>, target: Key, key: Key, j: int)
    requires
        sorted(list, target),
        0 <= j < list.len(),
        list[j].peer.key == key,
    ensures
        record_of(list, key) == list[j].data@,
{
    let i = choose|i: int| 0 <= i < list.len() && (#[trigger] list[i]).peer.key == key;
    if i < j {
        assert(distance(list[i].peer.key, target) < distance(list[j].peer.key, target));
    } else if j < i {
        assert(distance(list[j].peer.key, target) < distance(list[i].peer.key, target));
    }
}

} // verus!
