//! The periodic jobs: replication and publication of records, and the
//! announcement of providers.
//!
//! A job waits until its deadline, then runs over what the store holds, one
//! item per poll, and waits again. What it hands out its owner turns into
//! queries; when the owner has no room for more, it stops polling and goes
//! on at the next occasion.

use crate::bytes::bytes_eq;
use crate::candidates::{deadline, deadline_after};
use crate::peer::PeerId;
use crate::providers::ProviderStore;
use crate::record::{expired_at, ProviderRecord, Record, RecordView};
use crate::store::RecordStore;
use vstd::prelude::*;

verus! {

/// Where a periodic job stands.
#[derive(Debug)]
pub enum JobState<T> {
    /// The job waits for the given time.
    Waiting(u64),
    /// The job runs; these items are yet to be handed out.
    Running(Vec<T>),
}

/// Whether `key` is among the keys `skipped`.
pub open spec fn is_skipped(skipped: Seq<Vec<u8>>, key: Seq<u8>) -> bool {
    exists|i: int| 0 <= i < skipped.len() && (#[trigger] skipped[i])@ == key
}

/// Whether a run of the job that publishes or not, as `publish` says, takes
/// the record: a record that is skipped is not taken, and a record of the
/// local peer is taken only when the run publishes.
pub open spec fn takes(
    record: RecordView,
    skipped: Seq<Vec<u8>>,
    local: PeerId,
    publish: bool,
) -> bool {
    !is_skipped(skipped, record.key) && (publish || record.publisher != Some(local))
}

/// The record as a run of the job hands it out at time `now`: a record of
/// the local peer that is published and has no expiry gets the time to live.
pub open spec fn handed_out(
    record: RecordView,
    local: PeerId,
    publish: bool,
    ttl: Option<u64>,
    now: u64,
) -> RecordView {
    if publish && record.publisher == Some(local) && record.expires is None {
        RecordView {
            expires: match ttl {
                Some(ttl) => Some(deadline_after(now, ttl)),
                None => None,
            },
            ..record
        }
    } else {
        record
    }
}

/// The records that a run of the job hands out, in the order of the store.
pub open spec fn run_list(
    records: Seq<Record>,
    skipped: Seq<Vec<u8>>,
    local: PeerId,
    publish: bool,
    ttl: Option<u64>,
    now: u64,
) -> Seq<RecordView>
    decreases records.len(),
{
    if records.len() == 0 {
        Seq::empty()
    } else if takes(records.last()@, skipped, local, publish) {
        run_list(records.drop_last(), skipped, local, publish, ttl, now).push(
            handed_out(records.last()@, local, publish, ttl, now),
        )
    } else {
        run_list(records.drop_last(), skipped, local, publish, ttl, now)
    }
}

/// The views of a list of records.
pub open spec fn record_views(s: Seq<Record>) -> Seq<RecordView> {
    s.map_values(|r: Record| r@)
}

/// The number of records in front of `s` that have expired at `now`.
pub open spec fn expired_prefix(s: Seq<Record>, now: u64) -> nat
    decreases s.len(),
{
    if s.len() == 0 || !expired_at(s[0].expires, now) {
        0
    } else {
        1 + expired_prefix(s.skip(1), now)
    }
}

/// A poll at time `now` leads from the job `job` and the store `store` to
/// the job `after` and the store `kept`, and hands out `r`.
///
/// A job that waits and whose time has come starts a run over the records of
/// the store. A job that runs hands out the next record of its run that has
/// not expired; the expired ones in front of it are removed from the store.
/// When the run is over, the job waits for its interval again and forgets
/// the keys that it was to skip.
pub open spec fn records_polled(
    job: PutRecordJob,
    store: RecordStore,
    now: u64,
    after: PutRecordJob,
    kept: RecordStore,
    r: Option<Record>,
) -> bool {
    &&& kept.config() == store.config()
    &&& after.local() == job.local()
    &&& after.interval() == job.interval()
    &&& after.publish_interval() == job.publish_interval()
    &&& after.record_ttl() == job.record_ttl()
    &&& (job.state() matches JobState::Waiting(d) && now < d) ==> {
        &&& r is None
        &&& after.state() == job.state()
        &&& after.skipped() == job.skipped()
        &&& after.next_publish() == job.next_publish()
        &&& kept@.records == store@.records
    }
    &&& !(job.state() matches JobState::Waiting(d) && now < d) ==> exists|run: Seq<Record>|
        #![trigger expired_prefix(run, now)]
        {
            &&& match job.state() {
                JobState::Running(list) => run == list@,
                JobState::Waiting(_) => record_views(run) == run_list(
                    store.in_order(),
                    job.skipped(),
                    job.local(),
                    job.publishes_at(now),
                    job.record_ttl(),
                    now,
                ),
            }
            &&& after.next_publish() == if job.state() is Waiting
                && job.publishes_at(now) {
                match job.publish_interval() {
                    Some(i) => Some(deadline_after(now, i)),
                    None => None,
                }
            } else {
                job.next_publish()
            }
            &&& if expired_prefix(run, now) < run.len() {
                &&& r == Some(run[expired_prefix(run, now) as int])
                &&& after.state() matches JobState::Running(rest)
                &&& rest@ == run.skip(expired_prefix(run, now) as int + 1)
                &&& after.skipped() == job.skipped()
            } else {
                &&& r is None
                &&& after.state() == JobState::<Record>::Waiting(
                    deadline_after(now, job.interval()),
                )
                &&& after.skipped().len() == 0
            }
            &&& forall|k: Seq<u8>|
                #![trigger kept@.records.dom().contains(k)]
                kept@.records.dom().contains(k) <==> store@.records.dom().contains(k)
                    && !exists|j: int|
                    0 <= j < expired_prefix(run, now) && (#[trigger] run[j]).key@ == k
            &&& forall|k: Seq<u8>|
                #![trigger kept@.records[k]]
                kept@.records.dom().contains(k) ==> kept@.records[k] == store@.records[k]
        }
}

/// The job `after` is the job `job` told at time `now` to run as soon as it
/// can: a job that waits is due at once, and with `publish` its next run
/// publishes.
pub open spec fn records_hurried(
    job: PutRecordJob,
    publish: bool,
    now: u64,
    after: PutRecordJob,
) -> bool {
    &&& after.state() == match job.state() {
        JobState::Waiting(_) => JobState::Waiting(now),
        JobState::Running(list) => JobState::Running(list),
    }
    &&& after.next_publish() == if publish {
        Some(now)
    } else {
        job.next_publish()
    }
    &&& after.skipped() == job.skipped()
    &&& after.local() == job.local()
    &&& after.interval() == job.interval()
    &&& after.publish_interval() == job.publish_interval()
    &&& after.record_ttl() == job.record_ttl()
}

/// The job that replicates the records of the store to the closest peers, and
/// publishes the records of the local peer anew.
#[derive(Debug)]
pub struct PutRecordJob {
    local: PeerId,
    next_publish: Option<u64>,
    publish_interval: Option<u64>,
    record_ttl: Option<u64>,
    interval: u64,
    skipped: Vec<Vec<u8>>,
    state: JobState<Record>,
}

impl PutRecordJob {
    /// The state of the job.
    pub closed spec fn state(self) -> JobState<Record> {
        self.state
    }

    /// The time from which on a run publishes the records of the local peer.
    pub closed spec fn next_publish(self) -> Option<u64> {
        self.next_publish
    }

    /// The keys that the next run leaves out.
    pub closed spec fn skipped(self) -> Seq<Vec<u8>> {
        self.skipped@
    }

    /// The local peer.
    pub closed spec fn local(self) -> PeerId {
        self.local
    }

    /// The interval between two runs.
    pub closed spec fn interval(self) -> u64 {
        self.interval
    }

    /// The interval between two runs that publish.
    pub closed spec fn publish_interval(self) -> Option<u64> {
        self.publish_interval
    }

    /// The time to live that published records get.
    pub closed spec fn record_ttl(self) -> Option<u64> {
        self.record_ttl
    }

    /// Whether a run that starts at `now` publishes.
    pub open spec fn publishes_at(self, now: u64) -> bool {
        self.next_publish() is Some && now >= self.next_publish()->0
    }

    /// A job that runs first after `interval` from `now` on, and publishes
    /// first after the publication interval.
    pub fn new(
        local: PeerId,
        interval: u64,
        publish_interval: Option<u64>,
        record_ttl: Option<u64>,
        now: u64,
    ) -> (job: Self)
        ensures
            job.local() == local,
            job.interval() == interval,
            job.publish_interval() == publish_interval,
            job.record_ttl() == record_ttl,
            job.state() == JobState::<Record>::Waiting(deadline_after(now, interval)),
            job.next_publish() == match publish_interval {
                Some(i) => Some(deadline_after(now, i)),
                None => None,
            },
            job.skipped().len() == 0,
    {
        PutRecordJob {
            local,
            next_publish: match publish_interval {
                Some(i) => Some(deadline(now, i)),
                None => None,
            },
            publish_interval,
            record_ttl,
            interval,
            skipped: Vec::new(),
            state: JobState::Waiting(deadline(now, interval)),
        }
    }

    /// Leaves the record under `key` out of the next run.
    pub fn skip(&mut self, key: Vec<u8>)
        ensures
            final(self).skipped() == old(self).skipped().push(key),
            final(self).state() == old(self).state(),
            final(self).next_publish() == old(self).next_publish(),
            final(self).local() == old(self).local(),
            final(self).interval() == old(self).interval(),
            final(self).publish_interval() == old(self).publish_interval(),
            final(self).record_ttl() == old(self).record_ttl(),
    {
        self.skipped.push(key);
    }

    /// Whether the job runs.
    pub fn is_running(&self) -> (r: bool)
        ensures
            r == (self.state() is Running),
    {
        match self.state {
            JobState::Running(_) => true,
            JobState::Waiting(_) => false,
        }
    }

    /// Lets a job that waits run at the next poll, at time `now` or later;
    /// with `publish`, that run publishes.
    pub fn asap(&mut self, publish: bool, now: u64)
        ensures
            records_hurried(*old(self), publish, now, *final(self)),
    {
        if publish {
            self.next_publish = Some(now);
        }
        let waiting = match &self.state {
            JobState::Waiting(_) => true,
            JobState::Running(_) => false,
        };
        if waiting {
            self.state = JobState::Waiting(now);
        }
    }

    /// Whether `key` is left out of the next run.
    fn skips(&self, key: &[u8]) -> (r: bool)
        ensures
            r == is_skipped(self.skipped@, key@),
    {
        let n = self.skipped.len();
        let mut i: usize = 0;
        while i < n
            invariant
                0 <= i <= n,
                n == self.skipped@.len(),
                forall|j: int| 0 <= j < i ==> (#[trigger] self.skipped@[j])@ != key@,
            decreases n - i,
        {
            if bytes_eq(self.skipped[i].as_slice(), key) {
                return true;
            }
            i += 1;
        }
        false
    }

    /// The records that a run which starts at `now` hands out.
    fn collect(&self, store: &RecordStore, publish: bool, now: u64) -> (list: Vec<Record>)
        requires
            store.wf(),
        ensures
            record_views(list@) == run_list(
                store.in_order(),
                self.skipped(),
                self.local(),
                publish,
                self.record_ttl(),
                now,
            ),
    {
        let n = store.len();
        let ghost all = store.in_order();
        let mut list: Vec<Record> = Vec::new();
        let mut i: usize = 0;
        proof {
            store.lemma_bounded();
            assert(record_views(list@) =~= run_list(
                all.take(0),
                self.skipped(),
                self.local(),
                publish,
                self.record_ttl(),
                now,
            ));
        }
        while i < n
            invariant
                0 <= i <= n,
                n == all.len(),
                all == store.in_order(),
                store.spec_len() == n,
                record_views(list@) == run_list(
                    all.take(i as int),
                    self.skipped(),
                    self.local(),
                    publish,
                    self.record_ttl(),
                    now,
                ),
            decreases n - i,
        {
            let record = store.record(i);
            proof {
                assert(all.take(i + 1).drop_last() =~= all.take(i as int));
                assert(all.take(i + 1).last() == all[i as int]);
            }
            let own = match record.publisher {
                Some(p) => p.same(&self.local),
                None => false,
            };
            if !self.skips(record.key.as_slice()) && (publish || !own) {
                let mut copy = record.duplicate();
                if publish && own && copy.expires.is_none() {
                    copy.expires = match self.record_ttl {
                        Some(ttl) => Some(deadline(now, ttl)),
                        None => None,
                    };
                }
                let ghost before = list@;
                list.push(copy);
                proof {
                    assert(record_views(list@) =~= record_views(before).push(copy@));
                }
            }
            i += 1;
        }
        assert(all.take(n as int) =~= all);
        list
    }

    /// Polls the job at time `now`.
    ///
    /// A job that waits and whose time has come starts a run over the
    /// records of the store. A job that runs hands out the next record of
    /// its run that has not expired; the expired ones in front of it are
    /// removed from the store. When the run is over, the job waits for its
    /// interval again and forgets the keys that it was to skip.
    pub fn poll(&mut self, store: &mut RecordStore, now: u64) -> (r: Option<Record>)
        requires
            old(store).wf(),
        ensures
            final(store).wf(),
            records_polled(*old(self), *old(store), now, *final(self), *final(store), r),
    {
        let ready = match &self.state {
            JobState::Waiting(d) => Some(now >= *d),
            JobState::Running(_) => None,
        };
        match ready {
            Some(false) => {
                return None;
            },
            Some(true) => {
                let publish = match self.next_publish {
                    Some(t) => now >= t,
                    None => false,
                };
                let list = self.collect(store, publish, now);
                if publish {
                    self.next_publish = match self.publish_interval {
                        Some(i) => Some(deadline(now, i)),
                        None => None,
                    };
                }
                self.state = JobState::Running(list);
            },
            None => {},
        }
        let mut list: Vec<Record> = Vec::new();
        match &mut self.state {
            JobState::Running(l) => {
                core::mem::swap(l, &mut list);
            },
            JobState::Waiting(_) => {},
        }
        let ghost run = list@;
        let ghost start = store@.records;
        let mut dropped: usize = 0;
        let n = list.len();
        proof {
            assert(run.skip(0) =~= run);
        }
        while dropped < n && list[dropped].is_expired(now)
            invariant
                0 <= dropped <= n,
                n == run.len(),
                list@ == run,
                store.wf(),
                store.config() == old(store).config(),
                start == old(store)@.records,
                expired_prefix(run, now) == dropped + expired_prefix(run.skip(dropped as int), now),
                forall|k: Seq<u8>|
                    #![trigger store@.records.dom().contains(k)]
                    store@.records.dom().contains(k) <==> start.dom().contains(k) && !exists|j: int|
                        0 <= j < dropped && (#[trigger] run[j]).key@ == k,
                forall|k: Seq<u8>|
                    #![trigger store@.records[k]]
                    store@.records.dom().contains(k) ==> store@.records[k] == start[k],
            decreases n - dropped,
        {
            let ghost before = store@.records;
            store.remove(list[dropped].key.as_slice());
            proof {
                let key = run[dropped as int].key@;
                assert(run.skip(dropped as int)[0] == run[dropped as int]);
                assert(run.skip(dropped as int).skip(1) =~= run.skip(dropped + 1));
                assert forall|k: Seq<u8>|
                    #![trigger store@.records.dom().contains(k)]
                    store@.records.dom().contains(k) <==> start.dom().contains(k) && !exists|j: int|
                        0 <= j < dropped + 1 && (#[trigger] run[j]).key@ == k by {
                    if k == key {
                        assert(run[dropped as int].key@ == k);
                    }
                    if exists|j: int| 0 <= j < dropped + 1 && (#[trigger] run[j]).key@ == k {
                        let j = choose|j: int| 0 <= j < dropped + 1
                            && (#[trigger] run[j]).key@ == k;
                        if j < dropped {
                            assert(!before.dom().contains(k));
                        }
                    }
                }
            }
            dropped += 1;
        }
        if dropped < n {
            proof {
                assert(run.skip(dropped as int)[0] == run[dropped as int]);
                assert(expired_prefix(run.skip(dropped as int), now) == 0);
            }
            let mut rest = list.split_off(dropped);
            let record = rest.remove(0);
            proof {
                assert(rest@ =~= run.skip(dropped + 1));
            }
            self.state = JobState::Running(rest);
            Some(record)
        } else {
            proof {
                assert(run.skip(dropped as int).len() == 0);
            }
            self.skipped = Vec::new();
            self.state = JobState::Waiting(deadline(now, self.interval));
            None
        }
    }
}

/// A poll at time `now` leads from the job `job` and the store `store` to
/// the job `after` and the store `kept`, and hands out `r`.
///
/// A job that waits and whose time has come starts a run over the records by
/// which the local peer is a provider. A job that runs hands out the next
/// record of its run that has not expired; for the expired ones in front of
/// it the local peer is taken out of the store as a provider. When the run
/// is over, the job waits for its interval again.
pub open spec fn providers_polled(
    job: AddProviderJob,
    store: ProviderStore,
    now: u64,
    after: AddProviderJob,
    kept: ProviderStore,
    r: Option<ProviderRecord>,
) -> bool {
    &&& kept.config() == store.config()
    &&& kept.local_key() == store.local_key()
    &&& after.interval() == job.interval()
    &&& forall|k: Seq<u8>|
        crate::providers::without_provider(
            store.providers_of(k),
            store.local_key(),
            #[trigger] kept.providers_of(k),
        )
    &&& (job.state() matches JobState::Waiting(d) && now < d) ==> {
        &&& r is None
        &&& after.state() == job.state()
        &&& kept.sets() == store.sets()
    }
    &&& !(job.state() matches JobState::Waiting(d) && now < d) ==> exists|run: Seq<ProviderRecord>|
        #![trigger crate::providers::provider_views(run)]
        {
            &&& match job.state() {
                JobState::Running(list) => run == list@,
                JobState::Waiting(_) => crate::providers::provider_views(run)
                    == crate::providers::provided_by(
                    store.sets(),
                    store.local_key(),
                ),
            }
            &&& match r {
                Some(record) => exists|n: int|
                    #![trigger run[n]]
                    {
                        &&& 0 <= n < run.len()
                        &&& record == run[n]
                        &&& !expired_at(record.expires, now)
                        &&& forall|j: int|
                            0 <= j < n ==> expired_at((#[trigger] run[j]).expires, now)
                        &&& after.state() matches JobState::Running(rest)
                        &&& rest@ == run.skip(n + 1)
                    },
                None => {
                    &&& forall|j: int|
                        0 <= j < run.len() ==> expired_at((#[trigger] run[j]).expires, now)
                    &&& after.state() == JobState::<ProviderRecord>::Waiting(
                        deadline_after(now, job.interval()),
                    )
                },
            }
        }
}

/// The job `after` is the job `job` told at time `now` to run as soon as it
/// can: a job that waits is due at once.
pub open spec fn providers_hurried(job: AddProviderJob, now: u64, after: AddProviderJob) -> bool {
    &&& after.interval() == job.interval()
    &&& after.state() == match job.state() {
        JobState::Waiting(_) => JobState::Waiting(now),
        JobState::Running(list) => JobState::Running(list),
    }
}

/// The job that announces anew what the local peer provides.
#[derive(Debug)]
pub struct AddProviderJob {
    interval: u64,
    state: JobState<ProviderRecord>,
}

impl AddProviderJob {
    /// The state of the job.
    pub closed spec fn state(self) -> JobState<ProviderRecord> {
        self.state
    }

    /// The interval between two runs.
    pub closed spec fn interval(self) -> u64 {
        self.interval
    }

    /// A job that runs first after `interval` from `now` on.
    pub fn new(interval: u64, now: u64) -> (job: Self)
        ensures
            job.interval() == interval,
            job.state() == JobState::<ProviderRecord>::Waiting(deadline_after(now, interval)),
    {
        AddProviderJob { interval, state: JobState::Waiting(deadline(now, interval)) }
    }

    /// Whether the job runs.
    pub fn is_running(&self) -> (r: bool)
        ensures
            r == (self.state() is Running),
    {
        match self.state {
            JobState::Running(_) => true,
            JobState::Waiting(_) => false,
        }
    }

    /// Lets a job that waits run at the next poll, at time `now` or later.
    pub fn asap(&mut self, now: u64)
        ensures
            providers_hurried(*old(self), now, *final(self)),
    {
        let waiting = match &self.state {
            JobState::Waiting(_) => true,
            JobState::Running(_) => false,
        };
        if waiting {
            self.state = JobState::Waiting(now);
        }
    }

    /// Polls the job at time `now`.
    ///
    /// A job that waits and whose time has come starts a run over the
    /// records by which the local peer is a provider. A job that runs hands
    /// out the next record of its run that has not expired; for the expired
    /// ones in front of it the local peer is taken out of the store as a
    /// provider. When the run is over, the job waits for its interval again.
    pub fn poll(&mut self, store: &mut ProviderStore, now: u64) -> (r: Option<ProviderRecord>)
        requires
            old(store).wf(),
        ensures
            final(store).wf(),
            providers_polled(*old(self), *old(store), now, *final(self), *final(store), r),
    {
        let ready = match &self.state {
            JobState::Waiting(d) => Some(now >= *d),
            JobState::Running(_) => None,
        };
        match ready {
            Some(false) => {
                return None;
            },
            Some(true) => {
                let list = store.provided();
                self.state = JobState::Running(list);
            },
            None => {},
        }
        let mut list: Vec<ProviderRecord> = Vec::new();
        match &mut self.state {
            JobState::Running(l) => {
                core::mem::swap(l, &mut list);
            },
            JobState::Waiting(_) => {},
        }
        let ghost run = list@;
        proof {
            match old(self).state() {
                JobState::Running(l) => {
                    assert(run == l@);
                },
                JobState::Waiting(_) => {
                    assert(crate::providers::provider_views(run) == crate::providers::provided_by(
                        old(store).sets(),
                        old(store).local_key(),
                    ));
                },
            }
        }
        let local = store.local();
        let ghost mid = *store;
        proof {
            assert(mid.sets() == old(store).sets());
            assert forall|k: Seq<u8>| #[trigger] mid.providers_of(k)
                == old(store).providers_of(k) by {}
        }
        let mut dropped: usize = 0;
        let n = list.len();
        while dropped < n && list[dropped].is_expired(now)
            invariant
                0 <= dropped <= n,
                n == run.len(),
                list@ == run,
                store.wf(),
                store.config() == old(store).config(),
                store.local_key() == old(store).local_key(),
                local == store.local_key(),
                mid.wf(),
                mid.local_key() == local,
                forall|j: int| 0 <= j < dropped ==> expired_at((#[trigger] run[j]).expires, now),
                forall|k: Seq<u8>|
                    crate::providers::without_provider(
                        mid.providers_of(k),
                        local,
                        #[trigger] store.providers_of(k),
                    ),
            decreases n - dropped,
        {
            let ghost before = *store;
            let ghost key = list[dropped as int].key@;
            let gone = store.remove_provider(list[dropped].key.as_slice(), &local);
            proof {
                assert forall|k: Seq<u8>|
                    crate::providers::without_provider(
                        mid.providers_of(k),
                        local,
                        #[trigger] store.providers_of(k),
                    ) by {
                    assert(crate::providers::without_provider(
                        mid.providers_of(k),
                        local,
                        before.providers_of(k),
                    ));
                    if k == key && gone is Some {
                        if before.providers_of(k) != mid.providers_of(k) {
                            let j = choose|j: int|
                                0 <= j < mid.providers_of(k).len() && (
                                #[trigger] mid.providers_of(k)[j]).peer.key == local
                                    && before.providers_of(k) == mid.providers_of(k).remove(j);
                            mid.lemma_providers_sorted(k);
                            crate::providers::lemma_removed_is_gone(
                                mid.providers_of(k),
                                local,
                                local,
                                j,
                            );
                        }
                    } else if k != key {
                        assert(store.providers_of(k) == before.providers_of(k));
                    }
                }
            }
            dropped += 1;
        }
        if dropped < n {
            let mut rest = list.split_off(dropped);
            let record = rest.remove(0);
            proof {
                assert(rest@ =~= run.skip(dropped + 1));
                assert(record == run[dropped as int]);
            }
            self.state = JobState::Running(rest);
            proof {
                assert(crate::providers::provider_views(run) == crate::providers::provider_views(
                    run,
                ));
                assert(run[dropped as int] == record);
            }
            Some(record)
        } else {
            self.state = JobState::Waiting(deadline(now, self.interval));
            proof {
                assert(crate::providers::provider_views(run) == crate::providers::provider_views(
                    run,
                ));
            }
            None
        }
    }
}

} // verus!
