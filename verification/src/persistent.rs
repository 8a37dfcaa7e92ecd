//! The durable engine: the in-memory engine together with what goes into
//! the write-ahead log.
//!
//! Every change is made in memory first and yields the record that makes it
//! durable. The caller appends that record to the log and waits until it is
//! durable before it acknowledges the change. On a cold start the engine is
//! rebuilt from the records read back.

use vstd::prelude::*;
use vstd::string::*;
use crate::clock::NANOS_PER_SECOND;
use crate::idem::response_hash_of;
use crate::lease::{held_by_other, held_exactly};
use crate::model::object_views;
use crate::table::{currents, has_entry};
use crate::traits::IdempotencyView;
use crate::commit::counter_of;
use crate::errors::StateError;
use crate::lease::{deadline, deadline_of};
use crate::manifest::{max_seq_of, Manifest, ManifestView};
use crate::mem::{InMemoryStore, StoreView};
use crate::model::{assembled, Object, ObjectView, PutRequest};
use crate::traits::{Lease, LeaseView};
use crate::walbin::{encode_record, frame_bytes, FrameView, RecType};
use crate::watch::WatchConfig;

verus! {

/// The body of a log record.
#[derive(Debug)]
pub enum RecBody {
    Put { ns: String, obj: Object },
    Delete { ns: String, id: String },
    LeaseAcquire { ns: String, key: String, owner: String, token: u64, ttl: u64 },
    LeaseRenew { ns: String, key: String, owner: String, token: u64, ttl: u64 },
    LeaseRelease { ns: String, key: String, owner: String, token: u64 },
    Idempotency {
        ns: String,
        key: String,
        body_hash: String,
        response: String,
        commit_seq: u64,
        expires_ts: i64,
    },
}

/// The body of a log record, as plain mathematical values.
pub enum RecBodyView {
    Put { ns: Seq<char>, obj: ObjectView },
    Delete { ns: Seq<char>, id: Seq<char> },
    LeaseAcquire { ns: Seq<char>, key: Seq<char>, owner: Seq<char>, token: u64, ttl: u64 },
    LeaseRenew { ns: Seq<char>, key: Seq<char>, owner: Seq<char>, token: u64, ttl: u64 },
    LeaseRelease { ns: Seq<char>, key: Seq<char>, owner: Seq<char>, token: u64 },
    Idempotency {
        ns: Seq<char>,
        key: Seq<char>,
        body_hash: Seq<char>,
        response: Seq<char>,
        commit_seq: u64,
        expires_ts: i64,
    },
}

impl View for RecBody {
    type V = RecBodyView;

    open spec fn view(&self) -> RecBodyView {
        match *self {
            RecBody::Put { ns, obj } => RecBodyView::Put { ns: ns@, obj: obj@ },
            RecBody::Delete { ns, id } => RecBodyView::Delete { ns: ns@, id: id@ },
            RecBody::LeaseAcquire { ns, key, owner, token, ttl } => RecBodyView::LeaseAcquire {
                ns: ns@,
                key: key@,
                owner: owner@,
                token,
                ttl,
            },
            RecBody::LeaseRenew { ns, key, owner, token, ttl } => RecBodyView::LeaseRenew {
                ns: ns@,
                key: key@,
                owner: owner@,
                token,
                ttl,
            },
            RecBody::LeaseRelease { ns, key, owner, token } => RecBodyView::LeaseRelease {
                ns: ns@,
                key: key@,
                owner: owner@,
                token,
            },
            RecBody::Idempotency {
                ns,
                key,
                body_hash,
                response,
                commit_seq,
                expires_ts,
            } => RecBodyView::Idempotency {
                ns: ns@,
                key: key@,
                body_hash: body_hash@,
                response: response@,
                commit_seq,
                expires_ts,
            },
        }
    }
}

impl RecBodyView {
    /// The kind of record this body goes into.
    pub open spec fn kind(self) -> RecType {
        match self {
            RecBodyView::Put { .. } => RecType::Put,
            RecBodyView::Delete { .. } => RecType::Delete,
            RecBodyView::LeaseAcquire { .. } => RecType::LeaseAcquire,
            RecBodyView::LeaseRenew { .. } => RecType::LeaseRenew,
            RecBodyView::LeaseRelease { .. } => RecType::LeaseRelease,
            RecBodyView::Idempotency { .. } => RecType::Idempotency,
        }
    }
}

impl RecBody {
    /// The kind of record this body goes into.
    pub fn rectype(&self) -> (kind: RecType)
        ensures
            kind == self@.kind(),
    {
        match self {
            RecBody::Put { .. } => RecType::Put,
            RecBody::Delete { .. } => RecType::Delete,
            RecBody::LeaseAcquire { .. } => RecType::LeaseAcquire,
            RecBody::LeaseRenew { .. } => RecType::LeaseRenew,
            RecBody::LeaseRelease { .. } => RecType::LeaseRelease,
            RecBody::Idempotency { .. } => RecType::Idempotency,
        }
    }
}

/// A record read back from the log: its body and, from its header, the
/// sequence number and the writer's clock, in seconds since the Unix epoch.
#[derive(Debug)]
pub struct LoggedRecord {
    pub seq: u64,
    pub ts: u64,
    pub body: RecBody,
}

/// A record read back, as plain mathematical values.
pub struct LoggedView {
    pub seq: u64,
    pub ts: u64,
    pub body: RecBodyView,
}

impl View for LoggedRecord {
    type V = LoggedView;

    open spec fn view(&self) -> LoggedView {
        LoggedView { seq: self.seq, ts: self.ts, body: self.body@ }
    }
}

/// The views of a list of records read back.
pub open spec fn logged_views(v: Seq<LoggedRecord>) -> Seq<LoggedView> {
    v.map_values(|r: LoggedRecord| r@)
}

/// The instant `secs` whole seconds after the Unix epoch; the nearest end
/// of the representable range where that lies beyond it.
pub open spec fn instant_of_secs(secs: int) -> i64 {
    if secs * NANOS_PER_SECOND > i64::MAX {
        i64::MAX
    } else if secs * NANOS_PER_SECOND < i64::MIN {
        i64::MIN
    } else {
        (secs * NANOS_PER_SECOND) as i64
    }
}

/// The whole seconds since the Unix epoch at the instant `now`, rounded
/// down.
pub open spec fn secs_of_instant(now: i64) -> i64 {
    (now as int / NANOS_PER_SECOND as int) as i64
}

/// The store after one record read back from the log was applied again. A
/// put and a delete keep the numbers they were given: the put bears its own,
/// the delete the one in its record's header. A lease runs from the instant
/// its record was written.
pub open spec fn replayed(s: StoreView, r: LoggedView) -> StoreView {
    match r.body {
        RecBodyView::Put { ns, obj } => s.replay_put(obj),
        RecBodyView::Delete { ns, id } => s.replay_delete(ns, id, r.seq),
        RecBodyView::LeaseAcquire { ns, key, owner, token, ttl } => s.replay_lease(
            LeaseView {
                ns,
                key,
                owner,
                token,
                expires_at: deadline_of(instant_of_secs(r.ts as int), ttl),
            },
        ),
        RecBodyView::LeaseRenew { ns, key, owner, token, ttl } => s.replay_lease(
            LeaseView {
                ns,
                key,
                owner,
                token,
                expires_at: deadline_of(instant_of_secs(r.ts as int), ttl),
            },
        ),
        RecBodyView::LeaseRelease { ns, key, owner, token } => s.replay_release(
            ns,
            key,
            owner,
            token,
        ),
        RecBodyView::Idempotency {
            ns,
            key,
            body_hash,
            response,
            commit_seq,
            expires_ts,
        } => s.replay_idempotency(
            ns,
            key,
            body_hash,
            response,
            commit_seq,
            instant_of_secs(expires_ts as int),
        ),
    }
}

/// The store after the records read back from the log were applied again,
/// in order.
pub open spec fn replayed_all(s: StoreView, rs: Seq<LoggedView>) -> StoreView
    decreases rs.len(),
{
    if rs.len() == 0 {
        s
    } else {
        replayed(replayed_all(s, rs.drop_last()), rs.last())
    }
}

/// The instant `secs` whole seconds after the Unix epoch.
pub fn instant_from_secs(secs: i128) -> (at: i64)
    requires
        -18446744073709551616 <= secs <= 18446744073709551616,
    ensures
        at == instant_of_secs(secs as int),
{
    let nanos: i128 = secs * (NANOS_PER_SECOND as i128);
    if nanos > i64::MAX as i128 {
        i64::MAX
    } else if nanos < i64::MIN as i128 {
        i64::MIN
    } else {
        nanos as i64
    }
}

/// The whole seconds since the Unix epoch at the instant `now`, rounded
/// down.
pub fn secs_from_instant(now: i64) -> (secs: i64)
    ensures
        secs == secs_of_instant(now),
{
    if now >= 0 {
        now / NANOS_PER_SECOND
    } else {
        let back: i64 = (-(now + 1)) / NANOS_PER_SECOND;
        -back - 1
    }
}

/// Applies again one record read back from the log.
pub fn replay_record(store: &mut InMemoryStore, record: LoggedRecord)
    requires
        old(store).wf(),
    ensures
        final(store).wf(),
        final(store)@ == replayed(old(store)@, record@),
{
    let ts: u64 = record.ts;
    match record.body {
        RecBody::Put { ns, obj } => {
            store.replay_put(obj);
        },
        RecBody::Delete { ns, id } => {
            store.replay_delete(ns.as_str(), id.as_str(), record.seq);
        },
        RecBody::LeaseAcquire { ns, key, owner, token, ttl } => {
            let until = deadline(instant_from_secs(ts as i128), ttl);
            store.replay_lease(ns.as_str(), key.as_str(), owner.as_str(), token, until);
        },
        RecBody::LeaseRenew { ns, key, owner, token, ttl } => {
            let until = deadline(instant_from_secs(ts as i128), ttl);
            store.replay_lease(ns.as_str(), key.as_str(), owner.as_str(), token, until);
        },
        RecBody::LeaseRelease { ns, key, owner, token } => {
            store.replay_release(ns.as_str(), key.as_str(), owner.as_str(), token);
        },
        RecBody::Idempotency { ns, key, body_hash, response, commit_seq, expires_ts } => {
            store.replay_idempotency(
                ns.as_str(),
                key.as_str(),
                body_hash.as_str(),
                response,
                commit_seq,
                instant_from_secs(expires_ts as i128),
            );
        },
    }
}

/// The store after the versions of a snapshot were filed, in order. The
/// commit log is not touched.
pub open spec fn seeded(s: StoreView, snapshot: Seq<ObjectView>) -> StoreView
    decreases snapshot.len(),
{
    if snapshot.len() == 0 {
        s
    } else {
        seeded(s, snapshot.drop_last()).seed(snapshot.last())
    }
}

/// Seeding leaves the commit log, the subscribers, the leases and the
/// idempotency records as they are.
pub proof fn lemma_seeded_logs_nothing(s: StoreView, snapshot: Seq<ObjectView>)
    ensures
        seeded(s, snapshot).log == s.log,
        seeded(s, snapshot).subs == s.subs,
        seeded(s, snapshot).leases == s.leases,
        seeded(s, snapshot).idem == s.idem,
    decreases snapshot.len(),
{
    if snapshot.len() > 0 {
        lemma_seeded_logs_nothing(s, snapshot.drop_last());
    }
}

/// The store that a cold start rebuilds: an empty one, the versions of the
/// snapshot filed, then the records of the log applied again. Its commit log
/// holds the changes that the log on disk gives, each once.
pub open spec fn rebuilt(
    config: WatchConfig,
    snapshot: Seq<ObjectView>,
    records: Seq<LoggedView>,
) -> StoreView {
    replayed_all(seeded(StoreView::empty(config), snapshot), records)
}

/// Rebuilds the engine from the versions of the current snapshot, if there
/// is one, and the records read back from the log, in the order in which
/// they were read.
pub fn rebuild(snapshot: Vec<Object>, records: Vec<LoggedRecord>, config: WatchConfig) -> (store:
    InMemoryStore)
    ensures
        store.wf(),
        store@ == rebuilt(config, object_views(snapshot@), logged_views(records@)),
{
    let mut store = InMemoryStore::with_config(config);
    let ghost seed = object_views(snapshot@);
    assert(seed.take(0) =~= Seq::<ObjectView>::empty());
    for o in it: snapshot
        invariant
            store.wf(),
            seed == object_views(it.seq()),
            store@ == seeded(StoreView::empty(config), seed.take(it.index() as int)),
    {
        proof {
            let k = it.index() as int;
            assert(seed.take(k + 1).drop_last() =~= seed.take(k));
            assert(seed.take(k + 1).last() == o@);
        }
        store.seed(o);
    }
    assert(seed.take(seed.len() as int) =~= seed);
    let ghost start = store@;
    let ghost all = logged_views(records@);
    assert(all.take(0) =~= Seq::<LoggedView>::empty());
    for r in it: records
        invariant
            store.wf(),
            all == logged_views(it.seq()),
            store@ == replayed_all(start, all.take(it.index() as int)),
    {
        proof {
            let k = it.index() as int;
            assert(all.take(k + 1).drop_last() =~= all.take(k));
            assert(all.take(k + 1).last() == r@);
        }
        replay_record(&mut store, r);
    }
    assert(all.take(all.len() as int) =~= all);
    store
}

/// What has to be appended to the log to make a change durable.
#[derive(Debug)]
pub struct WalEntry {
    /// The sequence number for the record's header: the commit sequence
    /// number that a put or a delete was given, zero for anything else.
    pub seq: u64,
    /// The clock for the record's header, in seconds since the Unix epoch.
    pub ts: i64,
    /// The record's body.
    pub body: RecBody,
}

/// A log entry, as plain mathematical values.
pub struct WalEntryView {
    pub seq: u64,
    pub ts: i64,
    pub body: RecBodyView,
}

impl View for WalEntry {
    type V = WalEntryView;

    open spec fn view(&self) -> WalEntryView {
        WalEntryView { seq: self.seq, ts: self.ts, body: self.body@ }
    }
}

impl WalEntry {
    /// Frames the entry for the log around its encoded body. `None` where
    /// the body is too long for a record.
    pub fn frame(&self, encoded_body: &[u8]) -> (out: Option<Vec<u8>>)
        ensures
            match out {
                Some(bytes) => encoded_body@.len() <= u32::MAX && bytes@ == frame_bytes(
                    FrameView {
                        rtype: self@.body.kind().code_of(),
                        seq: self.seq,
                        ts: self.ts as u64,
                        body: encoded_body@,
                    },
                ),
                None => encoded_body@.len() > u32::MAX,
            },
    {
        encode_record(self.body.rectype(), self.seq, self.ts, encoded_body)
    }
}

/// What a snapshot is made of: the file to write and the versions to put
/// into it.
#[derive(Debug)]
pub struct SnapshotPlan {
    /// The snapshot's file name: `snap-`, its id, `.zst`.
    pub file_name: String,
    /// The current version of every object.
    pub objects: Vec<Object>,
}

/// The file name of the snapshot with the id `id`.
pub open spec fn snapshot_name_of(id: Seq<char>) -> Seq<char> {
    seq!['s', 'n', 'a', 'p', '-'] + id + seq!['.', 'z', 's', 't']
}

/// The file name of the snapshot with the id `id`.
pub fn snapshot_name(id: &str) -> (name: String)
    ensures
        name@ == snapshot_name_of(id@),
{
    let mut name = String::new();
    name.push('s');
    name.push('n');
    name.push('a');
    name.push('p');
    name.push('-');
    name.append(id);
    name.push('.');
    name.push('z');
    name.push('s');
    name.push('t');
    assert(name@ =~= snapshot_name_of(id@));
    name
}

/// The durable engine.
#[derive(Debug)]
pub struct PersistentStore {
    /// The state, as readers and subscribers see it.
    pub mem: InMemoryStore,
    /// What is known to be durable.
    pub manifest: Manifest,
}

/// The durable engine, as plain mathematical values.
pub struct PersistentView {
    pub mem: StoreView,
    pub manifest: ManifestView,
}

impl View for PersistentStore {
    type V = PersistentView;

    open spec fn view(&self) -> PersistentView {
        PersistentView { mem: self.mem@, manifest: self.manifest@ }
    }
}

impl PersistentStore {
    /// Whether the engine's parts are sound.
    pub open spec fn wf(&self) -> bool {
        self.mem.wf()
    }

    /// Opens the engine on the manifest, the versions of the current
    /// snapshot, if there is one, and the records read back from the log: the
    /// state in memory is rebuilt from them.
    pub fn open(
        manifest: Manifest,
        snapshot: Vec<Object>,
        records: Vec<LoggedRecord>,
        config: WatchConfig,
    ) -> (store: PersistentStore)
        ensures
            store.wf(),
            store@.manifest == manifest@,
            store@.mem == rebuilt(config, object_views(snapshot@), logged_views(records@)),
    {
        PersistentStore { mem: rebuild(snapshot, records, config), manifest }
    }

    /// Writes a version of an object in `ns` at the instant `now`, as the
    /// engine in memory does, and yields the record that makes it durable:
    /// a put under the version's commit sequence number.
    pub fn put_at(&mut self, ns: &str, req: PutRequest, fresh: String, now: i64) -> (out: Result<
        (Object, WalEntry),
        StateError,
    >)
        requires
            old(self).wf(),
        ensures
            final(self).wf(),
            final(self)@.manifest == old(self)@.manifest,
            match out {
                Ok((o, entry)) => counter_of(old(self)@.mem.counters, ns@) < u64::MAX && o@
                    == assembled(
                    ns@,
                    req@,
                    (counter_of(old(self)@.mem.counters, ns@) + 1) as u64,
                    fresh@,
                    now,
                ) && crate::util::is_hex_digest(o@.commit) && final(self)@.mem == old(
                    self,
                )@.mem.put(o@) && entry@ == (WalEntryView {
                    seq: o@.commit_seq,
                    ts: secs_of_instant(now),
                    body: RecBodyView::Put { ns: ns@, obj: o@ },
                }),
                Err(e) => counter_of(old(self)@.mem.counters, ns@) == u64::MAX && final(self)@.mem
                    == old(self)@.mem && e.is_internal("commit sequence exhausted"@),
            },
    {
        let o = self.mem.put_at(ns, req, fresh, now)?;
        let entry = WalEntry {
            seq: o.commit_seq,
            ts: secs_from_instant(now),
            body: RecBody::Put { ns: o.ns.clone(), obj: o.clone() },
        };
        Ok((o, entry))
    }

    /// Records that the log has made everything up to the sequence number
    /// `seq` durable.
    pub fn acknowledged(&mut self, seq: u64)
        ensures
            final(self).mem == old(self).mem,
            final(self)@.manifest == (ManifestView {
                last_seq: max_seq_of(old(self)@.manifest.last_seq, seq),
                ..old(self)@.manifest
            }),
    {
        if self.manifest.last_seq < seq {
            self.manifest.last_seq = seq;
        }
    }

    /// Deletes the object `id` of `ns`, as the engine in memory does, and
    /// yields the record that makes the delete durable: a delete under the
    /// commit sequence number the delete was given.
    pub fn delete_at(&mut self, ns: &str, id: &str, now: i64) -> (out: Result<WalEntry, StateError>)
        requires
            old(self).wf(),
        ensures
            final(self).wf(),
            final(self)@.manifest == old(self)@.manifest,
            match out {
                Ok(entry) => has_entry(old(self)@.mem.table, ns@, id@) && counter_of(
                    old(self)@.mem.counters,
                    ns@,
                ) < u64::MAX && final(self)@.mem == old(self)@.mem.delete(
                    ns@,
                    id@,
                    (counter_of(old(self)@.mem.counters, ns@) + 1) as u64,
                ) && entry@ == (WalEntryView {
                    seq: (counter_of(old(self)@.mem.counters, ns@) + 1) as u64,
                    ts: secs_of_instant(now),
                    body: RecBodyView::Delete { ns: ns@, id: id@ },
                }),
                Err(e) => final(self)@.mem == old(self)@.mem && if !has_entry(
                    old(self)@.mem.table,
                    ns@,
                    id@,
                ) {
                    e is NotFound
                } else {
                    counter_of(old(self)@.mem.counters, ns@) == u64::MAX && e.is_internal(
                        "commit sequence exhausted"@,
                    )
                },
            },
    {
        self.mem.delete(ns, id)?;
        Ok(
            WalEntry {
                seq: self.mem.counter(ns),
                ts: secs_from_instant(now),
                body: RecBody::Delete { ns: ns.to_owned(), id: id.to_owned() },
            },
        )
    }

    /// Grants a lease, as the engine in memory does, and yields the record
    /// that makes the grant durable.
    pub fn lease_acquire_at(&mut self, ns: &str, key: &str, owner: &str, ttl_secs: u64, now: i64) -> (out:
        Result<(Lease, WalEntry), StateError>)
        requires
            old(self).wf(),
        ensures
            final(self).wf(),
            final(self)@.manifest == old(self)@.manifest,
            match out {
                Ok((lease, entry)) => !held_by_other(
                    old(self)@.mem.leases,
                    ns@,
                    key@,
                    owner@,
                    now,
                ) && counter_of(old(self)@.mem.counters, ns@) < u64::MAX && lease@ == (LeaseView {
                    ns: ns@,
                    key: key@,
                    owner: owner@,
                    token: (counter_of(old(self)@.mem.counters, ns@) + 1) as u64,
                    expires_at: deadline_of(now, ttl_secs),
                }) && final(self)@.mem == old(self)@.mem.grant(lease@) && entry@ == (WalEntryView {
                    seq: 0,
                    ts: secs_of_instant(now),
                    body: RecBodyView::LeaseAcquire {
                        ns: ns@,
                        key: key@,
                        owner: owner@,
                        token: lease@.token,
                        ttl: ttl_secs,
                    },
                }),
                Err(e) => final(self)@.mem == old(self)@.mem && if held_by_other(
                    old(self)@.mem.leases,
                    ns@,
                    key@,
                    owner@,
                    now,
                ) {
                    e.is_conflict("lease held"@)
                } else {
                    counter_of(old(self)@.mem.counters, ns@) == u64::MAX && e.is_internal(
                        "commit sequence exhausted"@,
                    )
                },
            },
    {
        let lease = self.mem.lease_acquire_at(ns, key, owner, ttl_secs, now)?;
        let entry = WalEntry {
            seq: 0,
            ts: secs_from_instant(now),
            body: RecBody::LeaseAcquire {
                ns: ns.to_owned(),
                key: key.to_owned(),
                owner: owner.to_owned(),
                token: lease.token,
                ttl: ttl_secs,
            },
        };
        Ok((lease, entry))
    }

    /// Extends a lease, as the engine in memory does, and yields the record
    /// that makes the renewal durable.
    pub fn lease_renew_at(
        &mut self,
        ns: &str,
        key: &str,
        owner: &str,
        token: u64,
        ttl_secs: u64,
        now: i64,
    ) -> (out: Result<(Lease, WalEntry), StateError>)
        requires
            old(self).wf(),
        ensures
            final(self).wf(),
            final(self)@.manifest == old(self)@.manifest,
            match out {
                Ok((lease, entry)) => held_exactly(old(self)@.mem.leases, ns@, key@, owner@, token)
                    && lease@ == (LeaseView {
                    ns: ns@,
                    key: key@,
                    owner: owner@,
                    token,
                    expires_at: deadline_of(now, ttl_secs),
                }) && final(self)@.mem == (StoreView {
                    leases: old(self)@.mem.leases.insert((ns@, key@), lease@),
                    ..old(self)@.mem
                }) && entry@ == (WalEntryView {
                    seq: 0,
                    ts: secs_of_instant(now),
                    body: RecBodyView::LeaseRenew {
                        ns: ns@,
                        key: key@,
                        owner: owner@,
                        token,
                        ttl: ttl_secs,
                    },
                }),
                Err(e) => final(self)@.mem == old(self)@.mem && !held_exactly(
                    old(self)@.mem.leases,
                    ns@,
                    key@,
                    owner@,
                    token,
                ) && if old(self)@.mem.leases.contains_key((ns@, key@)) {
                    e.is_conflict("fencing"@)
                } else {
                    e is NotFound
                },
            },
    {
        let lease = self.mem.lease_renew_at(ns, key, owner, token, ttl_secs, now)?;
        let entry = WalEntry {
            seq: 0,
            ts: secs_from_instant(now),
            body: RecBody::LeaseRenew {
                ns: ns.to_owned(),
                key: key.to_owned(),
                owner: owner.to_owned(),
                token,
                ttl: ttl_secs,
            },
        };
        Ok((lease, entry))
    }

    /// Gives up a lease, as the engine in memory does, and yields the
    /// record that makes the release durable.
    pub fn lease_release_at(&mut self, ns: &str, key: &str, owner: &str, token: u64, now: i64) -> (out:
        Result<WalEntry, StateError>)
        requires
            old(self).wf(),
        ensures
            final(self).wf(),
            final(self)@.manifest == old(self)@.manifest,
            match out {
                Ok(entry) => held_exactly(old(self)@.mem.leases, ns@, key@, owner@, token) && final(self)@.mem == (StoreView {
                    leases: old(self)@.mem.leases.remove((ns@, key@)),
                    ..old(self)@.mem
                }) && entry@ == (WalEntryView {
                    seq: 0,
                    ts: secs_of_instant(now),
                    body: RecBodyView::LeaseRelease { ns: ns@, key: key@, owner: owner@, token },
                }),
                Err(e) => final(self)@.mem == old(self)@.mem && !held_exactly(
                    old(self)@.mem.leases,
                    ns@,
                    key@,
                    owner@,
                    token,
                ) && if old(self)@.mem.leases.contains_key((ns@, key@)) {
                    e.is_conflict("fencing"@)
                } else {
                    e is NotFound
                },
            },
    {
        self.mem.lease_release(ns, key, owner, token)?;
        Ok(
            WalEntry {
                seq: 0,
                ts: secs_from_instant(now),
                body: RecBody::LeaseRelease {
                    ns: ns.to_owned(),
                    key: key.to_owned(),
                    owner: owner.to_owned(),
                    token,
                },
            },
        )
    }

    /// Remembers the answer given under an idempotency key, as the engine
    /// in memory does, and yields the record that makes it durable. The
    /// record keeps the expiry in whole seconds.
    pub fn idempotency_commit_at(
        &mut self,
        ns: &str,
        key: &str,
        body_hash: &str,
        response: String,
        commit_seq: u64,
        expires_at: i64,
        now: i64,
    ) -> (out: Result<WalEntry, StateError>)
        requires
            old(self).wf(),
        ensures
            final(self).wf(),
            final(self)@.manifest == old(self)@.manifest,
            match out {
                Ok(entry) => response_hash_of(response@) is Some && final(self)@.mem == (StoreView {
                    idem: old(self)@.mem.idem.insert(
                        (ns@, key@),
                        IdempotencyView {
                            ns: ns@,
                            key: key@,
                            body_hash: body_hash@,
                            response_hash: response_hash_of(response@)->0,
                            commit_seq,
                            expires_at,
                            response: response@,
                        },
                    ),
                    ..old(self)@.mem
                }) && entry@ == (WalEntryView {
                    seq: 0,
                    ts: secs_of_instant(now),
                    body: RecBodyView::Idempotency {
                        ns: ns@,
                        key: key@,
                        body_hash: body_hash@,
                        response: response@,
                        commit_seq,
                        expires_ts: secs_of_instant(expires_at),
                    },
                }),
                Err(e) => response_hash_of(response@) is None && final(self)@.mem == old(self)@.mem && e.is_invalid("response is not JSON"@),
            },
    {
        let copy = response.clone();
        self.mem.idempotency_commit(ns, key, body_hash, response, commit_seq, expires_at)?;
        Ok(
            WalEntry {
                seq: 0,
                ts: secs_from_instant(now),
                body: RecBody::Idempotency {
                    ns: ns.to_owned(),
                    key: key.to_owned(),
                    body_hash: body_hash.to_owned(),
                    response: copy,
                    commit_seq,
                    expires_ts: secs_from_instant(expires_at),
                },
            },
        )
    }

    /// Plans a snapshot with the id `id`: names its file and gathers the
    /// current version of every object. The manifest is not touched until the
    /// file is written.
    pub fn snapshot(&self, id: &str) -> (plan: SnapshotPlan)
        requires
            self.wf(),
        ensures
            plan.file_name@ == snapshot_name_of(id@),
            object_views(plan.objects@) == currents(self@.mem.table),
    {
        SnapshotPlan { file_name: snapshot_name(id), objects: self.mem.all_objects() }
    }

    /// Records that the snapshot in the file `file_name` was written: it is
    /// now the current one and covers everything up to the last durable
    /// sequence number. Returns the snapshot's name and what it covers.
    pub fn snapshot_written(&mut self, file_name: String) -> (out: (String, u64))
        ensures
            final(self).mem == old(self).mem,
            final(self)@.manifest == old(self)@.manifest.snapshotted(file_name@),
            out.0@ == file_name@,
            out.1 == old(self)@.manifest.last_seq,
    {
        let copy = file_name.clone();
        self.manifest.note_snapshot(file_name);
        (copy, self.manifest.last_seq)
    }

    /// The manifest as it stands.
    pub fn admin_manifest(&self) -> (out: Manifest)
        ensures
            out@ == self@.manifest,
    {
        self.manifest.clone()
    }

    /// Trims the log up to the snapshot named `snapshot_id`, which must be
    /// the current one, and returns the names of the segments whose files
    /// may now be deleted.
    pub fn admin_trim_wal(&mut self, snapshot_id: &str) -> (out: Result<Vec<String>, StateError>)
        ensures
            final(self).mem == old(self).mem,
            match out {
                Ok(names) => old(self)@.manifest.current_snapshot == Some(snapshot_id@) && final(self)@.manifest == old(self)@.manifest.trimmed() && crate::util::texts(names@)
                    == crate::manifest::dropped_names(
                    old(self)@.manifest.segments,
                    old(self)@.manifest.cutoff(),
                    old(self)@.manifest.segments.len() as int,
                ),
                Err(e) => old(self)@.manifest.current_snapshot != Some(snapshot_id@) && final(self)@.manifest == old(self)@.manifest && e.is_invalid("snapshot id mismatch"@),
            },
    {
        self.manifest.trim_wal(snapshot_id)
    }
}

} // verus!
