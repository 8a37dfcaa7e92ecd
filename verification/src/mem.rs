//! The in-memory engine: the object table with its index, the commit
//! counters and log, the subscribers' buffers, the leases and the
//! idempotency records.

use vstd::prelude::*;
use vstd::string::*;
use crate::assoc::{
    distinct_keys,
    has_key,
    lemma_to_map_dom,
    lemma_to_map_push,
    lemma_to_map_update,
    lemma_to_map_value,
    to_map,
};
use crate::clock::{fresh_ulid, now_or_end};
use crate::commit::{counter_of, CommitClock};
use crate::errors::StateError;
use crate::idem::{lookup_of, response_hash_of, Found, IdempotencyMap, IdempotencyStore};
use crate::index::{AttrKind, AttributeIndex, PostingView};
use crate::json::{json_lookup, json_pointer_from_path, json_pointer_value, pointer_of_path};
use crate::lease::{
    deadline,
    deadline_of,
    fence_holds,
    held_by_other,
    held_exactly,
    LeaseMap,
    LeaseTable,
};
use crate::model::{assembled, object_views, Object, ObjectView, PutRequest};
use crate::table::{
    currents,
    expired,
    has_entry,
    is_expired,
    lemma_position,
    lemma_table_put,
    lemma_table_remove,
    position,
    read_of,
    table_put,
    table_remove,
    table_wf,
    visible,
    EntryView,
    ObjectTable,
    TableView,
};
use crate::traits::{
    event_views,
    EventView,
    GetOptions,
    IdempotencyRecord,
    IdempotencyView,
    Lease,
    LeaseView,
    WatchEvent,
    WatchFilter,
};
use crate::query::{cond_views, Cond, Condition, QueryRequest};
use crate::util::{is_hex_digest, text_pairs, texts};
use crate::watch::{BufferView, WatchBuffer, WatchConfig};

verus! {

/// One subscriber: the namespace it watches and its buffer.
#[derive(Debug)]
pub struct Subscriber {
    id: u64,
    ns: String,
    buf: WatchBuffer,
}

/// A subscriber, as plain mathematical values.
pub struct SubscriberView {
    pub id: u64,
    pub ns: Seq<char>,
    pub buf: BufferView,
}

impl View for Subscriber {
    type V = SubscriberView;

    closed spec fn view(&self) -> SubscriberView {
        SubscriberView { id: self.id, ns: self.ns@, buf: self.buf@ }
    }
}

/// The engine.
#[derive(Debug)]
pub struct InMemoryStore {
    table: ObjectTable,
    index: AttributeIndex,
    paths: Vec<(String, String)>,
    clock: CommitClock,
    log: Vec<WatchEvent>,
    subs: Vec<Subscriber>,
    next_sub: u64,
    leases: LeaseTable,
    idem: IdempotencyStore,
    config: WatchConfig,
}

/// What the engine holds, as plain mathematical values.
pub struct StoreView {
    /// The objects with their versions.
    pub table: TableView,
    /// The JSON paths registered for indexing: namespace and path.
    pub paths: Seq<(Seq<char>, Seq<char>)>,
    /// The last commit sequence number handed out in each namespace.
    pub counters: Map<Seq<char>, u64>,
    /// Every change made so far, of all namespaces, oldest first.
    pub log: Seq<EventView>,
    /// The subscribers, in the order in which they subscribed.
    pub subs: Seq<SubscriberView>,
    /// The handle the next subscriber gets.
    pub next_sub: u64,
    /// The leases.
    pub leases: LeaseMap,
    /// The idempotency records.
    pub idem: IdempotencyMap,
    /// The limits of the subscribers' buffers.
    pub config: WatchConfig,
}

/// Whether the version `o` carries the attribute: the tag with that key
/// and value, or that value under that JSON path, where the path is
/// registered for the version's namespace.
pub open spec fn carries(
    o: ObjectView,
    paths: Seq<(Seq<char>, Seq<char>)>,
    kind: AttrKind,
    key: Seq<char>,
    value: Seq<char>,
) -> bool {
    match kind {
        AttrKind::Tag => o.tags.contains((key, value)),
        AttrKind::Json => paths.contains((o.ns, key)) && json_pointer_value(
            o.body,
            pointer_of_path(key),
        ) == Some(value),
    }
}

/// Whether the posting `q` is owed: its object exists and the current
/// version carries the attribute.
pub open spec fn owed(t: TableView, paths: Seq<(Seq<char>, Seq<char>)>, q: PostingView) -> bool {
    has_entry(t, q.ns, q.id) && carries(
        t[position(t, q.ns, q.id)].current(),
        paths,
        q.kind,
        q.key,
        q.value,
    )
}

/// The posting that says the object `id` of `ns` meets the condition `c`.
pub open spec fn posting_for(c: Condition, ns: Seq<char>, id: Seq<char>) -> PostingView {
    PostingView { kind: c.kind, ns, key: c.key, value: c.value, id }
}

/// Whether the version `o` meets every one of the conditions.
pub open spec fn meets(
    o: ObjectView,
    paths: Seq<(Seq<char>, Seq<char>)>,
    conds: Seq<Condition>,
) -> bool {
    forall|c: int|
        0 <= c < conds.len() ==> carries(
            o,
            paths,
            (#[trigger] conds[c]).kind,
            conds[c].key,
            conds[c].value,
        )
}

/// Index consistency: an object is posted under an attribute exactly when
/// its current version carries it.
pub open spec fn consistent(
    idx: Set<PostingView>,
    t: TableView,
    paths: Seq<(Seq<char>, Seq<char>)>,
) -> bool {
    forall|q: PostingView| #[trigger] idx.contains(q) <==> owed(t, paths, q)
}

/// The subscribers after the change `ev` was handed to those who watch
/// its namespace.
pub open spec fn fan_out(subs: Seq<SubscriberView>, ev: EventView, cfg: WatchConfig) -> Seq<
    SubscriberView,
> {
    subs.map_values(
        |s: SubscriberView|
            if s.ns == ev.ns() {
                SubscriberView { buf: s.buf.offer(ev, cfg), ..s }
            } else {
                s
            },
    )
}

/// The entries whose current version has not expired at `now`.
pub open spec fn unexpired(t: TableView, now: i64) -> TableView {
    t.filter(|e: EntryView| !expired(e.current(), now))
}

/// The changes to `ns` in the log `log` with a commit sequence number
/// above `k`, oldest first.
pub open spec fn changes_after(log: Seq<EventView>, ns: Seq<char>, k: u64) -> Seq<EventView> {
    log.filter(|e: EventView| e.ns() == ns && e.seq() > k)
}

/// What a new subscriber's buffer is seeded with: where it resumes after a
/// commit, the changes to its namespace logged after that commit.
pub open spec fn seed_for(log: Seq<EventView>, ns: Seq<char>, from: Option<u64>) -> Seq<
    EventView,
> {
    match from {
        Some(k) => changes_after(log, ns, k),
        None => Seq::empty(),
    }
}

/// Whether `map` is the backlog of `subs` by namespace: it has a number
/// for exactly the namespaces that have a subscriber, and that number is the
/// greatest count of undelivered events among the namespace's subscribers.
pub open spec fn is_backlog_map(subs: Seq<SubscriberView>, map: Map<Seq<char>, usize>) -> bool {
    &&& forall|i: int|
        0 <= i < subs.len() ==> map.contains_key((#[trigger] subs[i]).ns)
            && subs[i].buf.backlog() <= map[subs[i].ns]
    &&& forall|ns: Seq<char>| #[trigger]
        map.contains_key(ns) ==> exists|i: int|
            0 <= i < subs.len() && (#[trigger] subs[i]).ns == ns && subs[i].buf.backlog()
                == map[ns]
}

/// The backlog map grows with the subscribers: one more subscriber raises
/// its namespace's number to its own backlog where that is greater.
proof fn lemma_backlog_step(
    done: Seq<SubscriberView>,
    sub: SubscriberView,
    map: Map<Seq<char>, usize>,
    n: usize,
)
    requires
        is_backlog_map(done, map),
        n == sub.buf.backlog(),
    ensures
        is_backlog_map(
            done.push(sub),
            map.insert(
                sub.ns,
                if map.contains_key(sub.ns) && map[sub.ns] >= n {
                    map[sub.ns]
                } else {
                    n
                },
            ),
        ),
{
    let next = done.push(sub);
    let v = if map.contains_key(sub.ns) && map[sub.ns] >= n {
        map[sub.ns]
    } else {
        n
    };
    let after = map.insert(sub.ns, v);
    assert forall|i: int| 0 <= i < next.len() implies after.contains_key((#[trigger] next[i]).ns)
        && next[i].buf.backlog() <= after[next[i].ns] by {
        if i < done.len() {
            assert(next[i] == done[i]);
        }
    }
    assert forall|ns: Seq<char>| #[trigger] after.contains_key(ns) implies exists|i: int|
        0 <= i < next.len() && (#[trigger] next[i]).ns == ns && next[i].buf.backlog()
            == after[ns] by {
        if ns == sub.ns && !(map.contains_key(sub.ns) && map[sub.ns] >= n) {
            assert(next[done.len() as int].ns == ns);
        } else {
            assert(map.contains_key(ns));
            let i = choose|i: int|
                0 <= i < done.len() && (#[trigger] done[i]).ns == ns && done[i].buf.backlog()
                    == map[ns];
            assert(next[i] == done[i]);
        }
    }
}

/// The namespaces and numbers of a backlog map.
pub open spec fn backlog_views(v: Seq<(String, usize)>) -> Seq<(Seq<char>, usize)> {
    v.map_values(|p: (String, usize)| (p.0@, p.1))
}

/// Whether the path names an array index, which the index does not
/// understand.
pub open spec fn has_bracket(path: Seq<char>) -> bool {
    path.contains('[') || path.contains(']')
}

/// Whether a subscriber has the handle `handle`.
pub open spec fn has_sub(subs: Seq<SubscriberView>, handle: u64) -> bool {
    exists|i: int| 0 <= i < subs.len() && (#[trigger] subs[i]).id == handle
}

/// Where the subscriber with the handle `handle` stands.
pub open spec fn sub_position(subs: Seq<SubscriberView>, handle: u64) -> int {
    choose|i: int| 0 <= i < subs.len() && (#[trigger] subs[i]).id == handle
}

/// Whether every subscriber has a handle of its own, below the next one.
pub open spec fn subs_wf(subs: Seq<SubscriberView>, next_sub: u64) -> bool {
    &&& forall|i: int| 0 <= i < subs.len() ==> (#[trigger] subs[i]).id < next_sub
    &&& forall|i: int, j: int| 0 <= i < j < subs.len() ==> (#[trigger] subs[i]).id != (
    #[trigger] subs[j]).id
}

impl StoreView {
    /// A store that was never written, with the buffer limits `config`.
    pub open spec fn empty(config: WatchConfig) -> StoreView {
        StoreView {
            table: Seq::empty(),
            paths: Seq::empty(),
            counters: Map::empty(),
            log: Seq::empty(),
            subs: Seq::empty(),
            next_sub: 0,
            leases: Map::empty(),
            idem: Map::empty(),
            config,
        }
    }

    /// Whether `o` answers a query over `ns` at `now`: it is the current
    /// version of an object of the namespace, has not expired, and meets
    /// every condition.
    pub open spec fn answers(
        self,
        ns: Seq<char>,
        conds: Seq<Condition>,
        now: i64,
        o: ObjectView,
    ) -> bool {
        has_entry(self.table, ns, o.id) && self.table[position(self.table, ns, o.id)].current()
            == o && !expired(o, now) && meets(o, self.paths, conds)
    }

    /// Whether `out` is an answer to a query over `ns` at `now`: every
    /// object in it answers the query and none stands in it twice; with a
    /// limit it holds no more than that many; and unless the limit was
    /// reached, every object that answers the query stands in it.
    pub open spec fn answered(
        self,
        ns: Seq<char>,
        conds: Seq<Condition>,
        limit: Option<usize>,
        now: i64,
        out: Seq<ObjectView>,
    ) -> bool {
        &&& forall|j: int| 0 <= j < out.len() ==> self.answers(ns, conds, now, #[trigger] out[j])
        &&& forall|j: int, k: int|
            0 <= j < k < out.len() ==> (#[trigger] out[j]).id != (#[trigger] out[k]).id
        &&& limit matches Some(l) ==> out.len() <= l
        &&& (limit matches Some(l) ==> out.len() < l) ==> forall|o: ObjectView| #[trigger]
            self.answers(ns, conds, now, o) ==> out.contains(o)
    }

    /// The store after the version `o` was written at the next sequence
    /// number of its namespace: filed, counted, logged and handed to the
    /// subscribers.
    pub open spec fn put(self, o: ObjectView) -> StoreView {
        StoreView {
            table: table_put(self.table, o),
            counters: self.counters.insert(o.ns, o.commit_seq),
            log: self.log.push(EventView::Put(o)),
            subs: fan_out(self.subs, EventView::Put(o), self.config),
            ..self
        }
    }

    /// The store after the object `id` of `ns` was deleted at the sequence
    /// number `seq`.
    pub open spec fn delete(self, ns: Seq<char>, id: Seq<char>, seq: u64) -> StoreView {
        let ev = EventView::Delete { ns, id, commit_seq: seq };
        StoreView {
            table: table_remove(self.table, ns, id),
            counters: self.counters.insert(ns, seq),
            log: self.log.push(ev),
            subs: fan_out(self.subs, ev, self.config),
            ..self
        }
    }

    /// The store after a subscriber to `ns` joined, resuming after `from`
    /// where that is given: its buffer is seeded from the commit log and it
    /// gets the next handle.
    pub open spec fn subscribe(self, ns: Seq<char>, from: Option<u64>) -> StoreView {
        StoreView {
            subs: self.subs.push(
                SubscriberView {
                    id: self.next_sub,
                    ns,
                    buf: BufferView::fresh(from).offer_all(
                        seed_for(self.log, ns, from),
                        self.config,
                    ),
                },
            ),
            next_sub: (self.next_sub + 1) as u64,
            ..self
        }
    }

    /// The buffer of the subscriber with the handle `handle`.
    pub open spec fn buffer_of(self, handle: u64) -> BufferView {
        self.subs[sub_position(self.subs, handle)].buf
    }

    /// The store after the subscriber with the handle `handle` was handed
    /// its next event.
    pub open spec fn advance(self, handle: u64) -> StoreView {
        if has_sub(self.subs, handle) {
            let i = sub_position(self.subs, handle);
            StoreView {
                subs: self.subs.update(
                    i,
                    SubscriberView { buf: self.subs[i].buf.advance(), ..self.subs[i] },
                ),
                ..self
            }
        } else {
            self
        }
    }

    /// The store after the subscriber with the handle `handle` left.
    pub open spec fn unsubscribe(self, handle: u64) -> StoreView {
        if has_sub(self.subs, handle) {
            StoreView { subs: self.subs.remove(sub_position(self.subs, handle)), ..self }
        } else {
            self
        }
    }

    /// The store after `lease` was granted, its token being the next
    /// number of its namespace's counter.
    pub open spec fn grant(self, lease: LeaseView) -> StoreView {
        StoreView {
            leases: self.leases.insert((lease.ns, lease.key), lease),
            counters: self.counters.insert(lease.ns, lease.token),
            ..self
        }
    }

    /// The store after the path was registered for the namespace.
    pub open spec fn register(self, ns: Seq<char>, path: Seq<char>) -> StoreView {
        if self.paths.contains((ns, path)) {
            self
        } else {
            StoreView { paths: self.paths.push((ns, path)), ..self }
        }
    }

    /// The store after a lease read from the log was installed again, and
    /// the counter of its namespace raised to its token where it was lower.
    pub open spec fn replay_lease(self, lease: LeaseView) -> StoreView {
        StoreView {
            leases: self.leases.insert((lease.ns, lease.key), lease),
            counters: self.counters.insert(
                lease.ns,
                if counter_of(self.counters, lease.ns) >= lease.token {
                    counter_of(self.counters, lease.ns)
                } else {
                    lease.token
                },
            ),
            ..self
        }
    }

    /// The store after a release read from the log was applied again: the
    /// lease goes where exactly that owner held it with that token.
    pub open spec fn replay_release(
        self,
        ns: Seq<char>,
        key: Seq<char>,
        owner: Seq<char>,
        token: u64,
    ) -> StoreView {
        if held_exactly(self.leases, ns, key, owner, token) {
            StoreView { leases: self.leases.remove((ns, key)), ..self }
        } else {
            self
        }
    }

    /// The store after an idempotency record read from the log was
    /// installed again. A record whose response is not JSON is left out.
    pub open spec fn replay_idempotency(
        self,
        ns: Seq<char>,
        key: Seq<char>,
        body_hash: Seq<char>,
        response: Seq<char>,
        commit_seq: u64,
        expires_at: i64,
    ) -> StoreView {
        match response_hash_of(response) {
            Some(response_hash) => StoreView {
                idem: self.idem.insert(
                    (ns, key),
                    IdempotencyView {
                        ns,
                        key,
                        body_hash,
                        response_hash,
                        commit_seq,
                        expires_at,
                        response,
                    },
                ),
                ..self
            },
            None => self,
        }
    }

    /// The store after the version `o`, read from the log, was filed again:
    /// filed and logged, and the counter of its namespace raised to its
    /// sequence number where it was lower. Subscribers are not told.
    pub open spec fn replay_put(self, o: ObjectView) -> StoreView {
        StoreView {
            table: table_put(self.table, o),
            counters: self.counters.insert(
                o.ns,
                if counter_of(self.counters, o.ns) >= o.commit_seq {
                    counter_of(self.counters, o.ns)
                } else {
                    o.commit_seq
                },
            ),
            log: self.log.push(EventView::Put(o)),
            ..self
        }
    }

    /// The store after a version taken from a snapshot was filed: filed,
    /// and the counter of its namespace raised to its sequence number where it
    /// was lower. The commit log is left as it is: it holds what the log on
    /// disk gives, each change once.
    pub open spec fn seed(self, o: ObjectView) -> StoreView {
        StoreView {
            table: table_put(self.table, o),
            counters: self.counters.insert(
                o.ns,
                if counter_of(self.counters, o.ns) >= o.commit_seq {
                    counter_of(self.counters, o.ns)
                } else {
                    o.commit_seq
                },
            ),
            ..self
        }
    }

    /// The store after a delete read from the log was applied again: the
    /// object goes, the delete is logged under the number `seq` it was given,
    /// and the counter of its namespace is raised to that number where it was
    /// lower. Subscribers are not told.
    pub open spec fn replay_delete(self, ns: Seq<char>, id: Seq<char>, seq: u64) -> StoreView {
        StoreView {
            table: table_remove(self.table, ns, id),
            counters: self.counters.insert(
                ns,
                if counter_of(self.counters, ns) >= seq {
                    counter_of(self.counters, ns)
                } else {
                    seq
                },
            ),
            log: self.log.push(EventView::Delete { ns, id, commit_seq: seq }),
            ..self
        }
    }
}

/// The views of a list of subscribers.
pub closed spec fn sub_views(v: Seq<Subscriber>) -> Seq<SubscriberView> {
    v.map_values(|s: Subscriber| s@)
}

impl View for InMemoryStore {
    type V = StoreView;

    closed spec fn view(&self) -> StoreView {
        StoreView {
            table: self.table@,
            paths: text_pairs(self.paths@),
            counters: self.clock@,
            log: event_views(self.log@),
            subs: sub_views(self.subs@),
            next_sub: self.next_sub,
            leases: self.leases@,
            idem: self.idem@,
            config: self.config,
        }
    }
}

/// Filing a version and posting it under exactly the attributes it carries,
/// in place of its object's earlier postings, keeps the index consistent.
proof fn lemma_put_keeps_consistent(
    idx: Set<PostingView>,
    after: Set<PostingView>,
    t: TableView,
    paths: Seq<(Seq<char>, Seq<char>)>,
    o: ObjectView,
)
    requires
        table_wf(t),
        consistent(idx, t, paths),
        forall|q: PostingView|
            #[trigger] after.contains(q) <==> if q.ns == o.ns && q.id == o.id {
                carries(o, paths, q.kind, q.key, q.value)
            } else {
                idx.contains(q)
            },
    ensures
        consistent(after, table_put(t, o), paths),
{
    lemma_table_put(t, o);
    let u = table_put(t, o);
    assert forall|q: PostingView| #[trigger] after.contains(q) <==> owed(u, paths, q) by {
        if q.ns == o.ns && q.id == o.id {
        } else {
            assert(idx.contains(q) <==> owed(t, paths, q));
        }
    }
}

/// Removing an object and withdrawing its postings keeps the index
/// consistent.
proof fn lemma_remove_keeps_consistent(
    idx: Set<PostingView>,
    after: Set<PostingView>,
    t: TableView,
    paths: Seq<(Seq<char>, Seq<char>)>,
    ns: Seq<char>,
    id: Seq<char>,
)
    requires
        table_wf(t),
        consistent(idx, t, paths),
        forall|q: PostingView|
            #[trigger] after.contains(q) <==> idx.contains(q) && !(q.ns == ns && q.id == id),
    ensures
        consistent(after, table_remove(t, ns, id), paths),
{
    lemma_table_remove(t, ns, id);
    let u = table_remove(t, ns, id);
    assert forall|q: PostingView| #[trigger] after.contains(q) <==> owed(u, paths, q) by {
        assert(idx.contains(q) <==> owed(t, paths, q));
    }
}

/// Registering a path and posting every object of the namespace under the
/// value its current version holds there keeps the index consistent.
proof fn lemma_register_keeps_consistent(
    idx: Set<PostingView>,
    after: Set<PostingView>,
    t: TableView,
    paths: Seq<(Seq<char>, Seq<char>)>,
    ns: Seq<char>,
    path: Seq<char>,
)
    requires
        table_wf(t),
        consistent(idx, t, paths),
        !paths.contains((ns, path)),
        forall|q: PostingView|
            #[trigger] after.contains(q) <==> idx.contains(q) || (q.kind == AttrKind::Json && q.ns
                == ns && q.key == path && has_entry(t, ns, q.id) && json_pointer_value(
                t[position(t, ns, q.id)].current().body,
                pointer_of_path(path),
            ) == Some(q.value)),
    ensures
        consistent(after, t, paths.push((ns, path))),
{
    let grown = paths.push((ns, path));
    assert forall|pair: (Seq<char>, Seq<char>)|
        grown.contains(pair) <==> paths.contains(pair) || pair == (ns, path) by {
        if paths.contains(pair) {
            let i = choose|i: int| 0 <= i < paths.len() && paths[i] == pair;
            assert(grown[i] == pair);
        }
        if pair == (ns, path) {
            assert(grown[paths.len() as int] == pair);
        }
        if grown.contains(pair) {
            let i = choose|i: int| 0 <= i < grown.len() && grown[i] == pair;
            if i < paths.len() {
                assert(paths[i] == pair);
            }
        }
    }
    assert forall|q: PostingView| #[trigger] after.contains(q) <==> owed(t, grown, q) by {
        assert(idx.contains(q) <==> owed(t, paths, q));
        if has_entry(t, q.ns, q.id) {
            let i = position(t, q.ns, q.id);
            let k = t[i].versions.len() - 1;
            assert(t[i].versions[k].ns == t[i].ns);
            assert(t[i].current().ns == q.ns);
        }
    }
}

impl InMemoryStore {
    /// Whether the engine's parts are sound and agree: the table has one
    /// entry per object, the index is consistent with the current versions,
    /// and every subscriber has a handle of its own.
    pub closed spec fn wf(&self) -> bool {
        &&& self.table.wf()
        &&& self.index.wf()
        &&& self.clock.wf()
        &&& self.leases.wf()
        &&& self.idem.wf()
        &&& consistent(self.index@, self.table@, text_pairs(self.paths@))
        &&& subs_wf(sub_views(self.subs@), self.next_sub)
    }

    /// The postings the index holds.
    pub closed spec fn postings(&self) -> Set<PostingView> {
        self.index@
    }

    /// Index consistency: in a sound engine an object is posted under an
    /// attribute exactly when its current version carries it.
    pub proof fn lemma_index_is_consistent(&self)
        requires
            self.wf(),
        ensures
            consistent(self.postings(), self@.table, self@.paths),
    {
    }

    /// What `wf` says of the engine's view.
    pub proof fn lemma_wf_view(&self)
        requires
            self.wf(),
        ensures
            table_wf(self@.table),
            subs_wf(self@.subs, self@.next_sub),
    {
    }

    /// An empty engine with the standard buffer limits.
    pub fn new() -> (store: InMemoryStore)
        ensures
            store.wf(),
            store@ == StoreView::empty(WatchConfig::standard_view()),
    {
        InMemoryStore::with_config(WatchConfig::standard())
    }

    /// An empty engine whose subscribers' buffers have the limits `config`.
    pub fn with_config(config: WatchConfig) -> (store: InMemoryStore)
        ensures
            store.wf(),
            store@ == StoreView::empty(config),
    {
        let store = InMemoryStore {
            table: ObjectTable::new(),
            index: AttributeIndex::new(),
            paths: Vec::new(),
            clock: CommitClock::new(),
            log: Vec::new(),
            subs: Vec::new(),
            next_sub: 0,
            leases: LeaseTable::new(),
            idem: IdempotencyStore::new(),
            config,
        };
        proof {
            assert(store@.paths =~= Seq::empty());
            assert(store@.log =~= Seq::empty());
            assert(store@.subs =~= Seq::empty());
        }
        store
    }

    /// Posts the version `o` under the attributes it carries, in place of
    /// whatever its object was posted under.
    fn reindex(&mut self, o: &Object)
        requires
            old(self).index.wf(),
        ensures
            final(self).index.wf(),
            final(self).table == old(self).table,
            final(self).paths == old(self).paths,
            final(self).clock == old(self).clock,
            final(self).log == old(self).log,
            final(self).subs == old(self).subs,
            final(self).next_sub == old(self).next_sub,
            final(self).leases == old(self).leases,
            final(self).idem == old(self).idem,
            final(self).config == old(self).config,
            forall|q: PostingView|
                #[trigger] final(self).index@.contains(q) <==> if q.ns == o@.ns && q.id == o@.id {
                    carries(o@, text_pairs(old(self).paths@), q.kind, q.key, q.value)
                } else {
                    old(self).index@.contains(q)
                },
    {
        let ns = o.ns.as_str();
        let id = o.id.as_str();
        let ghost paths = text_pairs(self.paths@);
        let ghost base = self.index@;
        self.index.drop_object(ns, id);
        let mut j: usize = 0;
        let tags = o.tags.pairs();
        while j < tags.len()
            invariant
                j <= tags@.len(),
                text_pairs(tags@) == o@.tags,
                ns@ == o@.ns,
                id@ == o@.id,
                self.index.wf(),
                self.table == old(self).table,
                self.paths == old(self).paths,
                self.clock == old(self).clock,
                self.log == old(self).log,
                self.subs == old(self).subs,
                self.next_sub == old(self).next_sub,
                self.leases == old(self).leases,
                self.idem == old(self).idem,
                self.config == old(self).config,
                forall|q: PostingView|
                    #[trigger] self.index@.contains(q) <==> if q.ns == o@.ns && q.id == o@.id {
                        q.kind == AttrKind::Tag && exists|a: int|
                            0 <= a < j && #[trigger] o@.tags[a] == (q.key, q.value)
                    } else {
                        base.contains(q)
                    },
            decreases tags@.len() - j,
        {
            let ghost before = self.index@;
            let pair = &tags[j];
            assert(o@.tags[j as int] == (pair.0@, pair.1@));
            self.index.add(AttrKind::Tag, ns, pair.0.as_str(), pair.1.as_str(), id);
            proof {
                let added = PostingView {
                    kind: AttrKind::Tag,
                    ns: ns@,
                    key: pair.0@,
                    value: pair.1@,
                    id: id@,
                };
                assert forall|q: PostingView| #[trigger]
                    self.index@.contains(q) <==> if q.ns == o@.ns && q.id == o@.id {
                        q.kind == AttrKind::Tag && exists|a: int|
                            0 <= a < j + 1 && #[trigger] o@.tags[a] == (q.key, q.value)
                    } else {
                        base.contains(q)
                    } by {
                    assert(self.index@.contains(q) <==> before.contains(q) || q == added);
                    if q.ns == o@.ns && q.id == o@.id && q.kind == AttrKind::Tag {
                        if exists|a: int| 0 <= a < j + 1 && #[trigger] o@.tags[a] == (q.key, q.value) {
                            let a = choose|a: int|
                                0 <= a < j + 1 && #[trigger] o@.tags[a] == (q.key, q.value);
                            if a == j {
                                assert(q == added);
                            }
                        }
                    }
                }
            }
            j += 1;
        }
        let mut p: usize = 0;
        while p < self.paths.len()
            invariant
                p <= self.paths@.len(),
                ns@ == o@.ns,
                id@ == o@.id,
                paths == text_pairs(self.paths@),
                self.index.wf(),
                self.table == old(self).table,
                self.paths == old(self).paths,
                self.clock == old(self).clock,
                self.log == old(self).log,
                self.subs == old(self).subs,
                self.next_sub == old(self).next_sub,
                self.leases == old(self).leases,
                self.idem == old(self).idem,
                self.config == old(self).config,
                forall|q: PostingView|
                    #[trigger] self.index@.contains(q) <==> if q.ns == o@.ns && q.id == o@.id {
                        match q.kind {
                            AttrKind::Tag => o@.tags.contains((q.key, q.value)),
                            AttrKind::Json => json_pointer_value(o@.body, pointer_of_path(q.key))
                                == Some(q.value) && exists|a: int|
                                0 <= a < p && #[trigger] paths[a] == (o@.ns, q.key),
                        }
                    } else {
                        base.contains(q)
                    },
            decreases self.paths@.len() - p,
        {
            let ghost before = self.index@;
            if self.paths[p].0.as_str().eq(ns) {
                let pointer = json_pointer_from_path(self.paths[p].1.as_str());
                match json_lookup(o.body.as_str(), pointer.as_str()) {
                    Some(value) => {
                        self.index.add(
                            AttrKind::Json,
                            ns,
                            self.paths[p].1.as_str(),
                            value.as_str(),
                            id,
                        );
                    },
                    None => {},
                }
            }
            proof {
                let path = self.paths@[p as int].1@;
                assert(paths[p as int] == (self.paths@[p as int].0@, path));
                assert forall|q: PostingView| #[trigger]
                    self.index@.contains(q) <==> if q.ns == o@.ns && q.id == o@.id {
                        match q.kind {
                            AttrKind::Tag => o@.tags.contains((q.key, q.value)),
                            AttrKind::Json => json_pointer_value(o@.body, pointer_of_path(q.key))
                                == Some(q.value) && exists|a: int|
                                0 <= a < p + 1 && #[trigger] paths[a] == (o@.ns, q.key),
                        }
                    } else {
                        base.contains(q)
                    } by {
                    if q.ns == o@.ns && q.id == o@.id && q.kind == AttrKind::Json {
                        if exists|a: int| 0 <= a < p + 1 && #[trigger] paths[a] == (o@.ns, q.key) {
                            let a = choose|a: int|
                                0 <= a < p + 1 && #[trigger] paths[a] == (o@.ns, q.key);
                            if a < p {
                                assert(exists|a: int|
                                    0 <= a < p && #[trigger] paths[a] == (o@.ns, q.key));
                            }
                        }
                        if exists|a: int| 0 <= a < p && #[trigger] paths[a] == (o@.ns, q.key) {
                            let a = choose|a: int|
                                0 <= a < p && #[trigger] paths[a] == (o@.ns, q.key);
                            assert(0 <= a < p + 1 && paths[a] == (o@.ns, q.key));
                        }
                    }
                }
            }
            p += 1;
        }
    }

    /// The last commit sequence number handed out in `ns`; zero where there
    /// was none.
    pub fn counter(&self, ns: &str) -> (value: u64)
        requires
            self.wf(),
        ensures
            value == counter_of(self@.counters, ns@),
    {
        self.clock.current(ns)
    }

    /// The limits of the subscribers' buffers.
    pub fn config(&self) -> (cfg: WatchConfig)
        ensures
            cfg == self@.config,
    {
        self.config
    }

    /// Files the version `o` and brings the index up to date.
    fn file(&mut self, o: Object)
        requires
            old(self).wf(),
        ensures
            final(self).wf(),
            final(self)@ == (StoreView { table: table_put(old(self)@.table, o@), ..old(self)@ }),
    {
        proof {
            lemma_table_put(self.table@, o@);
        }
        let ghost idx = self.index@;
        self.reindex(&o);
        proof {
            lemma_put_keeps_consistent(
                idx,
                self.index@,
                self.table@,
                text_pairs(self.paths@),
                o@,
            );
        }
        self.table.put(o);
    }

    /// Hands the change `ev` to every subscriber of its namespace.
    fn tell(&mut self, ev: &WatchEvent)
        requires
            old(self).wf(),
        ensures
            final(self).wf(),
            final(self)@ == (StoreView {
                subs: fan_out(old(self)@.subs, ev@, old(self)@.config),
                ..old(self)@
            }),
    {
        let cfg = self.config;
        let ghost before = sub_views(self.subs@);
        let mut i: usize = 0;
        while i < self.subs.len()
            invariant
                i <= self.subs@.len(),
                cfg == self.config,
                before == sub_views(old(self).subs@),
                self.subs@.len() == before.len(),
                self.table == old(self).table,
                self.index == old(self).index,
                self.paths == old(self).paths,
                self.clock == old(self).clock,
                self.log == old(self).log,
                self.next_sub == old(self).next_sub,
                self.leases == old(self).leases,
                self.idem == old(self).idem,
                self.config == old(self).config,
                forall|j: int|
                    0 <= j < i ==> (#[trigger] self.subs@[j])@ == fan_out(before, ev@, cfg)[j],
                forall|j: int| i <= j < before.len() ==> (#[trigger] self.subs@[j])@ == before[j],
            decreases self.subs@.len() - i,
        {
            let ghost prior = self.subs@;
            if self.subs[i].ns.as_str().eq(ev.namespace()) {
                self.subs[i].buf.push(ev.clone(), &cfg);
            }
            proof {
                assert(forall|j: int| 0 <= j < prior.len() && j != i ==> self.subs@[j] == prior[j]);
                assert(self.subs@[i as int]@ == fan_out(before, ev@, cfg)[i as int]);
            }
            i += 1;
        }
        proof {
            assert(sub_views(self.subs@) =~= fan_out(before, ev@, cfg));
        }
    }

    /// Appends the change `ev` to the commit log.
    fn record(&mut self, ev: WatchEvent)
        requires
            old(self).wf(),
        ensures
            final(self).wf(),
            final(self)@ == (StoreView { log: old(self)@.log.push(ev@), ..old(self)@ }),
    {
        let ghost view = ev@;
        let ghost before = self.log@;
        self.log.push(ev);
        proof {
            assert(event_views(before.push(ev)) =~= event_views(before).push(view));
        }
    }

    /// Writes a version of an object in `ns` at the instant `now`: hands out
    /// the next commit sequence number of the namespace, files the version,
    /// brings the index up to date, logs the change and tells the
    /// subscribers. `fresh` becomes the id where the request names none.
    ///
    /// Fails, with nothing changed, only where the namespace's counter has
    /// reached the end of its range.
    pub fn put_at(&mut self, ns: &str, req: PutRequest, fresh: String, now: i64) -> (out: Result<
        Object,
        StateError,
    >)
        requires
            old(self).wf(),
        ensures
            final(self).wf(),
            match out {
                Ok(o) => counter_of(old(self)@.counters, ns@) < u64::MAX && o@ == assembled(
                    ns@,
                    req@,
                    (counter_of(old(self)@.counters, ns@) + 1) as u64,
                    fresh@,
                    now,
                ) && is_hex_digest(o@.commit) && distinct_keys(o@.tags) && final(self)@ == old(
                    self,
                )@.put(o@),
                Err(e) => counter_of(old(self)@.counters, ns@) == u64::MAX && final(self)@ == old(
                    self,
                )@ && e.is_internal("commit sequence exhausted"@),
            },
    {
        let seq: u64 = match self.clock.bump(ns) {
            Some(n) => n,
            None => {
                return Err(StateError::internal("commit sequence exhausted"));
            },
        };
        let o = Object::build(ns.to_owned(), req, seq, fresh, now);
        self.file(o.clone());
        let ev = WatchEvent::Put(o.clone());
        self.tell(&ev);
        self.record(ev);
        Ok(o)
    }

    /// Writes a version of an object in `ns` at the instant `now`, for a
    /// writer that claims the lease on `resource` by presenting `fence`. The
    /// fence is checked first: where it does not hold, the write is a conflict
    /// and nothing changes. Where it holds, the write goes on as an unfenced
    /// one.
    pub fn put_fenced_at(
        &mut self,
        ns: &str,
        req: PutRequest,
        resource: &str,
        fence: u64,
        fresh: String,
        now: i64,
    ) -> (out: Result<Object, StateError>)
        requires
            old(self).wf(),
        ensures
            final(self).wf(),
            match out {
                Ok(o) => fence_holds(old(self)@.leases, ns@, resource@, fence, now) && counter_of(
                    old(self)@.counters,
                    ns@,
                ) < u64::MAX && o@ == assembled(
                    ns@,
                    req@,
                    (counter_of(old(self)@.counters, ns@) + 1) as u64,
                    fresh@,
                    now,
                ) && is_hex_digest(o@.commit) && final(self)@ == old(self)@.put(o@),
                Err(e) => final(self)@ == old(self)@ && if !fence_holds(
                    old(self)@.leases,
                    ns@,
                    resource@,
                    fence,
                    now,
                ) {
                    e.is_conflict("fence mismatch"@)
                } else {
                    counter_of(old(self)@.counters, ns@) == u64::MAX && e.is_internal(
                        "commit sequence exhausted"@,
                    )
                },
            },
    {
        match self.validate_fence_at(ns, resource, fence, now) {
            Ok(_) => {},
            Err(e) => {
                return Err(e);
            },
        }
        self.put_at(ns, req, fresh, now)
    }

    /// Writes a version of an object in `ns`, now. Where the request names
    /// no id, a ULID is drawn.
    pub fn put(&mut self, ns: &str, req: PutRequest) -> (out: Result<Object, StateError>)
        requires
            old(self).wf(),
        ensures
            final(self).wf(),
            match out {
                Ok(o) => counter_of(old(self)@.counters, ns@) < u64::MAX && final(self)@ == old(
                    self,
                )@.put(o@) && o@.commit_seq == counter_of(old(self)@.counters, ns@) + 1
                    && is_hex_digest(o@.commit) && distinct_keys(o@.tags) && (req@.id is None
                    ==> o@.id.len() == 26)
                    && exists|fresh: Seq<char>, now: i64|
                    o@ == #[trigger] assembled(ns@, req@, o@.commit_seq, fresh, now),
                Err(e) => counter_of(old(self)@.counters, ns@) == u64::MAX && final(self)@ == old(
                    self,
                )@ && e.is_internal("commit sequence exhausted"@),
            },
    {
        let fresh = match &req.id {
            Some(_) => String::new(),
            None => fresh_ulid(),
        };
        let now = now_or_end();
        self.put_at(ns, req, fresh, now)
    }

    /// Files again a version read from the log: the version, the index and
    /// the commit log are brought up to date, and the counter of the
    /// namespace is raised to the version's sequence number where it was
    /// lower. Subscribers are not told.
    pub fn replay_put(&mut self, o: Object)
        requires
            old(self).wf(),
        ensures
            final(self).wf(),
            final(self)@ == old(self)@.replay_put(o@),
    {
        self.clock.raise_to(o.ns.as_str(), o.commit_seq);
        self.file(o.clone());
        self.record(WatchEvent::Put(o));
    }

    /// Files a version taken from a snapshot: the version and the index are
    /// brought up to date, and the counter of the namespace is raised to the
    /// version's sequence number where it was lower. Nothing is logged and
    /// subscribers are not told.
    pub fn seed(&mut self, o: Object)
        requires
            old(self).wf(),
        ensures
            final(self).wf(),
            final(self)@ == old(self)@.seed(o@),
    {
        self.clock.raise_to(o.ns.as_str(), o.commit_seq);
        self.file(o);
    }

    /// Applies again a delete read from the log: the object goes, with its
    /// postings, the delete is logged under `commit_seq`, the number it was
    /// given, and the counter of the namespace is raised to that number where
    /// it was lower. Subscribers are not told.
    pub fn replay_delete(&mut self, ns: &str, id: &str, commit_seq: u64)
        requires
            old(self).wf(),
        ensures
            final(self).wf(),
            final(self)@ == old(self)@.replay_delete(ns@, id@, commit_seq),
    {
        self.clock.raise_to(ns, commit_seq);
        self.unfile(ns, id);
        self.record(WatchEvent::Delete { ns: ns.to_owned(), id: id.to_owned(), commit_seq });
    }

    /// Removes the object `id` of `ns`, if there is one, with its postings.
    fn unfile(&mut self, ns: &str, id: &str) -> (existed: bool)
        requires
            old(self).wf(),
        ensures
            final(self).wf(),
            existed == has_entry(old(self)@.table, ns@, id@),
            final(self)@ == (StoreView {
                table: table_remove(old(self)@.table, ns@, id@),
                ..old(self)@
            }),
    {
        let ghost idx = self.index@;
        let ghost t = self.table@;
        let existed = self.table.remove(ns, id);
        if existed {
            self.index.drop_object(ns, id);
            proof {
                lemma_remove_keeps_consistent(
                    idx,
                    self.index@,
                    t,
                    text_pairs(self.paths@),
                    ns@,
                    id@,
                );
            }
        }
        existed
    }

    /// Deletes the object `id` of `ns` with all its versions: hands out the
    /// next commit sequence number of the namespace, logs the delete and
    /// tells the subscribers.
    ///
    /// An object that does not exist is not found. Where the namespace's
    /// counter has reached the end of its range the delete fails. Either way
    /// nothing changes.
    pub fn delete(&mut self, ns: &str, id: &str) -> (out: Result<(), StateError>)
        requires
            old(self).wf(),
        ensures
            final(self).wf(),
            match out {
                Ok(_) => has_entry(old(self)@.table, ns@, id@) && counter_of(
                    old(self)@.counters,
                    ns@,
                ) < u64::MAX && final(self)@ == old(self)@.delete(
                    ns@,
                    id@,
                    (counter_of(old(self)@.counters, ns@) + 1) as u64,
                ),
                Err(e) => final(self)@ == old(self)@ && if !has_entry(old(self)@.table, ns@, id@) {
                    e is NotFound
                } else {
                    counter_of(old(self)@.counters, ns@) == u64::MAX && e.is_internal(
                        "commit sequence exhausted"@,
                    )
                },
            },
    {
        if self.table.find(ns, id).is_none() {
            return Err(StateError::NotFound);
        }
        let seq: u64 = match self.clock.bump(ns) {
            Some(n) => n,
            None => {
                return Err(StateError::internal("commit sequence exhausted"));
            },
        };
        self.unfile(ns, id);
        let ev = WatchEvent::Delete { ns: ns.to_owned(), id: id.to_owned(), commit_seq: seq };
        self.tell(&ev);
        self.record(ev);
        Ok(())
    }

    /// Reads the object `id` of `ns` as of the instant `now`: the newest
    /// version that was written no later than `opts.at_ts`, where that is
    /// given, and has not expired. Not found where there is no such version.
    pub fn get_at(&self, ns: &str, id: &str, opts: GetOptions, now: i64) -> (out: Result<
        Object,
        StateError,
    >)
        requires
            self.wf(),
        ensures
            match out {
                Ok(o) => read_of(self@.table, ns@, id@, opts.at_ts, now) == Some(o@),
                Err(e) => e is NotFound && read_of(self@.table, ns@, id@, opts.at_ts, now) is None,
            },
    {
        let at = match self.table.find(ns, id) {
            Some(i) => i,
            None => {
                return Err(StateError::NotFound);
            },
        };
        let versions = self.table.versions_at(at);
        let ghost all = object_views(versions@);
        let mut k: usize = versions.len();
        assert(all.take(k as int) =~= all);
        while k > 0
            invariant
                k <= versions@.len(),
                all == object_views(versions@),
                read_of(self@.table, ns@, id@, opts.at_ts, now) == visible(
                    all.take(k as int),
                    opts.at_ts,
                    now,
                ),
            decreases k,
        {
            let v = &versions[k - 1];
            let fits = match opts.at_ts {
                Some(t) => v.ts <= t,
                None => true,
            };
            proof {
                assert(all.take(k as int).last() == v@);
                assert(all.take(k as int).drop_last() =~= all.take(k - 1));
            }
            if fits && !is_expired(v, now) {
                return Ok(v.clone());
            }
            k -= 1;
        }
        Err(StateError::NotFound)
    }

    /// Reads the object `id` of `ns` as of now.
    pub fn get(&self, ns: &str, id: &str, opts: GetOptions) -> (out: Result<Object, StateError>)
        requires
            self.wf(),
        ensures
            out matches Err(e) ==> e is NotFound,
            exists|now: i64| #[trigger]
                read_of(self@.table, ns@, id@, opts.at_ts, now) == match out {
                    Ok(o) => Some(o@),
                    Err(_) => None,
                },
    {
        let now = now_or_end();
        self.get_at(ns, id, opts, now)
    }

    /// The current version of every object, in table order.
    pub fn all_objects(&self) -> (out: Vec<Object>)
        requires
            self.wf(),
        ensures
            object_views(out@) == currents(self@.table),
    {
        let mut out: Vec<Object> = Vec::new();
        let mut i: usize = 0;
        while i < self.table.len()
            invariant
                i <= self.table@.len(),
                self.wf(),
                out@.len() == i,
                forall|j: int| 0 <= j < i ==> (#[trigger] out@[j])@ == self.table@[j].current(),
            decreases self.table@.len() - i,
        {
            out.push(self.table.current_at(i).clone());
            i += 1;
        }
        assert(object_views(out@) =~= currents(self@.table));
        out
    }

    /// Whether the current version of the object `id` of `ns` meets every
    /// one of the conditions, as the index has it.
    fn meets_all(&self, ns: &str, id: &str, conds: &Vec<Cond>) -> (b: bool)
        requires
            self.wf(),
            has_entry(self@.table, ns@, id@),
        ensures
            b == meets(
                self@.table[position(self@.table, ns@, id@)].current(),
                self@.paths,
                cond_views(conds@),
            ),
    {
        let ghost cur = self@.table[position(self@.table, ns@, id@)].current();
        let ghost cs = cond_views(conds@);
        let mut c: usize = 0;
        while c < conds.len()
            invariant
                c <= conds@.len(),
                self.wf(),
                has_entry(self@.table, ns@, id@),
                cur == self@.table[position(self@.table, ns@, id@)].current(),
                cs == cond_views(conds@),
                forall|k: int|
                    0 <= k < c ==> carries(
                        cur,
                        self@.paths,
                        (#[trigger] cs[k]).kind,
                        cs[k].key,
                        cs[k].value,
                    ),
            decreases conds@.len() - c,
        {
            let cond = &conds[c];
            let ghost q = posting_for(cs[c as int], ns@, id@);
            assert(cs[c as int] == cond@);
            let posted = self.index.contains(
                cond.kind,
                ns,
                cond.key.as_str(),
                cond.value.as_str(),
                id,
            );
            assert(posted == self.index@.contains(q));
            assert(self.index@.contains(q) <==> owed(self@.table, self@.paths, q));
            if !posted {
                return false;
            }
            c += 1;
        }
        true
    }

    /// The ids among which the answers to a query over `ns` are: those
    /// posted under the first condition or, where there is no condition, every
    /// id of the namespace.
    fn candidates(&self, ns: &str, conds: &Vec<Cond>) -> (ids: Vec<String>)
        requires
            self.wf(),
        ensures
            forall|a: int, b: int|
                0 <= a < b < ids@.len() ==> (#[trigger] ids@[a])@ != (#[trigger] ids@[b])@,
            forall|id: Seq<char>|
                has_entry(self@.table, ns@, id) && meets(
                    self@.table[position(self@.table, ns@, id)].current(),
                    self@.paths,
                    cond_views(conds@),
                ) ==> #[trigger] texts(ids@).contains(id),
    {
        if conds.len() > 0 {
            let first = &conds[0];
            let ids = self.index.ids_for(first.kind, ns, first.key.as_str(), first.value.as_str());
            proof {
                let cs = cond_views(conds@);
                assert(cs[0] == first@);
                assert forall|id: Seq<char>|
                    has_entry(self@.table, ns@, id) && meets(
                        self@.table[position(self@.table, ns@, id)].current(),
                        self@.paths,
                        cs,
                    ) implies #[trigger] texts(ids@).contains(id) by {
                    let q = posting_for(cs[0], ns@, id);
                    assert(carries(
                        self@.table[position(self@.table, ns@, id)].current(),
                        self@.paths,
                        cs[0].kind,
                        cs[0].key,
                        cs[0].value,
                    ));
                    assert(owed(self@.table, self@.paths, q));
                    assert(self.index@.contains(q));
                }
            }
            ids
        } else {
            let mut ids: Vec<String> = Vec::new();
            let ghost mut origin: Seq<int> = Seq::empty();
            let mut i: usize = 0;
            while i < self.table.len()
                invariant
                    i <= self.table@.len(),
                    self.wf(),
                    origin.len() == ids@.len(),
                    forall|a: int|
                        0 <= a < ids@.len() ==> 0 <= #[trigger] origin[a] < i
                            && self@.table[origin[a]].is_for(ns@, ids@[a]@),
                    forall|a: int, b: int| 0 <= a < b < ids@.len() ==> origin[a] < origin[b],
                    forall|j: int|
                        0 <= j < i && (#[trigger] self@.table[j]).ns == ns@ ==> exists|a: int|
                            0 <= a < ids@.len() && #[trigger] origin[a] == j,
                decreases self.table@.len() - i,
            {
                if self.table.ns_at(i).eq(ns) {
                    let ghost old_origin = origin;
                    ids.push(self.table.id_at(i).to_owned());
                    proof {
                        origin = origin.push(i as int);
                        assert forall|j: int|
                            0 <= j < i + 1 && (#[trigger] self@.table[j]).ns == ns@ implies exists|
                            a: int,
                        | 0 <= a < ids@.len() && #[trigger] origin[a] == j by {
                            if j < i {
                                let a = choose|a: int|
                                    0 <= a < old_origin.len() && #[trigger] old_origin[a] == j;
                                assert(origin[a] == j);
                            } else {
                                assert(origin[old_origin.len() as int] == j);
                            }
                        }
                    }
                }
                i += 1;
            }
            proof {
                let t = self@.table;
                assert forall|a: int, b: int| 0 <= a < b < ids@.len() implies (#[trigger] ids@[a])@
                    != (#[trigger] ids@[b])@ by {
                    assert(origin[a] < origin[b]);
                    assert(!t[origin[a]].is_for(t[origin[b]].ns, t[origin[b]].id));
                }
                assert forall|id: Seq<char>| has_entry(t, ns@, id) implies #[trigger] texts(
                    ids@,
                ).contains(id) by {
                    let j = position(t, ns@, id);
                    assert(t[j].is_for(ns@, id));
                    let a = choose|a: int| 0 <= a < ids@.len() && #[trigger] origin[a] == j;
                    assert(texts(ids@)[a] == id);
                }
            }
            ids
        }
    }

    /// Answers a query over the current versions of `ns` as of the instant
    /// `now`.
    ///
    /// Every object returned is the current version of an object of the
    /// namespace, has not expired, and carries every tag and every JSON path
    /// value asked for; none is returned twice. Without a limit every such
    /// object is returned. With a limit no more than that many are; which
    /// ones, where there are more, is not specified. A JSON path that is not
    /// registered for the namespace matches nothing.
    pub fn query_at(&self, ns: &str, req: QueryRequest, now: i64) -> (out: Result<
        Vec<Object>,
        StateError,
    >)
        requires
            self.wf(),
        ensures
            out is Ok,
            self@.answered(ns@, req.conditions(), req.limit, now, object_views(out->Ok_0@)),
    {
        let conds = req.gather();
        let ghost cs = req.conditions();
        let cands = self.candidates(ns, &conds);
        let cap: usize = match req.limit {
            Some(l) => l,
            None => usize::MAX,
        };
        let mut out: Vec<Object> = Vec::new();
        let ghost mut origin: Seq<int> = Seq::empty();
        let mut c: usize = 0;
        while c < cands.len() && out.len() < cap
            invariant
                c <= cands@.len(),
                self.wf(),
                cs == cond_views(conds@),
                out@.len() <= c,
                out@.len() <= cap,
                origin.len() == out@.len(),
                forall|j: int|
                    0 <= j < out@.len() ==> 0 <= #[trigger] origin[j] < c && out@[j]@.id
                        == cands@[origin[j]]@ && self@.answers(ns@, cs, now, out@[j]@),
                forall|j: int, k: int| 0 <= j < k < out@.len() ==> origin[j] < origin[k],
                forall|a: int|
                    0 <= a < c && has_entry(self@.table, ns@, (#[trigger] cands@[a])@) && !expired(
                        self@.table[position(self@.table, ns@, cands@[a]@)].current(),
                        now,
                    ) && meets(
                        self@.table[position(self@.table, ns@, cands@[a]@)].current(),
                        self@.paths,
                        cs,
                    ) ==> exists|j: int| 0 <= j < out@.len() && #[trigger] origin[j] == a,
            decreases cands@.len() - c,
        {
            let id = cands[c].as_str();
            let ghost old_origin = origin;
            let ghost old_out = out@;
            let mut taken: bool = false;
            match self.table.find(ns, id) {
                Some(i) => {
                    let cur = self.table.current_at(i);
                    if !is_expired(cur, now) && self.meets_all(ns, id, &conds) {
                        proof {
                            self.lemma_wf_view();
                            assert(self@.table[i as int].versions.last() == cur@);
                            let k = self@.table[i as int].versions.len() - 1;
                            assert(self@.table[i as int].versions[k].id == self@.table[i as int].id);
                        }
                        out.push(cur.clone());
                        proof {
                            origin = origin.push(c as int);
                        }
                        taken = true;
                    }
                },
                None => {},
            }
            proof {
                assert forall|j: int| 0 <= j < out@.len() implies 0 <= #[trigger] origin[j] < c + 1
                    && out@[j]@.id == cands@[origin[j]]@ && self@.answers(ns@, cs, now, out@[j]@) by {
                    if j < old_out.len() {
                        assert(out@[j] == old_out[j]);
                        assert(origin[j] == old_origin[j]);
                    }
                }
                assert forall|a: int|
                    0 <= a < c + 1 && has_entry(self@.table, ns@, (#[trigger] cands@[a])@)
                        && !expired(
                        self@.table[position(self@.table, ns@, cands@[a]@)].current(),
                        now,
                    ) && meets(
                        self@.table[position(self@.table, ns@, cands@[a]@)].current(),
                        self@.paths,
                        cs,
                    ) implies exists|j: int| 0 <= j < out@.len() && #[trigger] origin[j] == a by {
                    if a < c {
                        let j = choose|j: int|
                            0 <= j < old_out.len() && #[trigger] old_origin[j] == a;
                        assert(origin[j] == a);
                    } else {
                        assert(taken);
                        assert(origin[old_out.len() as int] == a);
                    }
                }
            }
            c += 1;
        }
        proof {
            self.lemma_wf_view();
            let t = self@.table;
            assert forall|j: int| 0 <= j < out@.len() implies self@.answers(
                ns@,
                cs,
                now,
                #[trigger] object_views(out@)[j],
            ) by {
                assert(object_views(out@)[j] == out@[j]@);
                assert(0 <= origin[j]);
            }
            assert forall|j: int, k: int| 0 <= j < k < out@.len() implies (
            #[trigger] object_views(out@)[j]).id != (#[trigger] object_views(out@)[k]).id by {
                assert(origin[j] < origin[k]);
                assert(0 <= origin[j] && origin[k] < c);
                assert(cands@[origin[j]]@ != cands@[origin[k]]@);
                assert(object_views(out@)[j] == out@[j]@ && object_views(out@)[k] == out@[k]@);
            }
            if req.limit matches Some(l) ==> out@.len() < l {
                assert(c == cands@.len());
                assert forall|o: ObjectView| #[trigger]
                    self@.answers(ns@, cs, now, o) implies object_views(out@).contains(o) by {
                    assert(texts(cands@).contains(o.id));
                    let a = choose|a: int| 0 <= a < texts(cands@).len() && texts(cands@)[a] == o.id;
                    assert(cands@[a]@ == o.id);
                    let j = choose|j: int| 0 <= j < out@.len() && #[trigger] origin[j] == a;
                    assert(out@[j]@.id == o.id);
                    assert(self@.answers(ns@, cs, now, out@[j]@));
                    assert(object_views(out@)[j] == o);
                }
            }
        }
        Ok(out)
    }

    /// Answers a query over the current versions of `ns` as of now.
    pub fn query(&self, ns: &str, req: QueryRequest) -> (out: Result<Vec<Object>, StateError>)
        requires
            self.wf(),
        ensures
            out is Ok,
            exists|now: i64| #[trigger]
                self@.answered(ns@, req.conditions(), req.limit, now, object_views(out->Ok_0@)),
    {
        let now = now_or_end();
        self.query_at(ns, req, now)
    }

    /// Removes, as of the instant `now`, every object whose current version
    /// has expired, with its postings, and says how many went. No commit
    /// sequence number is used and no subscriber is told: expiry is silent.
    /// The retention window is not used by this engine.
    pub fn sweep_expired_at(&mut self, retention_secs: u64, now: i64) -> (out: Result<
        u64,
        StateError,
    >)
        requires
            old(self).wf(),
        ensures
            final(self).wf(),
            final(self)@ == (StoreView { table: unexpired(old(self)@.table, now), ..old(self)@ }),
            out matches Ok(n) && n == old(self)@.table.len() - final(self)@.table.len(),
    {
        let ghost before = self.table@;
        let ghost alive = |e: EntryView| !expired(e.current(), now);
        let mut removed: usize = 0;
        let mut i: usize = 0;
        let total: usize = self.table.len();
        proof {
            reveal(Seq::filter);
            assert(before.take(0).filter(alive) =~= self.table@.take(0));
            assert(before.skip(0) =~= self.table@.skip(0));
        }
        while i < self.table.len()
            invariant
                self.wf(),
                total == before.len(),
                alive == |e: EntryView| !expired(e.current(), now),
                i <= self.table@.len(),
                i + removed <= before.len(),
                self.table@.len() + removed == before.len(),
                self.table@.take(i as int) == before.take(i + removed).filter(alive),
                self.table@.skip(i as int) == before.skip(i + removed),
                self.paths == old(self).paths,
                self.clock == old(self).clock,
                self.log == old(self).log,
                self.subs == old(self).subs,
                self.next_sub == old(self).next_sub,
                self.leases == old(self).leases,
                self.idem == old(self).idem,
                self.config == old(self).config,
            decreases self.table@.len() - i,
        {
            let ghost t = self.table@;
            let ghost j = i + removed;
            proof {
                reveal(Seq::filter);
                assert(t[i as int] == t.skip(i as int)[0]);
                assert(before[j] == before.skip(j)[0]);
                assert(before.take(j + 1).drop_last() =~= before.take(j));
                assert(before.take(j + 1).last() == before[j]);
            }
            if is_expired(self.table.current_at(i), now) {
                let ns = self.table.ns_at(i).to_owned();
                let id = self.table.id_at(i).to_owned();
                let ghost idx = self.index@;
                self.table.remove_at(i);
                self.index.drop_object(ns.as_str(), id.as_str());
                proof {
                    lemma_remove_keeps_consistent(
                        idx,
                        self.index@,
                        t,
                        text_pairs(self.paths@),
                        ns@,
                        id@,
                    );
                    assert(self.table@.take(i as int) =~= t.take(i as int));
                    assert(self.table@.skip(i as int) =~= t.skip(i + 1));
                    assert(t.skip(i + 1) =~= t.skip(i as int).skip(1));
                    assert(before.skip(j + 1) =~= before.skip(j).skip(1));
                }
                removed += 1;
            } else {
                proof {
                    assert(t.take(i + 1) =~= t.take(i as int).push(t[i as int]));
                    assert(t.skip(i + 1) =~= t.skip(i as int).skip(1));
                    assert(before.skip(j + 1) =~= before.skip(j).skip(1));
                }
                i += 1;
            }
        }
        proof {
            assert(self.table@.take(i as int) =~= self.table@);
            assert(before.take(i + removed) =~= before);
        }
        Ok(removed as u64)
    }

    /// Removes every object whose current version has expired by now.
    pub fn sweep_expired(&mut self, retention_secs: u64) -> (out: Result<u64, StateError>)
        requires
            old(self).wf(),
        ensures
            final(self).wf(),
            out matches Ok(n) && n == old(self)@.table.len() - final(self)@.table.len(),
            exists|now: i64|
                final(self)@ == (StoreView {
                    table: #[trigger] unexpired(old(self)@.table, now),
                    ..old(self)@
                }),
    {
        let now = now_or_end();
        self.sweep_expired_at(retention_secs, now)
    }

    /// Joins a subscriber to the changes of a namespace and gives it a
    /// handle. Where the subscriber resumes after a commit, its buffer is
    /// seeded with the changes logged after that commit, each offered like
    /// any later change, so that a backlog beyond the buffer's limits marks
    /// the buffer as overflowed.
    ///
    /// Fails, with nothing changed, only where the handles have run out.
    pub fn subscribe(&mut self, filter: WatchFilter, from_commit: Option<u64>) -> (out: Result<
        u64,
        StateError,
    >)
        requires
            old(self).wf(),
        ensures
            final(self).wf(),
            match out {
                Ok(handle) => old(self)@.next_sub < u64::MAX && handle == old(self)@.next_sub
                    && final(self)@ == old(self)@.subscribe(filter.ns@, from_commit),
                Err(e) => old(self)@.next_sub == u64::MAX && final(self)@ == old(self)@
                    && e.is_internal("subscriber handles exhausted"@),
            },
    {
        if self.next_sub == u64::MAX {
            return Err(StateError::internal("subscriber handles exhausted"));
        }
        let cfg = self.config;
        let mut buf = WatchBuffer::new(from_commit);
        let ghost log = event_views(self.log@);
        match from_commit {
            Some(k) => {
                let ghost wanted = |e: EventView| e.ns() == filter.ns@ && e.seq() > k;
                let mut i: usize = 0;
                proof {
                    reveal(Seq::filter);
                    assert(log.take(0).filter(wanted) =~= Seq::<EventView>::empty());
                }
                while i < self.log.len()
                    invariant
                        i <= self.log@.len(),
                        log == event_views(self.log@),
                        wanted == |e: EventView| e.ns() == filter.ns@ && e.seq() > k,
                        buf@ == BufferView::fresh(from_commit).offer_all(
                            log.take(i as int).filter(wanted),
                            cfg,
                        ),
                    decreases self.log@.len() - i,
                {
                    let ev = &self.log[i];
                    proof {
                        reveal(Seq::filter);
                        assert(log.take(i + 1).drop_last() =~= log.take(i as int));
                        assert(log.take(i + 1).last() == ev@);
                        let so_far = log.take(i as int).filter(wanted);
                        assert(so_far.push(ev@).drop_last() =~= so_far);
                    }
                    if ev.namespace().eq(filter.ns.as_str()) && ev.commit_seq() > k {
                        buf.push(ev.clone(), &cfg);
                    }
                    i += 1;
                }
                proof {
                    assert(log.take(i as int) =~= log);
                }
            },
            None => {},
        }
        let handle: u64 = self.next_sub;
        let ghost before = self.subs@;
        let sub = Subscriber { id: handle, ns: filter.ns, buf };
        self.subs.push(sub);
        self.next_sub = handle + 1;
        proof {
            assert(sub_views(before.push(sub)) =~= sub_views(before).push(sub@));
            let subs = sub_views(self.subs@);
            assert forall|a: int, b: int| 0 <= a < b < subs.len() implies (#[trigger] subs[a]).id != (
            #[trigger] subs[b]).id by {
                assert(subs[a] == sub_views(before)[a]);
                if b < before.len() {
                    assert(subs[b] == sub_views(before)[b]);
                }
            }
            assert forall|a: int| 0 <= a < subs.len() implies (#[trigger] subs[a]).id
                < self.next_sub by {
                if a < before.len() {
                    assert(subs[a] == sub_views(before)[a]);
                }
            }
        }
        Ok(handle)
    }

    fn find_sub(&self, handle: u64) -> (at: Option<usize>)
        requires
            self.wf(),
        ensures
            match at {
                Some(i) => has_sub(self@.subs, handle) && i == sub_position(self@.subs, handle)
                    && i < self.subs@.len() && self.subs@[i as int].id == handle,
                None => !has_sub(self@.subs, handle),
            },
    {
        let mut i: usize = 0;
        while i < self.subs.len()
            invariant
                i <= self.subs@.len(),
                self.wf(),
                forall|j: int| 0 <= j < i ==> (#[trigger] self@.subs[j]).id != handle,
            decreases self.subs@.len() - i,
        {
            if self.subs[i].id == handle {
                proof {
                    let subs = self@.subs;
                    assert(subs[i as int].id == handle);
                    let p = sub_position(subs, handle);
                    if p < i {
                        assert(subs[p].id != handle);
                    } else if i < p {
                        assert(subs[i as int].id != subs[p].id);
                    }
                }
                return Some(i);
            }
            i += 1;
        }
        None
    }

    /// Hands the subscriber its next queued event, if it has one, and counts
    /// it as delivered. An unknown handle gets nothing.
    pub fn try_next(&mut self, handle: u64) -> (next: Option<WatchEvent>)
        requires
            old(self).wf(),
        ensures
            final(self).wf(),
            final(self)@ == old(self)@.advance(handle),
            match next {
                Some(ev) => has_sub(old(self)@.subs, handle) && old(self)@.buffer_of(
                    handle,
                ).head() == Some(ev@),
                None => !has_sub(old(self)@.subs, handle) || old(self)@.buffer_of(handle).head()
                    is None,
            },
    {
        match self.find_sub(handle) {
            Some(i) => {
                let ghost before = self.subs@;
                let next = self.subs[i].buf.try_next();
                proof {
                    assert(forall|j: int|
                        0 <= j < before.len() && j != i ==> self.subs@[j] == before[j]);
                    assert(sub_views(self.subs@) =~= old(self)@.advance(handle).subs);
                    let subs = sub_views(self.subs@);
                    let was = sub_views(before);
                    assert forall|a: int, b: int| 0 <= a < b < subs.len() implies (
                    #[trigger] subs[a]).id != (#[trigger] subs[b]).id by {
                        assert(subs[a].id == was[a].id && subs[b].id == was[b].id);
                    }
                    assert forall|a: int| 0 <= a < subs.len() implies (#[trigger] subs[a]).id
                        < self.next_sub by {
                        assert(subs[a].id == was[a].id);
                    }
                }
                next
            },
            None => None,
        }
    }

    /// The commit sequence number of the last event handed to the
    /// subscriber; `None` for an unknown handle.
    pub fn last_commit(&self, handle: u64) -> (seq: Option<u64>)
        requires
            self.wf(),
        ensures
            match seq {
                Some(n) => has_sub(self@.subs, handle) && n == self@.buffer_of(handle).last_commit,
                None => !has_sub(self@.subs, handle),
            },
    {
        match self.find_sub(handle) {
            Some(i) => Some(self.subs[i].buf.last_commit()),
            None => None,
        }
    }

    /// Once the subscriber's buffer has overflowed, the commit to resume
    /// from and the delay, in milliseconds, suggested before subscribing
    /// again. `None` while it has not, and for an unknown handle.
    pub fn overflow_meta(&self, handle: u64) -> (meta: Option<(u64, u32)>)
        requires
            self.wf(),
        ensures
            meta == if has_sub(self@.subs, handle) {
                self@.buffer_of(handle).overflow_meta(self@.config)
            } else {
                None
            },
    {
        match self.find_sub(handle) {
            Some(i) => self.subs[i].buf.overflow_meta(&self.config),
            None => None,
        }
    }

    /// Releases the subscriber's buffer. Says whether the handle was known;
    /// releasing twice does no harm.
    pub fn unsubscribe(&mut self, handle: u64) -> (known: bool)
        requires
            old(self).wf(),
        ensures
            final(self).wf(),
            known == has_sub(old(self)@.subs, handle),
            final(self)@ == old(self)@.unsubscribe(handle),
            !has_sub(final(self)@.subs, handle),
    {
        match self.find_sub(handle) {
            Some(i) => {
                let ghost before = self.subs@;
                self.subs.remove(i);
                proof {
                    let was = sub_views(before);
                    let subs = sub_views(self.subs@);
                    assert(subs =~= was.remove(i as int));
                    assert(forall|a: int|
                        0 <= a < subs.len() ==> #[trigger] subs[a] == was[if a < i { a } else { a + 1 }]);
                    assert forall|a: int, b: int| 0 <= a < b < subs.len() implies (
                    #[trigger] subs[a]).id != (#[trigger] subs[b]).id by {
                        let a2 = if a < i { a } else { a + 1 };
                        let b2 = if b < i { b } else { b + 1 };
                        assert(subs[a] == was[a2] && subs[b] == was[b2]);
                        assert(was[a2].id != was[b2].id);
                    }
                    assert forall|a: int| 0 <= a < subs.len() implies (#[trigger] subs[a]).id
                        < self.next_sub by {
                        let a2 = if a < i { a } else { a + 1 };
                        assert(subs[a] == was[a2]);
                    }
                    assert(!has_sub(subs, handle)) by {
                        if has_sub(subs, handle) {
                            let a = sub_position(subs, handle);
                            let a2 = if a < i { a } else { a + 1 };
                            assert(subs[a] == was[a2]);
                            if a2 < i {
                                assert(was[a2].id != was[i as int].id);
                            } else {
                                assert(was[i as int].id != was[a2].id);
                            }
                        }
                    }
                }
                true
            },
            None => false,
        }
    }

    /// Raises the number of `ns` in `map` to `n` where it is lower or
    /// missing.
    fn note_backlog(map: &mut Vec<(String, usize)>, ns: &str, n: usize)
        requires
            distinct_keys(backlog_views(old(map)@)),
        ensures
            distinct_keys(backlog_views(final(map)@)),
            ({
                let was = to_map(backlog_views(old(map)@));
                to_map(backlog_views(final(map)@)) == was.insert(
                    ns@,
                    if was.contains_key(ns@) && was[ns@] >= n {
                        was[ns@]
                    } else {
                        n
                    },
                )
            }),
    {
        let ghost before = backlog_views(map@);
        proof {
            lemma_to_map_dom(before, ns@);
        }
        let mut j: usize = 0;
        while j < map.len()
            invariant
                j <= map@.len(),
                before == backlog_views(map@),
                map@ == old(map)@,
                distinct_keys(before),
                forall|a: int| 0 <= a < j ==> (#[trigger] before[a]).0 != ns@,
            decreases map@.len() - j,
        {
            if map[j].0.as_str().eq(ns) {
                proof {
                    lemma_to_map_value(before, j as int);
                }
                let v: usize = if map[j].1 >= n {
                    map[j].1
                } else {
                    n
                };
                map.set(j, (ns.to_owned(), v));
                proof {
                    lemma_to_map_update(before, j as int, v);
                    assert(backlog_views(map@) =~= before.update(j as int, (ns@, v)));
                }
                return ;
            }
            j += 1;
        }
        map.push((ns.to_owned(), n));
        proof {
            assert(!has_key(before, ns@)) by {
                if has_key(before, ns@) {
                    let a = choose|a: int| 0 <= a < before.len() && (#[trigger] before[a]).0 == ns@;
                    assert(before[a].0 != ns@);
                }
            }
            lemma_to_map_push(before, ns@, n);
            assert(backlog_views(map@) =~= before.push((ns@, n)));
        }
    }

    /// For every namespace that has subscribers, the greatest number of
    /// undelivered events among them. No namespace is listed twice.
    pub fn backlog_map(&self) -> (map: Vec<(String, usize)>)
        requires
            self.wf(),
        ensures
            distinct_keys(backlog_views(map@)),
            is_backlog_map(self@.subs, to_map(backlog_views(map@))),
    {
        let mut map: Vec<(String, usize)> = Vec::new();
        let ghost subs = self@.subs;
        let mut i: usize = 0;
        assert(backlog_views(map@) =~= Seq::empty());
        while i < self.subs.len()
            invariant
                i <= self.subs@.len(),
                subs == self@.subs,
                subs.len() == self.subs@.len(),
                distinct_keys(backlog_views(map@)),
                is_backlog_map(subs.take(i as int), to_map(backlog_views(map@))),
            decreases self.subs@.len() - i,
        {
            let n: usize = self.subs[i].buf.backlog();
            proof {
                assert(subs[i as int] == self.subs@[i as int]@);
                lemma_backlog_step(
                    subs.take(i as int),
                    subs[i as int],
                    to_map(backlog_views(map@)),
                    n,
                );
                assert(subs.take(i + 1) =~= subs.take(i as int).push(subs[i as int]));
            }
            Self::note_backlog(&mut map, self.subs[i].ns.as_str(), n);
            i += 1;
        }
        assert(subs.take(i as int) =~= subs);
        map
    }

    /// Grants `owner` the lease on `key` in `ns` for `ttl_secs` seconds
    /// from the instant `now`, with the next number of the namespace's
    /// counter as its fence token. A lease of the same owner, or one that has
    /// expired, is replaced.
    ///
    /// Where another owner holds the lease and it has not expired, that is a
    /// conflict; where the counter has reached the end of its range, the
    /// grant fails. Either way nothing changes.
    pub fn lease_acquire_at(&mut self, ns: &str, key: &str, owner: &str, ttl_secs: u64, now: i64) -> (out:
        Result<Lease, StateError>)
        requires
            old(self).wf(),
        ensures
            final(self).wf(),
            match out {
                Ok(lease) => !held_by_other(old(self)@.leases, ns@, key@, owner@, now) && counter_of(
                    old(self)@.counters,
                    ns@,
                ) < u64::MAX && lease@ == (LeaseView {
                    ns: ns@,
                    key: key@,
                    owner: owner@,
                    token: (counter_of(old(self)@.counters, ns@) + 1) as u64,
                    expires_at: deadline_of(now, ttl_secs),
                }) && final(self)@ == old(self)@.grant(lease@),
                Err(e) => final(self)@ == old(self)@ && if held_by_other(
                    old(self)@.leases,
                    ns@,
                    key@,
                    owner@,
                    now,
                ) {
                    e.is_conflict("lease held"@)
                } else {
                    counter_of(old(self)@.counters, ns@) == u64::MAX && e.is_internal(
                        "commit sequence exhausted"@,
                    )
                },
            },
    {
        if self.leases.is_held_by_other(ns, key, owner, now) {
            return Err(StateError::conflict("lease held"));
        }
        let token: u64 = match self.clock.bump(ns) {
            Some(n) => n,
            None => {
                return Err(StateError::internal("commit sequence exhausted"));
            },
        };
        Ok(self.leases.grant(ns, key, owner, token, deadline(now, ttl_secs)))
    }

    /// Grants `owner` the lease on `key` in `ns` for `ttl_secs` seconds
    /// from now.
    pub fn lease_acquire(&mut self, ns: &str, key: &str, owner: &str, ttl_secs: u64) -> (out:
        Result<Lease, StateError>)
        requires
            old(self).wf(),
        ensures
            final(self).wf(),
            match out {
                Ok(lease) => counter_of(old(self)@.counters, ns@) < u64::MAX && lease@.ns == ns@
                    && lease@.key == key@ && lease@.owner == owner@ && lease@.token == counter_of(
                    old(self)@.counters,
                    ns@,
                ) + 1 && final(self)@ == old(self)@.grant(lease@) && exists|now: i64|
                    !#[trigger] held_by_other(old(self)@.leases, ns@, key@, owner@, now)
                        && lease@.expires_at == deadline_of(now, ttl_secs),
                Err(e) => final(self)@ == old(self)@ && (e.is_conflict("lease held"@) && (exists|
                    now: i64,
                | #[trigger] held_by_other(old(self)@.leases, ns@, key@, owner@, now))
                    || counter_of(old(self)@.counters, ns@) == u64::MAX && e.is_internal(
                    "commit sequence exhausted"@,
                )),
            },
    {
        let now = now_or_end();
        self.lease_acquire_at(ns, key, owner, ttl_secs, now)
    }

    /// Extends the lease on `key` in `ns` to `ttl_secs` seconds from the
    /// instant `now`, for the owner who presents its token. A missing lease
    /// is not found; another owner or another token is a conflict.
    pub fn lease_renew_at(
        &mut self,
        ns: &str,
        key: &str,
        owner: &str,
        token: u64,
        ttl_secs: u64,
        now: i64,
    ) -> (out: Result<Lease, StateError>)
        requires
            old(self).wf(),
        ensures
            final(self).wf(),
            match out {
                Ok(lease) => held_exactly(old(self)@.leases, ns@, key@, owner@, token) && lease@ == (
                LeaseView {
                    ns: ns@,
                    key: key@,
                    owner: owner@,
                    token,
                    expires_at: deadline_of(now, ttl_secs),
                }) && final(self)@ == (StoreView {
                    leases: old(self)@.leases.insert((ns@, key@), lease@),
                    ..old(self)@
                }),
                Err(e) => final(self)@ == old(self)@ && !held_exactly(
                    old(self)@.leases,
                    ns@,
                    key@,
                    owner@,
                    token,
                ) && if old(self)@.leases.contains_key((ns@, key@)) {
                    e.is_conflict("fencing"@)
                } else {
                    e is NotFound
                },
            },
    {
        self.leases.renew(ns, key, owner, token, deadline(now, ttl_secs))
    }

    /// Extends the lease on `key` in `ns` to `ttl_secs` seconds from now.
    pub fn lease_renew(&mut self, ns: &str, key: &str, owner: &str, token: u64, ttl_secs: u64) -> (out:
        Result<Lease, StateError>)
        requires
            old(self).wf(),
        ensures
            final(self).wf(),
            match out {
                Ok(lease) => held_exactly(old(self)@.leases, ns@, key@, owner@, token) && lease@.ns
                    == ns@ && lease@.key == key@ && lease@.owner == owner@ && lease@.token == token
                    && final(self)@ == (StoreView {
                    leases: old(self)@.leases.insert((ns@, key@), lease@),
                    ..old(self)@
                }) && exists|now: i64| lease@.expires_at == #[trigger] deadline_of(now, ttl_secs),
                Err(e) => final(self)@ == old(self)@ && !held_exactly(
                    old(self)@.leases,
                    ns@,
                    key@,
                    owner@,
                    token,
                ) && if old(self)@.leases.contains_key((ns@, key@)) {
                    e.is_conflict("fencing"@)
                } else {
                    e is NotFound
                },
            },
    {
        let now = now_or_end();
        self.lease_renew_at(ns, key, owner, token, ttl_secs, now)
    }

    /// Gives up the lease on `key` in `ns`, for the owner who presents its
    /// token. A missing lease is not found; another owner or another token is
    /// a conflict, and the lease stays.
    pub fn lease_release(&mut self, ns: &str, key: &str, owner: &str, token: u64) -> (out: Result<
        (),
        StateError,
    >)
        requires
            old(self).wf(),
        ensures
            final(self).wf(),
            match out {
                Ok(_) => held_exactly(old(self)@.leases, ns@, key@, owner@, token) && final(self)@
                    == (StoreView { leases: old(self)@.leases.remove((ns@, key@)), ..old(self)@ }),
                Err(e) => final(self)@ == old(self)@ && !held_exactly(
                    old(self)@.leases,
                    ns@,
                    key@,
                    owner@,
                    token,
                ) && if old(self)@.leases.contains_key((ns@, key@)) {
                    e.is_conflict("fencing"@)
                } else {
                    e is NotFound
                },
            },
    {
        self.leases.release(ns, key, owner, token)
    }

    /// Checks, as of the instant `now`, the fence a writer presents for
    /// `resource` in `ns`. It holds exactly when the resource's lease exists,
    /// bears the token `fence` and has not expired; anything else is a
    /// conflict.
    pub fn validate_fence_at(&self, ns: &str, resource: &str, fence: u64, now: i64) -> (out: Result<
        (),
        StateError,
    >)
        requires
            self.wf(),
        ensures
            out is Ok <==> fence_holds(self@.leases, ns@, resource@, fence, now),
            out matches Err(e) ==> e.is_conflict("fence mismatch"@),
    {
        self.leases.validate_fence(ns, resource, fence, now)
    }

    /// Checks, as of now, the fence a writer presents for `resource` in
    /// `ns`.
    pub fn validate_fence(&self, ns: &str, resource: &str, fence: u64) -> (out: Result<
        (),
        StateError,
    >)
        requires
            self.wf(),
        ensures
            out matches Err(e) ==> e.is_conflict("fence mismatch"@),
            exists|now: i64|
                out is Ok <==> #[trigger] fence_holds(self@.leases, ns@, resource@, fence, now),
    {
        let now = now_or_end();
        self.validate_fence_at(ns, resource, fence, now)
    }

    /// Looks up what was answered under the idempotency key `key` in `ns`.
    /// Nothing where the key is new; the record where it was used with the
    /// same body; a conflict where it was used with another.
    pub fn idempotency_lookup(&self, ns: &str, key: &str, body_hash: &str) -> (out: Result<
        Option<IdempotencyRecord>,
        StateError,
    >)
        requires
            self.wf(),
        ensures
            match out {
                Ok(Some(rec)) => lookup_of(self@.idem, ns@, key@, body_hash@) == Found::Same(rec@),
                Ok(None) => lookup_of(self@.idem, ns@, key@, body_hash@) == Found::Nothing,
                Err(e) => lookup_of(self@.idem, ns@, key@, body_hash@) == Found::Mismatch
                    && e.is_conflict("idempotency body mismatch"@),
            },
    {
        self.idem.lookup(ns, key, body_hash)
    }

    /// Remembers `response` as the answer given under `key` in `ns` to the
    /// body with digest `body_hash`. A response that is not JSON is refused
    /// and nothing changes.
    pub fn idempotency_commit(
        &mut self,
        ns: &str,
        key: &str,
        body_hash: &str,
        response: String,
        commit_seq: u64,
        expires_at: i64,
    ) -> (out: Result<(), StateError>)
        requires
            old(self).wf(),
        ensures
            final(self).wf(),
            match out {
                Ok(_) => response_hash_of(response@) is Some && final(self)@ == (StoreView {
                    idem: old(self)@.idem.insert(
                        (ns@, key@),
                        IdempotencyView {
                            ns: ns@,
                            key: key@,
                            body_hash: body_hash@,
                            response_hash: response_hash_of(response@)->0,
                            commit_seq,
                            expires_at,
                            response: response@,
                        },
                    ),
                    ..old(self)@
                }),
                Err(e) => response_hash_of(response@) is None && final(self)@ == old(self)@
                    && e.is_invalid("response is not JSON"@),
            },
    {
        self.idem.commit(ns, key, body_hash, response, commit_seq, expires_at)
    }

    /// Snapshots need durable storage, which this engine has none of.
    pub fn admin_snapshot(&self) -> (out: Result<(String, u64), StateError>)
        ensures
            out matches Err(e) && e.is_invalid("not persistent"@),
    {
        Err(StateError::invalid("not persistent"))
    }

    /// The engine's manifest, as JSON text: it only says that the engine
    /// keeps its state in memory.
    pub fn admin_manifest(&self) -> (out: Result<String, StateError>)
        ensures
            out matches Ok(text) && text@ == "{\"mode\":\"memory\"}"@,
    {
        Ok(String::from_str("{\"mode\":\"memory\"}"))
    }

    /// Trimming needs a log, which this engine has none of.
    pub fn admin_trim_wal(&self, snapshot_id: &str) -> (out: Result<Vec<String>, StateError>)
        ensures
            out matches Err(e) && e.is_invalid("not persistent"@),
    {
        Err(StateError::invalid("not persistent"))
    }

    fn is_registered(&self, ns: &str, path: &str) -> (b: bool)
        ensures
            b == self@.paths.contains((ns@, path@)),
    {
        let ghost paths = text_pairs(self.paths@);
        let mut i: usize = 0;
        while i < self.paths.len()
            invariant
                i <= self.paths@.len(),
                paths == text_pairs(self.paths@),
                forall|j: int| 0 <= j < i ==> paths[j] != (ns@, path@),
            decreases self.paths@.len() - i,
        {
            if self.paths[i].0.as_str().eq(ns) && self.paths[i].1.as_str().eq(path) {
                assert(paths[i as int] == (ns@, path@));
                return true;
            }
            i += 1;
        }
        false
    }

    /// Registers a dotted JSON path for indexing in `ns`, and indexes under
    /// it the objects the namespace already holds. A path registered before
    /// is accepted and changes nothing.
    ///
    /// A path with a bracket in it is refused: array indices are not
    /// understood.
    pub fn register_json_path(&mut self, ns: &str, path: &str) -> (out: Result<(), StateError>)
        requires
            old(self).wf(),
        ensures
            final(self).wf(),
            match out {
                Ok(_) => !has_bracket(path@) && final(self)@ == old(self)@.register(ns@, path@),
                Err(e) => has_bracket(path@) && final(self)@ == old(self)@ && e.is_invalid(
                    "array indices are not supported"@,
                ),
            },
    {
        let cs = crate::util::chars_of(path);
        let mut c: usize = 0;
        while c < cs.len()
            invariant
                c <= cs@.len(),
                cs@ == path@,
                self.wf(),
                *self == *old(self),
                forall|j: int| 0 <= j < c ==> cs@[j] != '[' && cs@[j] != ']',
            decreases cs@.len() - c,
        {
            if cs[c] == '[' || cs[c] == ']' {
                return Err(StateError::invalid("array indices are not supported"));
            }
            c += 1;
        }
        if self.is_registered(ns, path) {
            return Ok(());
        }
        let pointer = json_pointer_from_path(path);
        let ghost base = self.index@;
        let ghost t = self.table@;
        let mut i: usize = 0;
        while i < self.table.len()
            invariant
                i <= self.table@.len(),
                t == self.table@,
                table_wf(t),
                pointer@ == pointer_of_path(path@),
                self.index.wf(),
                self.table == old(self).table,
                self.paths == old(self).paths,
                self.clock == old(self).clock,
                self.log == old(self).log,
                self.subs == old(self).subs,
                self.next_sub == old(self).next_sub,
                self.leases == old(self).leases,
                self.idem == old(self).idem,
                self.config == old(self).config,
                forall|q: PostingView|
                    #[trigger] self.index@.contains(q) <==> base.contains(q) || (q.kind
                        == AttrKind::Json && q.ns == ns@ && q.key == path@ && exists|a: int|
                        0 <= a < i && (#[trigger] t[a]).is_for(ns@, q.id) && json_pointer_value(
                            t[a].current().body,
                            pointer_of_path(path@),
                        ) == Some(q.value)),
            decreases self.table@.len() - i,
        {
            let ghost before = self.index@;
            let mut added: bool = false;
            let ghost mut new_q: PostingView = arbitrary();
            if self.table.ns_at(i).eq(ns) {
                let cur = self.table.current_at(i);
                match json_lookup(cur.body.as_str(), pointer.as_str()) {
                    Some(value) => {
                        self.index.add(
                            AttrKind::Json,
                            ns,
                            path,
                            value.as_str(),
                            self.table.id_at(i),
                        );
                        added = true;
                        proof {
                            new_q = PostingView {
                                kind: AttrKind::Json,
                                ns: ns@,
                                key: path@,
                                value: value@,
                                id: t[i as int].id,
                            };
                        }
                    },
                    None => {},
                }
            }
            proof {
                assert(self.index@ == if added {
                    before.insert(new_q)
                } else {
                    before
                });
                assert forall|q: PostingView| #[trigger]
                    self.index@.contains(q) <==> base.contains(q) || (q.kind == AttrKind::Json
                        && q.ns == ns@ && q.key == path@ && exists|a: int|
                        0 <= a < i + 1 && (#[trigger] t[a]).is_for(ns@, q.id) && json_pointer_value(
                            t[a].current().body,
                            pointer_of_path(path@),
                        ) == Some(q.value)) by {
                    let hit = |a: int|
                        (t[a]).is_for(ns@, q.id) && json_pointer_value(
                            t[a].current().body,
                            pointer_of_path(path@),
                        ) == Some(q.value);
                    if q.kind == AttrKind::Json && q.ns == ns@ && q.key == path@ {
                        if exists|a: int|
                            0 <= a < i + 1 && (#[trigger] t[a]).is_for(ns@, q.id)
                                && json_pointer_value(
                                t[a].current().body,
                                pointer_of_path(path@),
                            ) == Some(q.value) {
                            let a = choose|a: int|
                                0 <= a < i + 1 && (#[trigger] t[a]).is_for(ns@, q.id)
                                    && json_pointer_value(
                                    t[a].current().body,
                                    pointer_of_path(path@),
                                ) == Some(q.value);
                            if a == i {
                                assert(added);
                                assert(q == new_q);
                            } else {
                                assert(t[a].is_for(ns@, q.id));
                            }
                        }
                        if added && q == new_q {
                            assert(t[i as int].is_for(ns@, q.id));
                        }
                    }
                }
            }
            i += 1;
        }
        proof {
            assert forall|q: PostingView|
                #[trigger] self.index@.contains(q) <==> base.contains(q) || (q.kind
                    == AttrKind::Json && q.ns == ns@ && q.key == path@ && has_entry(t, ns@, q.id)
                    && json_pointer_value(
                    t[position(t, ns@, q.id)].current().body,
                    pointer_of_path(path@),
                ) == Some(q.value)) by {
                if has_entry(t, ns@, q.id) {
                    let p = position(t, ns@, q.id);
                    assert(t[p].is_for(ns@, q.id));
                }
                if exists|a: int|
                    0 <= a < i && (#[trigger] t[a]).is_for(ns@, q.id) && json_pointer_value(
                        t[a].current().body,
                        pointer_of_path(path@),
                    ) == Some(q.value) {
                    let a = choose|a: int|
                        0 <= a < i && (#[trigger] t[a]).is_for(ns@, q.id) && json_pointer_value(
                            t[a].current().body,
                            pointer_of_path(path@),
                        ) == Some(q.value);
                    lemma_position(t, a);
                }
            }
            lemma_register_keeps_consistent(
                base,
                self.index@,
                t,
                text_pairs(self.paths@),
                ns@,
                path@,
            );
        }
        let ghost before_paths = self.paths@;
        self.paths.push((ns.to_owned(), path.to_owned()));
        proof {
            assert(text_pairs(self.paths@) =~= text_pairs(before_paths).push((ns@, path@)));
        }
        Ok(())
    }

    /// Installs again a lease read from the log.
    pub fn replay_lease(&mut self, ns: &str, key: &str, owner: &str, token: u64, expires_at: i64)
        requires
            old(self).wf(),
        ensures
            final(self).wf(),
            final(self)@ == old(self)@.replay_lease(
                LeaseView { ns: ns@, key: key@, owner: owner@, token, expires_at },
            ),
    {
        self.clock.raise_to(ns, token);
        self.leases.grant(ns, key, owner, token, expires_at);
    }

    /// Applies again a release read from the log.
    pub fn replay_release(&mut self, ns: &str, key: &str, owner: &str, token: u64)
        requires
            old(self).wf(),
        ensures
            final(self).wf(),
            final(self)@ == old(self)@.replay_release(ns@, key@, owner@, token),
    {
        match self.leases.release(ns, key, owner, token) {
            Ok(_) => {},
            Err(_) => {},
        }
    }

    /// Installs again an idempotency record read from the log.
    pub fn replay_idempotency(
        &mut self,
        ns: &str,
        key: &str,
        body_hash: &str,
        response: String,
        commit_seq: u64,
        expires_at: i64,
    )
        requires
            old(self).wf(),
        ensures
            final(self).wf(),
            final(self)@ == old(self)@.replay_idempotency(
                ns@,
                key@,
                body_hash@,
                response@,
                commit_seq,
                expires_at,
            ),
    {
        match self.idem.commit(ns, key, body_hash, response, commit_seq, expires_at) {
            Ok(_) => {},
            Err(_) => {},
        }
    }
}

} // verus!
