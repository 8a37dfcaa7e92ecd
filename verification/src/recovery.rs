//! What a restart recovers: the current versions of a store rebuilt from a
//! snapshot and the log written since.

use vstd::prelude::*;
use crate::commit::counter_of;
use crate::mem::StoreView;
use crate::traits::{EventView, LeaseView};
use crate::model::ObjectView;
use crate::persistent::{rebuilt, replayed, replayed_all, seeded, LoggedView, RecBodyView};
use crate::table::{
    currents,
    has_entry,
    lemma_position,
    lemma_table_put,
    lemma_table_remove,
    position,
    table_put,
    table_remove,
    table_wf,
    TableView,
};
use crate::watch::WatchConfig;

verus! {

/// The current versions of a table, by namespace and id.
pub type CurrentMap = Map<(Seq<char>, Seq<char>), ObjectView>;

/// The current version of every object of the table, by namespace and id.
pub open spec fn current_map(t: TableView) -> CurrentMap {
    Map::new(
        |k: (Seq<char>, Seq<char>)| has_entry(t, k.0, k.1),
        |k: (Seq<char>, Seq<char>)| t[position(t, k.0, k.1)].current(),
    )
}

/// What a record does to the current versions: a put makes its version
/// the current one of its object, a delete removes its object, anything else
/// changes nothing.
pub open spec fn applied(m: CurrentMap, r: RecBodyView) -> CurrentMap {
    match r {
        RecBodyView::Put { ns, obj } => m.insert((obj.ns, obj.id), obj),
        RecBodyView::Delete { ns, id } => m.remove((ns, id)),
        _ => m,
    }
}

/// What records do to the current versions, applied in order.
pub open spec fn applied_all(m: CurrentMap, rs: Seq<LoggedView>) -> CurrentMap
    decreases rs.len(),
{
    if rs.len() == 0 {
        m
    } else {
        applied(applied_all(m, rs.drop_last()), rs.last().body)
    }
}

/// What the records settle of the object `k`, whatever was there before:
/// nothing where none of them touches it, else what the last one that does
/// leaves.
pub open spec fn settled(rs: Seq<LoggedView>, k: (Seq<char>, Seq<char>)) -> Option<
    Option<ObjectView>,
>
    decreases rs.len(),
{
    if rs.len() == 0 {
        None
    } else {
        match rs.last().body {
            RecBodyView::Put { ns, obj } => if (obj.ns, obj.id) == k {
                Some(Some(obj))
            } else {
                settled(rs.drop_last(), k)
            },
            RecBodyView::Delete { ns, id } => if (ns, id) == k {
                Some(None)
            } else {
                settled(rs.drop_last(), k)
            },
            _ => settled(rs.drop_last(), k),
        }
    }
}

/// Filing a version makes it the current one of its object and leaves the
/// others as they are.
pub proof fn lemma_current_map_put(t: TableView, o: ObjectView)
    requires
        table_wf(t),
    ensures
        table_wf(table_put(t, o)),
        current_map(table_put(t, o)) == current_map(t).insert((o.ns, o.id), o),
{
    lemma_table_put(t, o);
    let u = table_put(t, o);
    let want = current_map(t).insert((o.ns, o.id), o);
    assert forall|k: (Seq<char>, Seq<char>)|
        current_map(u).contains_key(k) <==> want.contains_key(k) by {
        if !(k.0 == o.ns && k.1 == o.id) {
            assert(has_entry(u, k.0, k.1) <==> has_entry(t, k.0, k.1));
        }
    }
    assert forall|k: (Seq<char>, Seq<char>)| current_map(u).contains_key(k) implies current_map(
        u,
    )[k] == want[k] by {
        if !(k.0 == o.ns && k.1 == o.id) {
            assert(has_entry(u, k.0, k.1) <==> has_entry(t, k.0, k.1));
            assert(u[position(u, k.0, k.1)] == t[position(t, k.0, k.1)]);
        }
    }
    assert(current_map(u) =~= want);
}

/// Removing an object removes its current version and leaves the others as
/// they are.
pub proof fn lemma_current_map_remove(t: TableView, ns: Seq<char>, id: Seq<char>)
    requires
        table_wf(t),
    ensures
        table_wf(table_remove(t, ns, id)),
        current_map(table_remove(t, ns, id)) == current_map(t).remove((ns, id)),
{
    lemma_table_remove(t, ns, id);
    let u = table_remove(t, ns, id);
    let want = current_map(t).remove((ns, id));
    assert forall|k: (Seq<char>, Seq<char>)|
        current_map(u).contains_key(k) <==> want.contains_key(k) by {
        if !(k.0 == ns && k.1 == id) {
            assert(has_entry(u, k.0, k.1) <==> has_entry(t, k.0, k.1));
        }
    }
    assert forall|k: (Seq<char>, Seq<char>)| current_map(u).contains_key(k) implies current_map(
        u,
    )[k] == want[k] by {
        if !(k.0 == ns && k.1 == id) {
            assert(has_entry(u, k.0, k.1) <==> has_entry(t, k.0, k.1));
            assert(u[position(u, k.0, k.1)] == t[position(t, k.0, k.1)]);
        }
    }
    assert(current_map(u) =~= want);
}

/// Applying a record again does to the table's current versions what the
/// record says.
pub proof fn lemma_replayed_current(s: StoreView, r: LoggedView)
    requires
        table_wf(s.table),
    ensures
        table_wf(replayed(s, r).table),
        current_map(replayed(s, r).table) == applied(current_map(s.table), r.body),
{
    match r.body {
        RecBodyView::Put { ns, obj } => {
            lemma_current_map_put(s.table, obj);
        },
        RecBodyView::Delete { ns, id } => {
            lemma_current_map_remove(s.table, ns, id);
        },
        _ => {},
    }
}

/// Applying records again does to the table's current versions what the
/// records say.
pub proof fn lemma_replayed_all_current(s: StoreView, rs: Seq<LoggedView>)
    requires
        table_wf(s.table),
    ensures
        table_wf(replayed_all(s, rs).table),
        current_map(replayed_all(s, rs).table) == applied_all(current_map(s.table), rs),
    decreases rs.len(),
{
    if rs.len() > 0 {
        lemma_replayed_all_current(s, rs.drop_last());
        lemma_replayed_current(replayed_all(s, rs.drop_last()), rs.last());
    }
}

/// Records applied in two runs do the same as applied in one.
pub proof fn lemma_applied_all_concat(m: CurrentMap, a: Seq<LoggedView>, b: Seq<LoggedView>)
    ensures
        applied_all(m, a + b) == applied_all(applied_all(m, a), b),
    decreases b.len(),
{
    if b.len() == 0 {
        assert(a + b =~= a);
    } else {
        lemma_applied_all_concat(m, a, b.drop_last());
        assert((a + b).drop_last() =~= a + b.drop_last());
        assert((a + b).last() == b.last());
    }
}

/// After records were applied, each object is as the last record that
/// touches it leaves it, and as it was where none does.
pub proof fn lemma_applied_all_settles(m: CurrentMap, rs: Seq<LoggedView>, k: (Seq<char>, Seq<char>))
    ensures
        match settled(rs, k) {
            Some(Some(o)) => applied_all(m, rs).contains_key(k) && applied_all(m, rs)[k] == o,
            Some(None) => !applied_all(m, rs).contains_key(k),
            None => (applied_all(m, rs).contains_key(k) <==> m.contains_key(k)) && (
            m.contains_key(k) ==> applied_all(m, rs)[k] == m[k]),
        },
    decreases rs.len(),
{
    if rs.len() > 0 {
        lemma_applied_all_settles(m, rs.drop_last(), k);
    }
}

/// Applying the same records a second time changes nothing.
pub proof fn lemma_applied_all_twice(m: CurrentMap, rs: Seq<LoggedView>)
    ensures
        applied_all(applied_all(m, rs), rs) == applied_all(m, rs),
{
    let once = applied_all(m, rs);
    let twice = applied_all(once, rs);
    assert forall|k: (Seq<char>, Seq<char>)| #[trigger]
        twice.contains_key(k) <==> once.contains_key(k) by {
        lemma_applied_all_settles(m, rs, k);
        lemma_applied_all_settles(once, rs, k);
    }
    assert forall|k: (Seq<char>, Seq<char>)| twice.contains_key(k) implies #[trigger] twice[k]
        == once[k] by {
        lemma_applied_all_settles(m, rs, k);
        lemma_applied_all_settles(once, rs, k);
    }
    assert(twice =~= once);
}

/// The current versions of a sound table, filed into an empty store one by
/// one, give a table with the same current versions.
pub proof fn lemma_seeded_current(config: WatchConfig, t: TableView, n: int)
    requires
        table_wf(t),
        0 <= n <= t.len(),
    ensures
        table_wf(seeded(StoreView::empty(config), currents(t).take(n)).table),
        forall|k: (Seq<char>, Seq<char>)|
            current_map(
                seeded(StoreView::empty(config), currents(t).take(n)).table,
            ).contains_key(k) <==> exists|i: int| 0 <= i < n && (#[trigger] t[i]).is_for(k.0, k.1),
        forall|i: int|
            0 <= i < n ==> current_map(
                seeded(StoreView::empty(config), currents(t).take(n)).table,
            )[((#[trigger] t[i]).ns, t[i].id)] == t[i].current(),
    decreases n,
{
    let snap = currents(t).take(n);
    let s = seeded(StoreView::empty(config), snap);
    if n == 0 {
        assert(s.table =~= TableView::empty());
    } else {
        lemma_seeded_current(config, t, n - 1);
        let before = seeded(StoreView::empty(config), currents(t).take(n - 1));
        assert(snap.drop_last() =~= currents(t).take(n - 1));
        let o = snap.last();
        assert(o == t[n - 1].current());
        assert(t[n - 1].versions[t[n - 1].versions.len() - 1].ns == t[n - 1].ns);
        assert(o.ns == t[n - 1].ns && o.id == t[n - 1].id);
        lemma_current_map_put(before.table, o);
        let m = current_map(s.table);
        assert(m == current_map(before.table).insert((o.ns, o.id), o));
        assert forall|k: (Seq<char>, Seq<char>)|
            m.contains_key(k) <==> exists|i: int| 0 <= i < n && (#[trigger] t[i]).is_for(
                k.0,
                k.1,
            ) by {
            if k == (o.ns, o.id) {
                assert(t[n - 1].is_for(k.0, k.1));
            }
            if exists|i: int| 0 <= i < n && (#[trigger] t[i]).is_for(k.0, k.1) {
                let i = choose|i: int| 0 <= i < n && (#[trigger] t[i]).is_for(k.0, k.1);
                if i < n - 1 {
                    assert(t[i].is_for(k.0, k.1));
                }
            }
            if current_map(before.table).contains_key(k) {
                let i = choose|i: int| 0 <= i < n - 1 && (#[trigger] t[i]).is_for(k.0, k.1);
                assert(t[i].is_for(k.0, k.1));
            }
        }
        assert forall|i: int| 0 <= i < n implies m[((#[trigger] t[i]).ns, t[i].id)]
            == t[i].current() by {
            if i < n - 1 {
                assert(!t[i].is_for(t[n - 1].ns, t[n - 1].id));
            }
        }
    }
}

/// A snapshot holds what it was taken of: the current versions of a sound
/// table, filed into an empty store, give the same current versions.
pub proof fn lemma_snapshot_restores_current_versions(config: WatchConfig, t: TableView)
    requires
        table_wf(t),
    ensures
        current_map(seeded(StoreView::empty(config), currents(t)).table) == current_map(t),
{
    lemma_seeded_current(config, t, t.len() as int);
    assert(currents(t).take(t.len() as int) =~= currents(t));
    let m = current_map(seeded(StoreView::empty(config), currents(t)).table);
    assert forall|k: (Seq<char>, Seq<char>)| #[trigger]
        m.contains_key(k) <==> current_map(t).contains_key(k) by {
        if has_entry(t, k.0, k.1) {
            let p = position(t, k.0, k.1);
            assert(t[p].is_for(k.0, k.1));
        }
    }
    assert forall|k: (Seq<char>, Seq<char>)| m.contains_key(k) implies #[trigger] m[k]
        == current_map(t)[k] by {
        let i = choose|i: int| 0 <= i < t.len() && (#[trigger] t[i]).is_for(k.0, k.1);
        lemma_position(t, i);
    }
    assert(m =~= current_map(t));
}

/// Trim safety: a store restarted from a snapshot and from a tail of the
/// log that reaches back to the snapshot or before it has the same current
/// versions as the store that wrote the whole log.
///
/// `before` and `kept` are what was logged up to the snapshot, `kept` being
/// the part of it still in the log; `after` is what was logged since.
pub proof fn lemma_restart_reproduces_current_versions(
    config: WatchConfig,
    before: Seq<LoggedView>,
    kept: Seq<LoggedView>,
    after: Seq<LoggedView>,
)
    ensures
        ({
            let fresh = StoreView::empty(config);
            let at_snapshot = replayed_all(fresh, before + kept);
            let at_restart = replayed_all(fresh, before + kept + after);
            let restarted = rebuilt(config, currents(at_snapshot.table), kept + after);
            current_map(restarted.table) == current_map(at_restart.table)
        }),
{
    let fresh = StoreView::empty(config);
    let none = current_map(fresh.table);
    let at_snapshot = replayed_all(fresh, before + kept);
    let at_restart = replayed_all(fresh, before + kept + after);
    let seed = seeded(fresh, currents(at_snapshot.table));
    assert(fresh.table =~= TableView::empty());
    lemma_replayed_all_current(fresh, before + kept);
    lemma_replayed_all_current(fresh, before + kept + after);
    lemma_snapshot_restores_current_versions(config, at_snapshot.table);
    lemma_seeded_current(config, at_snapshot.table, at_snapshot.table.len() as int);
    assert(currents(at_snapshot.table).take(at_snapshot.table.len() as int) =~= currents(
        at_snapshot.table,
    ));
    lemma_replayed_all_current(seed, kept + after);
    let m = current_map(at_snapshot.table);
    lemma_applied_all_concat(none, before, kept);
    lemma_applied_all_twice(applied_all(none, before), kept);
    lemma_applied_all_concat(m, kept, after);
    lemma_applied_all_concat(none, before + kept, after);
}

/// Whether `body` is the record of the grant of `lease`.
pub open spec fn records_grant(body: RecBodyView, lease: LeaseView) -> bool {
    body matches RecBodyView::LeaseAcquire { ns, key, owner, token, .. } && ns == lease.ns && key
        == lease.key && owner == lease.owner && token == lease.token
}

/// Whether `b` is the store `a` after one successful put, delete or grant
/// of a lease, and `r` the record that the change left in the log: the put
/// and the delete under the number they were given, the grant with its
/// token.
pub open spec fn is_logged_change(a: StoreView, b: StoreView, r: LoggedView) -> bool {
    ||| exists|o: ObjectView|
        #[trigger] a.put(o) == b && o.commit_seq == counter_of(a.counters, o.ns) + 1 && r.seq
            == o.commit_seq && r.body == (RecBodyView::Put { ns: o.ns, obj: o })
    ||| exists|ns: Seq<char>, id: Seq<char>, seq: u64|
        #[trigger] a.delete(ns, id, seq) == b && seq == counter_of(a.counters, ns) + 1 && r.seq
            == seq && r.body == (RecBodyView::Delete { ns, id })
    ||| exists|lease: LeaseView|
        #[trigger] a.grant(lease) == b && lease.token == counter_of(a.counters, lease.ns) + 1
            && records_grant(r.body, lease)
}

/// Whether `trace` is a history of puts, deletes and grants on a store that
/// starts out never written, and `records` the log it left.
pub open spec fn is_logged_history(trace: Seq<StoreView>, records: Seq<LoggedView>) -> bool {
    &&& trace.len() == records.len() + 1
    &&& trace[0].log == Seq::<EventView>::empty()
    &&& trace[0].counters == Map::<Seq<char>, u64>::empty()
    &&& trace[0].table == TableView::empty()
    &&& forall|i: int|
        0 <= i < records.len() ==> is_logged_change(#[trigger] trace[i], trace[i + 1], records[i])
}

/// Applying again the record of a change does to the counters, the commit
/// log and the table what the change did.
pub proof fn lemma_replay_repeats_the_change(
    a: StoreView,
    b: StoreView,
    r: LoggedView,
    again: StoreView,
)
    requires
        is_logged_change(a, b, r),
        again.counters == a.counters,
        again.log == a.log,
        again.table == a.table,
    ensures
        replayed(again, r).counters == b.counters,
        replayed(again, r).log == b.log,
        replayed(again, r).table == b.table,
{
    if exists|o: ObjectView|
        #[trigger] a.put(o) == b && o.commit_seq == counter_of(a.counters, o.ns) + 1 && r.seq
            == o.commit_seq && r.body == (RecBodyView::Put { ns: o.ns, obj: o }) {
    } else if exists|ns: Seq<char>, id: Seq<char>, seq: u64|
        #[trigger] a.delete(ns, id, seq) == b && seq == counter_of(a.counters, ns) + 1 && r.seq
            == seq && r.body == (RecBodyView::Delete { ns, id }) {
    } else {
        let lease = choose|lease: LeaseView|
            #[trigger] a.grant(lease) == b && lease.token == counter_of(a.counters, lease.ns) + 1
                && records_grant(r.body, lease);
        assert(b.counters == a.counters.insert(lease.ns, lease.token));
    }
}

/// The store rebuilt from the first `n` records of a history agrees with
/// the history's store after them.
pub proof fn lemma_rebuilt_agrees(
    config: WatchConfig,
    trace: Seq<StoreView>,
    records: Seq<LoggedView>,
    n: int,
)
    requires
        is_logged_history(trace, records),
        0 <= n <= records.len(),
    ensures
        replayed_all(StoreView::empty(config), records.take(n)).counters == trace[n].counters,
        replayed_all(StoreView::empty(config), records.take(n)).log == trace[n].log,
        replayed_all(StoreView::empty(config), records.take(n)).table == trace[n].table,
    decreases n,
{
    if n > 0 {
        lemma_rebuilt_agrees(config, trace, records, n - 1);
        assert(records.take(n).drop_last() =~= records.take(n - 1));
        assert(records.take(n).last() == records[n - 1]);
        assert(is_logged_change(trace[n - 1], trace[n - 1 + 1], records[n - 1]));
        lemma_replay_repeats_the_change(
            trace[n - 1],
            trace[n],
            records[n - 1],
            replayed_all(StoreView::empty(config), records.take(n - 1)),
        );
    }
}

/// Numbers survive a restart: a store rebuilt from the log that a history
/// of puts, deletes and grants left has the same counters, the same commit
/// log and the same table as the store that wrote the log. So every change
/// keeps the number it was given, a subscriber that resumes is handed what it
/// would have been handed before the restart, and the next number in each
/// namespace is above every number used.
pub proof fn lemma_restart_keeps_numbers(
    config: WatchConfig,
    trace: Seq<StoreView>,
    records: Seq<LoggedView>,
)
    requires
        is_logged_history(trace, records),
    ensures
        rebuilt(config, Seq::empty(), records).counters == trace.last().counters,
        rebuilt(config, Seq::empty(), records).log == trace.last().log,
        rebuilt(config, Seq::empty(), records).table == trace.last().table,
{
    lemma_rebuilt_agrees(config, trace, records, records.len() as int);
    assert(records.take(records.len() as int) =~= records);
}

} // verus!
