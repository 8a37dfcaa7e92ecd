//! What holds of the engine over its history: the order of commits and
//! of versions, and what a subscriber that resumes is given.

use vstd::prelude::*;
use crate::commit::counter_of;
use crate::lease::{fence_holds, held_by_other};
use crate::mem::{changes_after, fan_out, seed_for, StoreView, SubscriberView};
use crate::model::ObjectView;
use crate::table::{has_entry, lemma_table_put, lemma_table_remove, position, table_wf, TableView};
use crate::traits::{EventView, LeaseView};
use crate::watch::{lemma_buffer_stays_bounded, BufferView, WatchConfig};

verus! {

/// The commit sequence numbers of the changes to `ns` in the log, oldest
/// first.
pub open spec fn commits_of(log: Seq<EventView>, ns: Seq<char>) -> Seq<u64> {
    log.filter(|e: EventView| e.ns() == ns).map_values(|e: EventView| e.seq())
}

/// Whether the numbers are 1, 2, 3 and so on, none left out.
pub open spec fn counts_from_one(s: Seq<u64>) -> bool {
    forall|i: int| 0 <= i < s.len() ==> #[trigger] s[i] == i + 1
}

/// Whether `b` is the store `a` after one successful put or delete.
pub open spec fn is_write(a: StoreView, b: StoreView) -> bool {
    ||| exists|o: ObjectView|
        #[trigger] a.put(o) == b && o.commit_seq == counter_of(a.counters, o.ns) + 1
    ||| exists|ns: Seq<char>, id: Seq<char>, seq: u64|
        #[trigger] a.delete(ns, id, seq) == b && seq == counter_of(a.counters, ns) + 1
}

/// Whether `trace` is a history of puts and deletes on a store that
/// starts out never written.
pub open spec fn is_history(trace: Seq<StoreView>) -> bool {
    &&& trace.len() > 0
    &&& trace[0].log == Seq::<EventView>::empty()
    &&& trace[0].counters == Map::<Seq<char>, u64>::empty()
    &&& trace[0].table == TableView::empty()
    &&& forall|i: int| 0 <= i < trace.len() - 1 ==> is_write(#[trigger] trace[i], trace[i + 1])
}

/// Whether the versions of every object ascend strictly in commit sequence
/// number and none is above its namespace's counter.
pub open spec fn versions_ascend(s: StoreView) -> bool {
    forall|i: int|
        0 <= i < s.table.len() ==> {
            let vs = (#[trigger] s.table[i]).versions;
            &&& forall|k: int|
                0 <= k < vs.len() ==> (#[trigger] vs[k]).commit_seq <= counter_of(
                    s.counters,
                    s.table[i].ns,
                )
            &&& forall|k: int, l: int|
                0 <= k < l < vs.len() ==> (#[trigger] vs[k]).commit_seq < (#[trigger] vs[l]).commit_seq
        }
}

/// Logging one more change adds its number to the commits of its
/// namespace and to no other's.
pub proof fn lemma_commits_of_push(log: Seq<EventView>, e: EventView, ns: Seq<char>)
    ensures
        commits_of(log.push(e), ns) == if e.ns() == ns {
            commits_of(log, ns).push(e.seq())
        } else {
            commits_of(log, ns)
        },
{
    reveal(Seq::filter);
    let wanted = |x: EventView| x.ns() == ns;
    assert(log.push(e).drop_last() =~= log);
    if e.ns() == ns {
        assert(log.push(e).filter(wanted) == log.filter(wanted).push(e));
        assert(commits_of(log.push(e), ns) =~= commits_of(log, ns).push(e.seq()));
    }
}

/// What every history keeps: in each namespace the commits so far are
/// 1, 2, 3 and so on up to the namespace's counter, the table is sound, and
/// versions ascend.
pub open spec fn in_order(s: StoreView, ns: Seq<char>) -> bool {
    &&& counts_from_one(commits_of(s.log, ns))
    &&& commits_of(s.log, ns).len() == counter_of(s.counters, ns)
    &&& table_wf(s.table)
    &&& versions_ascend(s)
}

/// A successful put keeps the order.
pub proof fn lemma_put_keeps_order(a: StoreView, o: ObjectView, ns: Seq<char>)
    requires
        in_order(a, ns),
        o.commit_seq == counter_of(a.counters, o.ns) + 1,
    ensures
        in_order(a.put(o), ns),
{
    let b = a.put(o);
    lemma_commits_of_push(a.log, EventView::Put(o), ns);
    lemma_table_put(a.table, o);
    let t = a.table;
    let u = b.table;
    assert forall|i: int| 0 <= i < u.len() implies {
        let vs = (#[trigger] u[i]).versions;
        &&& forall|k: int|
            0 <= k < vs.len() ==> (#[trigger] vs[k]).commit_seq <= counter_of(b.counters, u[i].ns)
        &&& forall|k: int, l: int|
            0 <= k < l < vs.len() ==> (#[trigger] vs[k]).commit_seq < (#[trigger] vs[l]).commit_seq
    } by {
        let vs = u[i].versions;
        if has_entry(t, o.ns, o.id) {
            let p = position(t, o.ns, o.id);
            if i == p {
                let old_vs = t[p].versions;
                assert(t[p].ns == o.ns);
                assert forall|k: int| 0 <= k < vs.len() implies (#[trigger] vs[k]).commit_seq
                    <= counter_of(b.counters, u[i].ns) by {
                    if k < old_vs.len() {
                        assert(vs[k] == old_vs[k]);
                    }
                }
                assert forall|k: int, l: int| 0 <= k < l < vs.len() implies (
                #[trigger] vs[k]).commit_seq < (#[trigger] vs[l]).commit_seq by {
                    assert(vs[k] == old_vs[k]);
                    if l < old_vs.len() {
                        assert(vs[l] == old_vs[l]);
                    }
                }
            } else {
                assert(u[i] == t[i]);
            }
        } else {
            if i < t.len() {
                assert(u[i] == t[i]);
            }
        }
    }
}

/// A successful delete keeps the order.
pub proof fn lemma_delete_keeps_order(
    a: StoreView,
    dns: Seq<char>,
    id: Seq<char>,
    seq: u64,
    ns: Seq<char>,
)
    requires
        in_order(a, ns),
        seq == counter_of(a.counters, dns) + 1,
    ensures
        in_order(a.delete(dns, id, seq), ns),
{
    let b = a.delete(dns, id, seq);
    lemma_commits_of_push(a.log, EventView::Delete { ns: dns, id, commit_seq: seq }, ns);
    lemma_table_remove(a.table, dns, id);
    let t = a.table;
    let u = b.table;
    assert forall|i: int| 0 <= i < u.len() implies {
        let vs = (#[trigger] u[i]).versions;
        &&& forall|k: int|
            0 <= k < vs.len() ==> (#[trigger] vs[k]).commit_seq <= counter_of(b.counters, u[i].ns)
        &&& forall|k: int, l: int|
            0 <= k < l < vs.len() ==> (#[trigger] vs[k]).commit_seq < (#[trigger] vs[l]).commit_seq
    } by {
        if has_entry(t, dns, id) {
            let p = position(t, dns, id);
            let i2 = if i < p { i } else { i + 1 };
            assert(u[i] == t[i2]);
        } else {
            assert(u[i] == t[i]);
        }
    }
}

/// Every store of a history is in order.
pub proof fn lemma_history_in_order(trace: Seq<StoreView>, ns: Seq<char>, n: int)
    requires
        is_history(trace),
        0 <= n < trace.len(),
    ensures
        in_order(trace[n], ns),
    decreases n,
{
    if n == 0 {
        reveal(Seq::filter);
        assert(commits_of(trace[0].log, ns) =~= Seq::<u64>::empty());
    } else {
        lemma_history_in_order(trace, ns, n - 1);
        let a = trace[n - 1];
        let b = trace[n];
        assert(is_write(a, trace[n - 1 + 1]));
        if exists|o: ObjectView|
            #[trigger] a.put(o) == b && o.commit_seq == counter_of(a.counters, o.ns) + 1 {
            let o = choose|o: ObjectView|
                #[trigger] a.put(o) == b && o.commit_seq == counter_of(a.counters, o.ns) + 1;
            lemma_put_keeps_order(a, o, ns);
        } else {
            let (dns, id, seq) = choose|dns: Seq<char>, id: Seq<char>, seq: u64|
                #[trigger] a.delete(dns, id, seq) == b && seq == counter_of(a.counters, dns) + 1;
            lemma_delete_keeps_order(a, dns, id, seq, ns);
        }
    }
}

/// Monotonic commits: however puts and deletes interleave on a store that
/// starts out never written, the commit sequence numbers of the changes to a
/// namespace are 1, 2, 3 and so on: strictly increasing from one, none used
/// twice and none left out.
pub proof fn lemma_commits_are_monotonic(trace: Seq<StoreView>, ns: Seq<char>)
    requires
        is_history(trace),
    ensures
        counts_from_one(commits_of(trace.last().log, ns)),
        forall|i: int, j: int|
            0 <= i < j < commits_of(trace.last().log, ns).len() ==> commits_of(
                trace.last().log,
                ns,
            )[i] < commits_of(trace.last().log, ns)[j],
{
    lemma_history_in_order(trace, ns, trace.len() - 1);
}

/// Version ordering: however puts and deletes interleave on a store that
/// starts out never written, the versions of every object ascend strictly in
/// commit sequence number, so that the last is the newest.
pub proof fn lemma_versions_are_ordered(trace: Seq<StoreView>)
    requires
        is_history(trace),
    ensures
        versions_ascend(trace.last()),
{
    lemma_history_in_order(trace, Seq::empty(), trace.len() - 1);
}

/// The buffer a subscriber gets that resumes after `from`.
pub open spec fn resumed_buffer(s: StoreView, ns: Seq<char>, from: Option<u64>) -> BufferView {
    s.subscribe(ns, from).subs.last().buf
}

/// Resume correctness: a subscriber that resumes after the commit `k` is
/// given exactly the changes to its namespace logged so far with a commit
/// sequence number above `k`, in the order of the log, none twice and none
/// left out, and nothing is counted as delivered yet. The one exception is a
/// backlog beyond the buffer's limits, and that is flagged as overflow.
pub proof fn lemma_resume_is_exact(s: StoreView, ns: Seq<char>, k: u64)
    ensures
        ({
            let b = resumed_buffer(s, ns, Some(k));
            &&& b.cursor == 0
            &&& b.last_commit == k
            &&& !b.overflow ==> b.events == changes_after(s.log, ns, k)
            &&& forall|i: int|
                0 <= i < b.events.len() ==> (#[trigger] b.events[i]).ns() == ns && b.events[i].seq() > k
            &&& changes_after(s.log, ns, k).len() > s.config.max_events ==> b.overflow
        }),
{
    let seed = seed_for(s.log, ns, Some(k));
    lemma_buffer_stays_bounded(Some(k), seed, s.config);
    lemma_offered_come_from(Some(k), seed, s.config);
    let b = resumed_buffer(s, ns, Some(k));
    let wanted = |e: EventView| e.ns() == ns && e.seq() > k;
    assert forall|i: int| 0 <= i < b.events.len() implies (#[trigger] b.events[i]).ns() == ns
        && b.events[i].seq() > k by {
        assert(seed.contains(b.events[i]));
        s.log.lemma_filter_contains_rev(wanted, b.events[i]);
        let j = choose|j: int| 0 <= j < seed.len() && seed[j] == b.events[i];
        s.log.lemma_filter_pred(wanted, j);
    }
}

/// Whatever a buffer holds after events were offered to a fresh one is
/// among the events offered.
pub proof fn lemma_offered_come_from(from: Option<u64>, evs: Seq<EventView>, cfg: WatchConfig)
    ensures
        forall|i: int|
            0 <= i < BufferView::fresh(from).offer_all(evs, cfg).events.len() ==> evs.contains(
                #[trigger] BufferView::fresh(from).offer_all(evs, cfg).events[i],
            ),
    decreases evs.len(),
{
    if evs.len() > 0 {
        let front = evs.drop_last();
        lemma_offered_come_from(from, front, cfg);
        let before = BufferView::fresh(from).offer_all(front, cfg);
        let b = before.offer(evs.last(), cfg);
        assert forall|i: int| 0 <= i < b.events.len() implies evs.contains(#[trigger] b.events[i]) by {
            if i < before.events.len() {
                assert(b.events[i] == before.events[i]);
                assert(front.contains(before.events[i]));
                let j = choose|j: int| 0 <= j < front.len() && front[j] == before.events[i];
                assert(evs[j] == front[j]);
            } else {
                assert(b.events[i] == evs.last());
                assert(evs[evs.len() - 1] == evs.last());
            }
        }
    }
}

/// Whether no lease bears a token above its namespace's counter.
pub open spec fn tokens_are_minted(s: StoreView) -> bool {
    forall|k: (Seq<char>, Seq<char>)| #[trigger]
        s.leases.contains_key(k) ==> s.leases[k].token <= counter_of(s.counters, k.0)
            && s.leases[k].ns == k.0
}

/// Fence tokens strictly increase: a lease that is granted bears a token
/// above that of every lease in its namespace, its own predecessor included,
/// and puts, deletes and grants keep every token at or below its namespace's
/// counter.
pub proof fn lemma_tokens_increase(s: StoreView, lease: LeaseView, o: ObjectView, id: Seq<char>)
    requires
        tokens_are_minted(s),
        lease.token == counter_of(s.counters, lease.ns) + 1,
        o.commit_seq == counter_of(s.counters, o.ns) + 1,
        counter_of(s.counters, lease.ns) < u64::MAX,
    ensures
        forall|k: (Seq<char>, Seq<char>)| #[trigger]
            s.leases.contains_key(k) && k.0 == lease.ns ==> s.leases[k].token < lease.token,
        tokens_are_minted(s.grant(lease)),
        tokens_are_minted(s.put(o)),
        tokens_are_minted(s.delete(o.ns, id, o.commit_seq)),
{
    assert forall|k: (Seq<char>, Seq<char>)| #[trigger]
        s.grant(lease).leases.contains_key(k) implies s.grant(lease).leases[k].token <= counter_of(
        s.grant(lease).counters,
        k.0,
    ) && s.grant(lease).leases[k].ns == k.0 by {
        if k != (lease.ns, lease.key) {
            assert(s.leases.contains_key(k));
        }
    }
    assert forall|k: (Seq<char>, Seq<char>)| #[trigger]
        s.put(o).leases.contains_key(k) implies s.put(o).leases[k].token <= counter_of(
        s.put(o).counters,
        k.0,
    ) && s.put(o).leases[k].ns == k.0 by {
        assert(s.leases.contains_key(k));
    }
    assert forall|k: (Seq<char>, Seq<char>)| #[trigger]
        s.delete(o.ns, id, o.commit_seq).leases.contains_key(k) implies s.delete(
        o.ns,
        id,
        o.commit_seq,
    ).leases[k].token <= counter_of(s.delete(o.ns, id, o.commit_seq).counters, k.0) && s.delete(
        o.ns,
        id,
        o.commit_seq,
    ).leases[k].ns == k.0 by {
        assert(s.leases.contains_key(k));
    }
}

/// Logging one more change adds it to the changes after `k` of its
/// namespace where its number is above `k`, and to no others.
pub proof fn lemma_changes_after_push(log: Seq<EventView>, e: EventView, ns: Seq<char>, k: u64)
    ensures
        changes_after(log.push(e), ns, k) == if e.ns() == ns && e.seq() > k {
            changes_after(log, ns, k).push(e)
        } else {
            changes_after(log, ns, k)
        },
{
    reveal(Seq::filter);
    assert(log.push(e).drop_last() =~= log);
}

/// Whether the numbers of the changes run on from `k`: `k + 1`, `k + 2`
/// and so on, none left out and none twice.
pub open spec fn runs_on_from(evs: Seq<EventView>, k: u64) -> bool {
    forall|i: int| 0 <= i < evs.len() ==> (#[trigger] evs[i]).seq() == k + 1 + i
}

/// Where the commits of a namespace count up from one, its changes after
/// `k` run on from `k`, up to the last commit.
pub proof fn lemma_changes_run_on(log: Seq<EventView>, ns: Seq<char>, k: u64)
    requires
        counts_from_one(commits_of(log, ns)),
    ensures
        runs_on_from(changes_after(log, ns, k), k),
        changes_after(log, ns, k).len() == if commits_of(log, ns).len() > k {
            commits_of(log, ns).len() - k
        } else {
            0
        },
    decreases log.len(),
{
    reveal(Seq::filter);
    if log.len() == 0 {
        assert(commits_of(log, ns) =~= Seq::<u64>::empty());
        assert(changes_after(log, ns, k) =~= Seq::<EventView>::empty());
    } else {
        let front = log.drop_last();
        let e = log.last();
        assert(front.push(e) =~= log);
        lemma_commits_of_push(front, e, ns);
        lemma_changes_after_push(front, e, ns, k);
        let before = commits_of(front, ns);
        let all = commits_of(log, ns);
        assert(counts_from_one(before)) by {
            assert forall|i: int| 0 <= i < before.len() implies #[trigger] before[i] == i + 1 by {
                assert(before[i] == all[i]);
            }
        }
        lemma_changes_run_on(front, ns, k);
        if e.ns() == ns {
            assert(all[before.len() as int] == e.seq());
            assert(e.seq() == before.len() + 1);
            let ch = changes_after(log, ns, k);
            let ch0 = changes_after(front, ns, k);
            if e.seq() > k {
                assert forall|i: int| 0 <= i < ch.len() implies (#[trigger] ch[i]).seq() == k + 1
                    + i by {
                    if i < ch0.len() {
                        assert(ch[i] == ch0[i]);
                    }
                }
            }
        }
    }
}

/// Whether the store `t`, reached after a subscriber to `ns` joined the
/// store `s` resuming after `k`, keeps that subscriber's buffer in step with
/// the log: unless the buffer has overflowed, it holds exactly the changes
/// of the namespace logged with a number above `k`.
pub open spec fn follows(s: StoreView, ns: Seq<char>, k: u64, t: StoreView) -> bool {
    let p = s.subs.len() as int;
    &&& in_order(t, ns)
    &&& k <= counter_of(t.counters, ns)
    &&& t.subs.len() > p
    &&& t.subs[p].ns == ns
    &&& !t.subs[p].buf.overflow ==> t.subs[p].buf.events == changes_after(t.log, ns, k)
}

/// A write keeps a subscriber's buffer in step with the log.
pub proof fn lemma_write_keeps_in_step(s: StoreView, ns: Seq<char>, k: u64, a: StoreView, b: StoreView)
    requires
        follows(s, ns, k, a),
        is_write(a, b),
    ensures
        follows(s, ns, k, b),
{
    let p = s.subs.len() as int;
    if exists|o: ObjectView|
        #[trigger] a.put(o) == b && o.commit_seq == counter_of(a.counters, o.ns) + 1 {
        let o = choose|o: ObjectView|
            #[trigger] a.put(o) == b && o.commit_seq == counter_of(a.counters, o.ns) + 1;
        lemma_put_keeps_order(a, o, ns);
        lemma_changes_after_push(a.log, EventView::Put(o), ns, k);
        assert(b.subs[p] == fan_out(a.subs, EventView::Put(o), a.config)[p]);
    } else {
        let (dns, id, seq) = choose|dns: Seq<char>, id: Seq<char>, seq: u64|
            #[trigger] a.delete(dns, id, seq) == b && seq == counter_of(a.counters, dns) + 1;
        lemma_delete_keeps_order(a, dns, id, seq, ns);
        let ev = EventView::Delete { ns: dns, id, commit_seq: seq };
        lemma_changes_after_push(a.log, ev, ns, k);
        assert(b.subs[p] == fan_out(a.subs, ev, a.config)[p]);
    }
}

/// Resume and follow as one run: a subscriber resumes after the commit `k`,
/// no later than the namespace's last commit, and puts and deletes go on.
/// Unless its buffer overflows, the buffer then holds the changes logged
/// before it joined and the changes made since as one run: exactly the
/// changes of its namespace with a number above `k`, in commit order, their
/// numbers `k + 1`, `k + 2` and so on up to the last commit. No change made
/// around the time it joined is held twice or left out.
///
/// `s` is the store the subscriber joins; `later` are the stores after each
/// write that follows.
pub proof fn lemma_resumed_stream_is_one_run(
    s: StoreView,
    ns: Seq<char>,
    k: u64,
    later: Seq<StoreView>,
)
    requires
        in_order(s, ns),
        k <= counter_of(s.counters, ns),
        later.len() > 0,
        later[0] == s.subscribe(ns, Some(k)),
        forall|i: int| 0 <= i < later.len() - 1 ==> is_write(#[trigger] later[i], later[i + 1]),
    ensures
        ({
            let end = later.last();
            let b = end.subs[s.subs.len() as int].buf;
            &&& end.subs.len() > s.subs.len()
            &&& !b.overflow ==> b.events == changes_after(end.log, ns, k)
            &&& !b.overflow ==> runs_on_from(b.events, k)
            &&& !b.overflow ==> b.events.len() == counter_of(end.counters, ns) - k
        }),
{
    lemma_resume_is_exact(s, ns, k);
    assert(follows(s, ns, k, later[0]));
    lemma_follows_to_the_end(s, ns, k, later, later.len() - 1);
    let end = later.last();
    lemma_changes_run_on(end.log, ns, k);
}

/// Every store after the subscriber joined keeps its buffer in step.
pub proof fn lemma_follows_to_the_end(
    s: StoreView,
    ns: Seq<char>,
    k: u64,
    later: Seq<StoreView>,
    n: int,
)
    requires
        later.len() > 0,
        follows(s, ns, k, later[0]),
        forall|i: int| 0 <= i < later.len() - 1 ==> is_write(#[trigger] later[i], later[i + 1]),
        0 <= n < later.len(),
    ensures
        follows(s, ns, k, later[n]),
    decreases n,
{
    if n > 0 {
        lemma_follows_to_the_end(s, ns, k, later, n - 1);
        assert(is_write(later[n - 1], later[n - 1 + 1]));
        lemma_write_keeps_in_step(s, ns, k, later[n - 1], later[n]);
    }
}

/// A lease passes on: once the lease granted to one owner was released, or
/// has expired, it holds no other owner off, so the other is granted the
/// resource. The token the other gets is above the first owner's, the new
/// lease stands in place of the old one, and the first owner's fence no longer
/// holds.
pub proof fn lemma_lease_passes_on(
    s: StoreView,
    first: LeaseView,
    next: LeaseView,
    now: i64,
)
    requires
        first.token == counter_of(s.counters, first.ns) + 1,
        next.ns == first.ns,
        next.key == first.key,
        next.owner != first.owner,
    ensures
        ({
            let held = s.grant(first);
            let released = StoreView {
                leases: held.leases.remove((first.ns, first.key)),
                ..held
            };
            &&& !held_by_other(released.leases, first.ns, first.key, next.owner, now)
            &&& now >= first.expires_at ==> !held_by_other(
                held.leases,
                first.ns,
                first.key,
                next.owner,
                now,
            )
            &&& now < first.expires_at ==> held_by_other(
                held.leases,
                first.ns,
                first.key,
                next.owner,
                now,
            )
            &&& counter_of(held.counters, first.ns) == first.token
            &&& counter_of(released.counters, first.ns) == first.token
            &&& next.token == first.token + 1 ==> {
                &&& held.grant(next).leases[(first.ns, first.key)] == next
                &&& released.grant(next).leases[(first.ns, first.key)] == next
                &&& !fence_holds(held.grant(next).leases, first.ns, first.key, first.token, now)
                &&& !fence_holds(
                    released.grant(next).leases,
                    first.ns,
                    first.key,
                    first.token,
                    now,
                )
            }
        }),
{
}

} // verus!
