//! The object table: for every namespace and id, the versions written so
//! far, oldest first. The last version is the current one.

use vstd::prelude::*;
use vstd::string::*;
use crate::clock::NANOS_PER_SECOND;
use crate::model::{object_views, Object, ObjectView};

verus! {

/// The versions of one object.
#[derive(Debug)]
pub struct Entry {
    ns: String,
    id: String,
    versions: Vec<Object>,
}

/// The versions of one object, as plain mathematical values.
pub struct EntryView {
    pub ns: Seq<char>,
    pub id: Seq<char>,
    pub versions: Seq<ObjectView>,
}

impl EntryView {
    /// The current version.
    pub open spec fn current(self) -> ObjectView {
        self.versions.last()
    }

    /// Whether this is the entry of the object `id` of `ns`.
    pub open spec fn is_for(self, ns: Seq<char>, id: Seq<char>) -> bool {
        self.ns == ns && self.id == id
    }
}

impl View for Entry {
    type V = EntryView;

    closed spec fn view(&self) -> EntryView {
        EntryView { ns: self.ns@, id: self.id@, versions: object_views(self.versions@) }
    }
}

/// The table, entry by entry, in the order in which the objects were first
/// written.
pub type TableView = Seq<EntryView>;

/// Whether a version has outlived its time to live at `now`.
pub open spec fn expired(o: ObjectView, now: i64) -> bool {
    o.ttl_seconds matches Some(ttl) && o.ts + ttl * NANOS_PER_SECOND < now
}

/// Whether a version counts for a read as of `at`: written no later than
/// `at`, where an instant is given, and not expired at `now`.
pub open spec fn readable(o: ObjectView, at: Option<i64>, now: i64) -> bool {
    (at matches Some(t) ==> o.ts <= t) && !expired(o, now)
}

/// The newest of `versions` that counts for a read as of `at`.
pub open spec fn visible(versions: Seq<ObjectView>, at: Option<i64>, now: i64) -> Option<
    ObjectView,
>
    decreases versions.len(),
{
    if versions.len() == 0 {
        None
    } else if readable(versions.last(), at, now) {
        Some(versions.last())
    } else {
        visible(versions.drop_last(), at, now)
    }
}

/// What a read of the object `id` of `ns` as of `at` finds at `now`: the
/// newest version that counts, if the object exists and has one.
pub open spec fn read_of(
    t: TableView,
    ns: Seq<char>,
    id: Seq<char>,
    at: Option<i64>,
    now: i64,
) -> Option<ObjectView> {
    if has_entry(t, ns, id) {
        visible(t[position(t, ns, id)].versions, at, now)
    } else {
        None
    }
}

/// Whether the table is sound: no object has two entries, every entry has
/// a version, and every version bears the namespace and id it is filed
/// under.
pub open spec fn table_wf(t: TableView) -> bool {
    &&& forall|i: int, j: int|
        0 <= i < j < t.len() ==> !(#[trigger] t[i]).is_for((#[trigger] t[j]).ns, t[j].id)
    &&& forall|i: int| 0 <= i < t.len() ==> (#[trigger] t[i]).versions.len() > 0
    &&& forall|i: int, k: int|
        0 <= i < t.len() && 0 <= k < t[i].versions.len() ==> (#[trigger] t[i].versions[k]).ns
            == t[i].ns && t[i].versions[k].id == t[i].id
}

/// Whether the table has an entry for the object `id` of `ns`.
pub open spec fn has_entry(t: TableView, ns: Seq<char>, id: Seq<char>) -> bool {
    exists|i: int| 0 <= i < t.len() && (#[trigger] t[i]).is_for(ns, id)
}

/// Where the entry of the object `id` of `ns` stands in the table.
pub open spec fn position(t: TableView, ns: Seq<char>, id: Seq<char>) -> int {
    choose|i: int| 0 <= i < t.len() && (#[trigger] t[i]).is_for(ns, id)
}

/// The table after the version `o` was written: appended to the entry of
/// its object, or filed as the first version of a new entry at the end.
pub open spec fn table_put(t: TableView, o: ObjectView) -> TableView {
    if has_entry(t, o.ns, o.id) {
        let i = position(t, o.ns, o.id);
        t.update(i, EntryView { versions: t[i].versions.push(o), ..t[i] })
    } else {
        t.push(EntryView { ns: o.ns, id: o.id, versions: seq![o] })
    }
}

/// The table without the entry of the object `id` of `ns`.
pub open spec fn table_remove(t: TableView, ns: Seq<char>, id: Seq<char>) -> TableView {
    if has_entry(t, ns, id) {
        t.remove(position(t, ns, id))
    } else {
        t
    }
}

/// The current version of every object, in table order.
pub open spec fn currents(t: TableView) -> Seq<ObjectView> {
    t.map_values(|e: EntryView| e.current())
}

/// Where entries are distinct, an entry stands at its position.
pub proof fn lemma_position(t: TableView, i: int)
    requires
        table_wf(t),
        0 <= i < t.len(),
    ensures
        has_entry(t, t[i].ns, t[i].id),
        position(t, t[i].ns, t[i].id) == i,
{
    assert(t[i].is_for(t[i].ns, t[i].id));
    let p = position(t, t[i].ns, t[i].id);
    if p < i {
        assert(!t[p].is_for(t[i].ns, t[i].id));
    } else if i < p {
        assert(!t[i].is_for(t[p].ns, t[p].id));
    }
}

/// Writing a version keeps the table sound, makes the version current,
/// and leaves every other object as it was.
pub proof fn lemma_table_put(t: TableView, o: ObjectView)
    requires
        table_wf(t),
    ensures
        table_wf(table_put(t, o)),
        has_entry(table_put(t, o), o.ns, o.id),
        table_put(t, o)[position(table_put(t, o), o.ns, o.id)].current() == o,
        forall|ns: Seq<char>, id: Seq<char>|
            !(ns == o.ns && id == o.id) ==> (has_entry(table_put(t, o), ns, id) <==> has_entry(
                t,
                ns,
                id,
            )),
        forall|ns: Seq<char>, id: Seq<char>|
            !(ns == o.ns && id == o.id) && has_entry(t, ns, id) ==> table_put(t, o)[position(
                table_put(t, o),
                ns,
                id,
            )] == t[position(t, ns, id)],
{
    let u = table_put(t, o);
    if has_entry(t, o.ns, o.id) {
        let i = position(t, o.ns, o.id);
        assert(forall|j: int| 0 <= j < t.len() && j != i ==> u[j] == t[j]);
        assert(u[i].is_for(o.ns, o.id));
        assert(table_wf(u)) by {
            assert forall|a: int, b: int| 0 <= a < b < u.len() implies !(#[trigger] u[a]).is_for(
                (#[trigger] u[b]).ns,
                u[b].id,
            ) by {
                assert(!t[a].is_for(t[b].ns, t[b].id));
            }
            assert forall|a: int, k: int|
                0 <= a < u.len() && 0 <= k < u[a].versions.len() implies (
            #[trigger] u[a].versions[k]).ns == u[a].ns && u[a].versions[k].id == u[a].id by {
                if a == i && k < t[i].versions.len() {
                    assert(u[a].versions[k] == t[i].versions[k]);
                } else if a != i {
                    assert(u[a].versions[k] == t[a].versions[k]);
                }
            }
        }
        lemma_position(u, i);
        assert forall|ns: Seq<char>, id: Seq<char>| !(ns == o.ns && id == o.id) implies ((
        has_entry(u, ns, id) <==> has_entry(t, ns, id)) && (has_entry(t, ns, id) ==> u[position(
            u,
            ns,
            id,
        )] == t[position(t, ns, id)])) by {
            if has_entry(t, ns, id) {
                let p = position(t, ns, id);
                assert(u[p] == t[p]);
                assert(u[p].is_for(ns, id));
                lemma_position(u, p);
            }
            if has_entry(u, ns, id) {
                let p = position(u, ns, id);
                assert(t[p].is_for(ns, id));
            }
        }
    } else {
        let n = t.len() as int;
        assert(forall|j: int| 0 <= j < n ==> u[j] == t[j]);
        assert(u[n].is_for(o.ns, o.id));
        assert(table_wf(u)) by {
            assert forall|a: int, b: int| 0 <= a < b < u.len() implies !(#[trigger] u[a]).is_for(
                (#[trigger] u[b]).ns,
                u[b].id,
            ) by {
                if b < n {
                    assert(!t[a].is_for(t[b].ns, t[b].id));
                } else {
                    assert(t[a].is_for(o.ns, o.id) ==> has_entry(t, o.ns, o.id));
                }
            }
            assert forall|a: int, k: int|
                0 <= a < u.len() && 0 <= k < u[a].versions.len() implies (
            #[trigger] u[a].versions[k]).ns == u[a].ns && u[a].versions[k].id == u[a].id by {
                if a < n {
                    assert(u[a].versions[k] == t[a].versions[k]);
                }
            }
        }
        lemma_position(u, n);
        assert forall|ns: Seq<char>, id: Seq<char>| !(ns == o.ns && id == o.id) implies ((
        has_entry(u, ns, id) <==> has_entry(t, ns, id)) && (has_entry(t, ns, id) ==> u[position(
            u,
            ns,
            id,
        )] == t[position(t, ns, id)])) by {
            if has_entry(t, ns, id) {
                let p = position(t, ns, id);
                assert(u[p] == t[p]);
                assert(u[p].is_for(ns, id));
                lemma_position(u, p);
            }
            if has_entry(u, ns, id) {
                let p = position(u, ns, id);
                assert(p < n);
                assert(t[p].is_for(ns, id));
            }
        }
    }
}

/// Removing an object keeps the table sound, leaves no entry for it, and
/// leaves every other object as it was.
pub proof fn lemma_table_remove(t: TableView, ns: Seq<char>, id: Seq<char>)
    requires
        table_wf(t),
    ensures
        table_wf(table_remove(t, ns, id)),
        !has_entry(table_remove(t, ns, id), ns, id),
        forall|n2: Seq<char>, i2: Seq<char>|
            !(n2 == ns && i2 == id) ==> (has_entry(table_remove(t, ns, id), n2, i2) <==> has_entry(
                t,
                n2,
                i2,
            )),
        forall|n2: Seq<char>, i2: Seq<char>|
            !(n2 == ns && i2 == id) && has_entry(t, n2, i2) ==> table_remove(t, ns, id)[position(
                table_remove(t, ns, id),
                n2,
                i2,
            )] == t[position(t, n2, i2)],
{
    let u = table_remove(t, ns, id);
    if has_entry(t, ns, id) {
        let i = position(t, ns, id);
        assert(forall|a: int| 0 <= a < u.len() ==> #[trigger] u[a] == t[if a < i { a } else { a + 1 }]);
        assert(table_wf(u)) by {
            assert forall|a: int, b: int| 0 <= a < b < u.len() implies !(#[trigger] u[a]).is_for(
                (#[trigger] u[b]).ns,
                u[b].id,
            ) by {
                let a2 = if a < i { a } else { a + 1 };
                let b2 = if b < i { b } else { b + 1 };
                assert(u[a] == t[a2] && u[b] == t[b2]);
                assert(!t[a2].is_for(t[b2].ns, t[b2].id));
            }
            assert forall|a: int| 0 <= a < u.len() implies (#[trigger] u[a]).versions.len() > 0 by {
                let a2 = if a < i { a } else { a + 1 };
                assert(u[a] == t[a2]);
            }
            assert forall|a: int, k: int|
                0 <= a < u.len() && 0 <= k < u[a].versions.len() implies (
            #[trigger] u[a].versions[k]).ns == u[a].ns && u[a].versions[k].id == u[a].id by {
                let a2 = if a < i { a } else { a + 1 };
                assert(u[a] == t[a2]);
                assert(u[a].versions[k] == t[a2].versions[k]);
            }
        }
        assert(!has_entry(u, ns, id)) by {
            if has_entry(u, ns, id) {
                let a = position(u, ns, id);
                let a2 = if a < i { a } else { a + 1 };
                assert(u[a] == t[a2]);
                if a2 < i {
                    assert(!t[a2].is_for(t[i].ns, t[i].id));
                } else {
                    assert(!t[i].is_for(t[a2].ns, t[a2].id));
                }
            }
        }
        assert forall|n2: Seq<char>, i2: Seq<char>| !(n2 == ns && i2 == id) implies ((has_entry(
            u,
            n2,
            i2,
        ) <==> has_entry(t, n2, i2)) && (has_entry(t, n2, i2) ==> u[position(u, n2, i2)]
            == t[position(t, n2, i2)])) by {
            if has_entry(t, n2, i2) {
                let p = position(t, n2, i2);
                let a = if p < i { p } else { p - 1 };
                assert(u[a] == t[p]);
                assert(u[a].is_for(n2, i2));
                lemma_position(u, a);
            }
            if has_entry(u, n2, i2) {
                let a = position(u, n2, i2);
                let a2 = if a < i { a } else { a + 1 };
                assert(u[a] == t[a2]);
                assert(t[a2].is_for(n2, i2));
            }
        }
    }
}

/// Whether a version has outlived its time to live at `now`.
pub fn is_expired(o: &Object, now: i64) -> (b: bool)
    ensures
        b == expired(o@, now),
{
    match o.ttl_seconds {
        Some(ttl) => {
            let end: i128 = (o.ts as i128) + (ttl as i128) * (NANOS_PER_SECOND as i128);
            end < now as i128
        },
        None => false,
    }
}

/// The table itself.
#[derive(Debug)]
pub struct ObjectTable {
    entries: Vec<Entry>,
}

impl View for ObjectTable {
    type V = TableView;

    closed spec fn view(&self) -> TableView {
        self.entries@.map_values(|e: Entry| e@)
    }
}

impl ObjectTable {
    /// Whether the table is sound.
    pub open spec fn wf(&self) -> bool {
        table_wf(self@)
    }

    /// An empty table.
    pub fn new() -> (table: ObjectTable)
        ensures
            table@ == TableView::empty(),
            table.wf(),
    {
        let table = ObjectTable { entries: Vec::new() };
        assert(table@ =~= TableView::empty());
        table
    }

    /// The number of objects.
    pub fn len(&self) -> (n: usize)
        ensures
            n == self@.len(),
    {
        self.entries.len()
    }

    /// The namespace of the `i`-th entry.
    pub fn ns_at(&self, i: usize) -> (ns: &str)
        requires
            i < self@.len(),
        ensures
            ns@ == self@[i as int].ns,
    {
        self.entries[i].ns.as_str()
    }

    /// The id of the `i`-th entry.
    pub fn id_at(&self, i: usize) -> (id: &str)
        requires
            i < self@.len(),
        ensures
            id@ == self@[i as int].id,
    {
        self.entries[i].id.as_str()
    }

    /// The versions of the `i`-th entry, oldest first.
    pub fn versions_at(&self, i: usize) -> (versions: &Vec<Object>)
        requires
            i < self@.len(),
        ensures
            object_views(versions@) == self@[i as int].versions,
    {
        &self.entries[i].versions
    }

    /// The current version of the `i`-th entry.
    pub fn current_at(&self, i: usize) -> (o: &Object)
        requires
            self.wf(),
            i < self@.len(),
        ensures
            o@ == self@[i as int].current(),
    {
        let versions = &self.entries[i].versions;
        assert(self@[i as int].versions.len() > 0);
        &versions[versions.len() - 1]
    }

    /// Where the entry of the object `id` of `ns` stands, if there is one.
    pub fn find(&self, ns: &str, id: &str) -> (at: Option<usize>)
        requires
            self.wf(),
        ensures
            match at {
                Some(i) => has_entry(self@, ns@, id@) && i == position(self@, ns@, id@) && i
                    < self@.len() && self@[i as int].is_for(ns@, id@),
                None => !has_entry(self@, ns@, id@),
            },
    {
        let mut i: usize = 0;
        while i < self.entries.len()
            invariant
                i <= self.entries@.len(),
                self.wf(),
                forall|j: int| 0 <= j < i ==> !(#[trigger] self@[j]).is_for(ns@, id@),
            decreases self.entries@.len() - i,
        {
            if self.entries[i].ns.as_str().eq(ns) && self.entries[i].id.as_str().eq(id) {
                proof {
                    assert(self@[i as int].is_for(ns@, id@));
                    lemma_position(self@, i as int);
                }
                return Some(i);
            }
            i += 1;
        }
        None
    }

    /// Files the version `o`: appended to the entry of its object, or as the
    /// first version of a new entry.
    pub fn put(&mut self, o: Object)
        requires
            old(self).wf(),
        ensures
            final(self).wf(),
            final(self)@ == table_put(old(self)@, o@),
    {
        proof {
            lemma_table_put(self@, o@);
        }
        let found = self.find(o.ns.as_str(), o.id.as_str());
        match found {
            Some(i) => {
                let ghost before = self.entries@[i as int].versions@;
                let ghost view = o@;
                self.entries[i].versions.push(o);
                proof {
                    assert(object_views(before.push(o)) =~= object_views(before).push(view));
                    assert(self@ =~= table_put(old(self)@, view));
                }
            },
            None => {
                let ghost view = o@;
                let mut versions: Vec<Object> = Vec::new();
                let ns = o.ns.clone();
                let id = o.id.clone();
                versions.push(o);
                assert(object_views(versions@) =~= seq![view]);
                self.entries.push(Entry { ns, id, versions });
                proof {
                    assert(self@ =~= table_put(old(self)@, view));
                }
            },
        }
    }

    /// Removes the object `id` of `ns` with all its versions. Says whether
    /// there was one.
    pub fn remove(&mut self, ns: &str, id: &str) -> (existed: bool)
        requires
            old(self).wf(),
        ensures
            final(self).wf(),
            existed == has_entry(old(self)@, ns@, id@),
            final(self)@ == table_remove(old(self)@, ns@, id@),
    {
        proof {
            lemma_table_remove(self@, ns@, id@);
        }
        match self.find(ns, id) {
            Some(i) => {
                self.entries.remove(i);
                proof {
                    assert(self@ =~= table_remove(old(self)@, ns@, id@));
                }
                true
            },
            None => false,
        }
    }

    /// Removes the `i`-th entry.
    pub fn remove_at(&mut self, i: usize)
        requires
            old(self).wf(),
            i < old(self)@.len(),
        ensures
            final(self).wf(),
            final(self)@ == old(self)@.remove(i as int),
            final(self)@ == table_remove(old(self)@, old(self)@[i as int].ns, old(self)@[i as int].id),
    {
        proof {
            lemma_position(self@, i as int);
            lemma_table_remove(self@, self@[i as int].ns, self@[i as int].id);
        }
        self.entries.remove(i);
        proof {
            assert(self@ =~= old(self)@.remove(i as int));
        }
    }
}

} // verus!
