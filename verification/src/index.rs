//! The secondary index: which objects carry which attribute.
//!
//! An attribute is a tag (key and value) or the value found under a
//! registered JSON path. The index holds one posting for every attribute that
//! the current version of an object carries, and answers which objects of a
//! namespace carry a given attribute without reading the objects.

use vstd::prelude::*;
use vstd::string::*;
use crate::util::texts;

verus! {

/// The kind of an indexed attribute.
#[derive(Debug, Clone, Copy, PartialEq, Eq, Structural)]
pub enum AttrKind {
    /// A tag: the key and the value are the tag's.
    Tag,
    /// A JSON path: the key is the path, the value the compact JSON text
    /// found under it.
    Json,
}

/// The statement that an object carries an attribute.
#[derive(Debug)]
pub struct Posting {
    kind: AttrKind,
    ns: String,
    key: String,
    value: String,
    id: String,
}

/// A posting, as plain mathematical values.
pub struct PostingView {
    pub kind: AttrKind,
    pub ns: Seq<char>,
    pub key: Seq<char>,
    pub value: Seq<char>,
    pub id: Seq<char>,
}

impl View for Posting {
    type V = PostingView;

    closed spec fn view(&self) -> PostingView {
        PostingView {
            kind: self.kind,
            ns: self.ns@,
            key: self.key@,
            value: self.value@,
            id: self.id@,
        }
    }
}

/// The postings of all namespaces.
#[derive(Debug)]
pub struct AttributeIndex {
    postings: Vec<Posting>,
}

impl View for AttributeIndex {
    type V = Set<PostingView>;

    closed spec fn view(&self) -> Set<PostingView> {
        Set::new(|q: PostingView| exists|i: int| 0 <= i < self.postings@.len() && (#[trigger] self.postings@[i])@ == q)
    }
}

impl AttributeIndex {
    /// Whether no posting is held twice.
    pub closed spec fn wf(&self) -> bool {
        forall|i: int, j: int|
            0 <= i < j < self.postings@.len() ==> (#[trigger] self.postings@[i])@ != (
            #[trigger] self.postings@[j])@
    }

    /// An index without postings.
    pub fn new() -> (index: AttributeIndex)
        ensures
            index.wf(),
            index@ == Set::<PostingView>::empty(),
    {
        let index = AttributeIndex { postings: Vec::new() };
        assert(index@ =~= Set::<PostingView>::empty());
        index
    }

    fn matches(p: &Posting, kind: AttrKind, ns: &str, key: &str, value: &str) -> (b: bool)
        ensures
            b == (p@.kind == kind && p@.ns == ns@ && p@.key == key@ && p@.value == value@),
    {
        let same_kind = match (p.kind, kind) {
            (AttrKind::Tag, AttrKind::Tag) => true,
            (AttrKind::Json, AttrKind::Json) => true,
            _ => false,
        };
        same_kind && p.ns.as_str().eq(ns) && p.key.as_str().eq(key) && p.value.as_str().eq(value)
    }

    /// Whether the object `id` of `ns` is posted under the attribute.
    pub fn contains(&self, kind: AttrKind, ns: &str, key: &str, value: &str, id: &str) -> (b: bool)
        ensures
            b == self@.contains(PostingView { kind, ns: ns@, key: key@, value: value@, id: id@ }),
    {
        let ghost q = PostingView { kind, ns: ns@, key: key@, value: value@, id: id@ };
        let mut i: usize = 0;
        while i < self.postings.len()
            invariant
                i <= self.postings@.len(),
                q == (PostingView { kind, ns: ns@, key: key@, value: value@, id: id@ }),
                forall|j: int| 0 <= j < i ==> (#[trigger] self.postings@[j])@ != q,
            decreases self.postings@.len() - i,
        {
            if Self::matches(&self.postings[i], kind, ns, key, value) && self.postings[i].id.as_str().eq(
                id,
            ) {
                assert(self.postings@[i as int]@ == q);
                return true;
            }
            i += 1;
        }
        false
    }

    /// Posts the object `id` of `ns` under the attribute, unless it is.
    pub fn add(&mut self, kind: AttrKind, ns: &str, key: &str, value: &str, id: &str)
        requires
            old(self).wf(),
        ensures
            final(self).wf(),
            final(self)@ == old(self)@.insert(
                PostingView { kind, ns: ns@, key: key@, value: value@, id: id@ },
            ),
    {
        let ghost q = PostingView { kind, ns: ns@, key: key@, value: value@, id: id@ };
        if self.contains(kind, ns, key, value, id) {
            assert(self@ =~= self@.insert(q));
            return ;
        }
        let p = Posting {
            kind,
            ns: ns.to_owned(),
            key: key.to_owned(),
            value: value.to_owned(),
            id: id.to_owned(),
        };
        assert(p@ == q);
        let ghost before = self.postings@;
        self.postings.push(p);
        proof {
            assert forall|r: PostingView| self@.contains(r) <==> old(self)@.insert(q).contains(
                r,
            ) by {
                if self@.contains(r) {
                    let i = choose|i: int|
                        0 <= i < self.postings@.len() && (#[trigger] self.postings@[i])@ == r;
                    if i < before.len() {
                        assert(before[i]@ == r);
                    }
                }
                if old(self)@.contains(r) {
                    let i = choose|i: int| 0 <= i < before.len() && (#[trigger] before[i])@ == r;
                    assert(self.postings@[i]@ == r);
                }
                if r == q {
                    assert(self.postings@[before.len() as int]@ == r);
                }
            }
            assert(self@ =~= old(self)@.insert(q));
            assert forall|i: int, j: int| 0 <= i < j < self.postings@.len() implies (
            #[trigger] self.postings@[i])@ != (#[trigger] self.postings@[j])@ by {
                assert(self.postings@[i] == before[i]);
                if j < before.len() {
                    assert(self.postings@[j] == before[j]);
                }
            }
        }
    }

    /// Withdraws every posting of the object `id` of `ns`.
    pub fn drop_object(&mut self, ns: &str, id: &str)
        requires
            old(self).wf(),
        ensures
            final(self).wf(),
            forall|q: PostingView|
                final(self)@.contains(q) <==> old(self)@.contains(q) && !(q.ns == ns@ && q.id
                    == id@),
    {
        let ghost before = self.postings@;
        let mut kept: Vec<Posting> = Vec::new();
        let ghost mut origin: Seq<int> = Seq::empty();
        let mut i: usize = self.postings.len();
        // Postings are moved over from the back; the order among them is of
        // no account.
        while i > 0
            invariant
                i == self.postings@.len(),
                i <= before.len(),
                self.postings@ == before.take(i as int),
                origin.len() == kept@.len(),
                forall|a: int|
                    0 <= a < kept@.len() ==> i <= #[trigger] origin[a] < before.len()
                        && before[origin[a]]@ == kept@[a]@ && !(kept@[a]@.ns == ns@ && kept@[a]@.id
                        == id@),
                forall|a: int, b: int| 0 <= a < b < kept@.len() ==> origin[a] > origin[b],
                forall|j: int|
                    i <= j < before.len() && !((#[trigger] before[j])@.ns == ns@ && before[j]@.id
                        == id@) ==> exists|a: int| 0 <= a < kept@.len() && #[trigger] origin[a] == j,
            decreases i,
        {
            let p = self.postings.pop().unwrap();
            assert(p == before[i - 1]);
            assert(self.postings@ =~= before.take(i - 1));
            i -= 1;
            if !(p.ns.as_str().eq(ns) && p.id.as_str().eq(id)) {
                let ghost old_origin = origin;
                kept.push(p);
                proof {
                    origin = origin.push(i as int);
                    assert forall|j: int|
                        i <= j < before.len() && !((#[trigger] before[j])@.ns == ns@
                            && before[j]@.id == id@) implies exists|a: int|
                        0 <= a < kept@.len() && #[trigger] origin[a] == j by {
                        if j == i {
                            assert(origin[old_origin.len() as int] == j);
                        } else {
                            let a = choose|a: int|
                                0 <= a < old_origin.len() && #[trigger] old_origin[a] == j;
                            assert(origin[a] == j);
                        }
                    }
                }
            }
        }
        self.postings = kept;
        proof {
            assert forall|a: int, b: int| 0 <= a < b < self.postings@.len() implies (
            #[trigger] self.postings@[a])@ != (#[trigger] self.postings@[b])@ by {
                assert(origin[a] > origin[b]);
                assert(before[origin[b]]@ != before[origin[a]]@);
            }
            assert forall|q: PostingView|
                self@.contains(q) <==> old(self)@.contains(q) && !(q.ns == ns@ && q.id
                    == id@) by {
                if self@.contains(q) {
                    let a = choose|a: int|
                        0 <= a < self.postings@.len() && (#[trigger] self.postings@[a])@ == q;
                    assert(before[origin[a]]@ == q);
                }
                if old(self)@.contains(q) && !(q.ns == ns@ && q.id == id@) {
                    let j = choose|j: int| 0 <= j < before.len() && (#[trigger] before[j])@ == q;
                    let a = choose|a: int| 0 <= a < origin.len() && #[trigger] origin[a] == j;
                    assert(self.postings@[a]@ == q);
                }
            }
        }
    }

    /// The ids of the objects of `ns` posted under the attribute, each once.
    pub fn ids_for(&self, kind: AttrKind, ns: &str, key: &str, value: &str) -> (ids: Vec<String>)
        requires
            self.wf(),
        ensures
            forall|a: int, b: int|
                0 <= a < b < ids@.len() ==> (#[trigger] ids@[a])@ != (#[trigger] ids@[b])@,
            forall|id: Seq<char>|
                texts(ids@).contains(id) <==> self@.contains(
                    PostingView { kind, ns: ns@, key: key@, value: value@, id },
                ),
    {
        let mut ids: Vec<String> = Vec::new();
        let ghost mut origin: Seq<int> = Seq::empty();
        let mut i: usize = 0;
        while i < self.postings.len()
            invariant
                i <= self.postings@.len(),
                self.wf(),
                origin.len() == ids@.len(),
                forall|a: int|
                    0 <= a < ids@.len() ==> 0 <= #[trigger] origin[a] < i && self.postings@[origin[a]]@
                        == (PostingView { kind, ns: ns@, key: key@, value: value@, id: ids@[a]@ }),
                forall|a: int, b: int| 0 <= a < b < ids@.len() ==> origin[a] < origin[b],
                forall|j: int|
                    0 <= j < i && ({
                        let p = (#[trigger] self.postings@[j])@;
                        p.kind == kind && p.ns == ns@ && p.key == key@ && p.value == value@
                    }) ==> exists|a: int| 0 <= a < ids@.len() && #[trigger] origin[a] == j,
            decreases self.postings@.len() - i,
        {
            if Self::matches(&self.postings[i], kind, ns, key, value) {
                let ghost old_origin = origin;
                ids.push(self.postings[i].id.clone());
                proof {
                    origin = origin.push(i as int);
                    assert forall|j: int|
                        0 <= j < i + 1 && ({
                            let p = (#[trigger] self.postings@[j])@;
                            p.kind == kind && p.ns == ns@ && p.key == key@ && p.value == value@
                        }) implies exists|a: int| 0 <= a < ids@.len() && #[trigger] origin[a] == j by {
                        if j < i {
                            let a = choose|a: int|
                                0 <= a < old_origin.len() && #[trigger] old_origin[a] == j;
                            assert(origin[a] == j);
                        } else {
                            assert(origin[old_origin.len() as int] == j);
                        }
                    }
                }
            }
            i += 1;
        }
        proof {
            assert forall|a: int, b: int| 0 <= a < b < ids@.len() implies (#[trigger] ids@[a])@ != (
            #[trigger] ids@[b])@ by {
                assert(origin[a] < origin[b]);
                assert(self.postings@[origin[a]]@ != self.postings@[origin[b]]@);
            }
            assert forall|id: Seq<char>|
                texts(ids@).contains(id) <==> self@.contains(
                    PostingView { kind, ns: ns@, key: key@, value: value@, id },
                ) by {
                let q = PostingView { kind, ns: ns@, key: key@, value: value@, id };
                if texts(ids@).contains(id) {
                    let a = choose|a: int| 0 <= a < texts(ids@).len() && texts(ids@)[a] == id;
                    assert(ids@[a]@ == id);
                    assert(self.postings@[origin[a]]@ == q);
                }
                if self@.contains(q) {
                    let j = choose|j: int|
                        0 <= j < self.postings@.len() && (#[trigger] self.postings@[j])@ == q;
                    let a = choose|a: int| 0 <= a < ids@.len() && #[trigger] origin[a] == j;
                    assert(texts(ids@)[a] == id);
                }
            }
        }
        ids
    }
}

} // verus!
