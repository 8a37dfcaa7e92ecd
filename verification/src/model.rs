//! Objects, their versions, and the request that writes one.

use vstd::prelude::*;
use vstd::string::*;
use vstd::utf8::encode_utf8;
use crate::clock::{fresh_ulid, now_or_end, rfc3339, rfc3339_of};
use crate::json::{json_canonical, json_canonical_of};
use crate::assoc::{
    distinct_keys,
    has_key,
    lemma_to_map_dom,
    lemma_to_map_push,
    lemma_to_map_update,
    lemma_to_map_value,
    to_map,
};
use crate::util::{
    blake3_hex,
    blake3_hex_of,
    copy_pairs,
    copy_texts,
    is_hex_digest,
    text_pairs,
    texts,
};

verus! {

/// The tags of an object: a map from key to value, held as pairs. No key
/// occurs twice.
#[derive(Debug)]
pub struct Tags(pub(crate) Vec<(String, String)>);

impl View for Tags {
    type V = Seq<(Seq<char>, Seq<char>)>;

    closed spec fn view(&self) -> Self::V {
        text_pairs(self.0@)
    }
}

impl Tags {
    #[verifier::type_invariant]
    spec fn no_key_twice(self) -> bool {
        distinct_keys(text_pairs(self.0@))
    }

    /// No tags.
    pub fn new() -> (tags: Tags)
        ensures
            tags@ == Seq::<(Seq<char>, Seq<char>)>::empty(),
    {
        let pairs: Vec<(String, String)> = Vec::new();
        assert(text_pairs(pairs@) =~= Seq::empty());
        Tags(pairs)
    }

    /// The tags as pairs of key and value.
    pub fn pairs(&self) -> (pairs: &Vec<(String, String)>)
        ensures
            text_pairs(pairs@) == self@,
            distinct_keys(self@),
    {
        proof {
            use_type_invariant(self);
        }
        &self.0
    }

    /// The value of the tag `key`, if the object bears it.
    pub fn get(&self, key: &str) -> (value: Option<&str>)
        ensures
            match value {
                Some(v) => to_map(self@).contains_key(key@) && to_map(self@)[key@] == v@,
                None => !to_map(self@).contains_key(key@),
            },
    {
        proof {
            use_type_invariant(self);
            lemma_to_map_dom(self@, key@);
        }
        match find_key(&self.0, key) {
            Some(i) => {
                proof {
                    lemma_to_map_value(self@, i as int);
                }
                Some(self.0[i].1.as_str())
            },
            None => None,
        }
    }

    /// These tags with the tag `key` set to `value`, in place of the value
    /// it had.
    pub fn with(self, key: String, value: String) -> (tags: Tags)
        ensures
            distinct_keys(tags@),
            to_map(tags@) == to_map(self@).insert(key@, value@),
    {
        proof {
            use_type_invariant(&self);
        }
        let Tags(mut pairs) = self;
        set_pair(&mut pairs, key, value);
        Tags(pairs)
    }

    /// The tags that the pairs give, read in order: where a key occurs more
    /// than once, its last value counts.
    pub fn from_pairs(pairs: Vec<(String, String)>) -> (tags: Tags)
        ensures
            distinct_keys(tags@),
            to_map(tags@) == to_map(text_pairs(pairs@)),
    {
        let mut kept: Vec<(String, String)> = Vec::new();
        let ghost all = text_pairs(pairs@);
        assert(all.take(0) =~= Seq::empty());
        assert(text_pairs(kept@) =~= Seq::empty());
        for p in it: pairs
            invariant
                all == text_pairs(it.seq()),
                distinct_keys(text_pairs(kept@)),
                to_map(text_pairs(kept@)) == to_map(all.take(it.index() as int)),
        {
            proof {
                let k = it.index() as int;
                assert(all.take(k + 1).drop_last() =~= all.take(k));
                assert(all.take(k + 1).last() == (p.0@, p.1@));
            }
            set_pair(&mut kept, p.0, p.1);
        }
        assert(all.take(all.len() as int) =~= all);
        Tags(kept)
    }
}

/// Where the pair with the key `key` stands, if there is one.
fn find_key(pairs: &Vec<(String, String)>, key: &str) -> (at: Option<usize>)
    ensures
        match at {
            Some(i) => i < pairs@.len() && text_pairs(pairs@)[i as int].0 == key@,
            None => !has_key(text_pairs(pairs@), key@),
        },
{
    let mut i: usize = 0;
    while i < pairs.len()
        invariant
            i <= pairs@.len(),
            forall|j: int| 0 <= j < i ==> (#[trigger] text_pairs(pairs@)[j]).0 != key@,
        decreases pairs@.len() - i,
    {
        if pairs[i].0.as_str().eq(key) {
            return Some(i);
        }
        i += 1;
    }
    None
}

/// Sets the value beside `key` in a list of pairs without a key twice.
fn set_pair(pairs: &mut Vec<(String, String)>, key: String, value: String)
    requires
        distinct_keys(text_pairs(old(pairs)@)),
    ensures
        distinct_keys(text_pairs(final(pairs)@)),
        to_map(text_pairs(final(pairs)@)) == to_map(text_pairs(old(pairs)@)).insert(key@, value@),
{
    let ghost before = text_pairs(pairs@);
    match find_key(pairs, key.as_str()) {
        Some(i) => {
            proof {
                lemma_to_map_update(before, i as int, value@);
            }
            pairs.set(i, (key, value));
            proof {
                assert(text_pairs(pairs@) =~= before.update(i as int, (key@, value@)));
            }
        },
        None => {
            proof {
                lemma_to_map_push(before, key@, value@);
            }
            pairs.push((key, value));
            proof {
                assert(text_pairs(pairs@) =~= before.push((key@, value@)));
            }
        },
    }
}

impl Default for Tags {
    fn default() -> (tags: Tags)
        ensures
            tags@ == Seq::<(Seq<char>, Seq<char>)>::empty(),
    {
        Tags::new()
    }
}

impl Clone for Tags {
    fn clone(&self) -> (out: Self)
        ensures
            out@ == self@,
    {
        proof {
            use_type_invariant(self);
        }
        Tags(copy_pairs(&self.0))
    }
}

/// A named vector field and the number of its dimensions.
#[derive(Debug, Default)]
pub struct VecField {
    pub name: String,
    pub dims: usize,
}

impl Clone for VecField {
    fn clone(&self) -> (out: Self)
        ensures
            out.name@ == self.name@,
            out.dims == self.dims,
    {
        VecField { name: self.name.clone(), dims: self.dims }
    }
}

/// One immutable version of an object.
///
/// `body` is JSON text. `ts` counts nanoseconds since the Unix epoch, UTC.
#[derive(Debug)]
pub struct Object {
    pub id: String,
    pub ns: String,
    pub kind: String,
    pub body: String,
    pub tags: Tags,
    pub ttl_seconds: Option<u64>,
    pub parents: Vec<String>,
    pub commit: String,
    pub ts: i64,
    pub commit_seq: u64,
}

/// What an object version holds, as plain mathematical values.
pub struct ObjectView {
    pub id: Seq<char>,
    pub ns: Seq<char>,
    pub kind: Seq<char>,
    pub body: Seq<char>,
    pub tags: Seq<(Seq<char>, Seq<char>)>,
    pub ttl_seconds: Option<u64>,
    pub parents: Seq<Seq<char>>,
    pub commit: Seq<char>,
    pub ts: i64,
    pub commit_seq: u64,
}

impl View for Object {
    type V = ObjectView;

    open spec fn view(&self) -> ObjectView {
        ObjectView {
            id: self.id@,
            ns: self.ns@,
            kind: self.kind@,
            body: self.body@,
            tags: self.tags@,
            ttl_seconds: self.ttl_seconds,
            parents: texts(self.parents@),
            commit: self.commit@,
            ts: self.ts,
            commit_seq: self.commit_seq,
        }
    }
}

impl Clone for Object {
    fn clone(&self) -> (out: Self)
        ensures
            out@ == self@,
    {
        Object {
            id: self.id.clone(),
            ns: self.ns.clone(),
            kind: self.kind.clone(),
            body: self.body.clone(),
            tags: self.tags.clone(),
            ttl_seconds: self.ttl_seconds,
            parents: copy_texts(&self.parents),
            commit: self.commit.clone(),
            ts: self.ts,
            commit_seq: self.commit_seq,
        }
    }
}

/// The views of a list of versions.
pub open spec fn object_views(v: Seq<Object>) -> Seq<ObjectView> {
    v.map_values(|o: Object| o@)
}

/// A request to write one version of an object.
///
/// `body` is JSON text. Without an `id` the store draws one.
#[derive(Debug, Default)]
pub struct PutRequest {
    pub kind: String,
    pub body: String,
    pub tags: Tags,
    pub ttl_seconds: Option<u64>,
    pub id: Option<String>,
    pub parents: Vec<String>,
}

/// What a put request holds, as plain mathematical values.
pub struct PutRequestView {
    pub kind: Seq<char>,
    pub body: Seq<char>,
    pub tags: Seq<(Seq<char>, Seq<char>)>,
    pub ttl_seconds: Option<u64>,
    pub id: Option<Seq<char>>,
    pub parents: Seq<Seq<char>>,
}

impl View for PutRequest {
    type V = PutRequestView;

    open spec fn view(&self) -> PutRequestView {
        PutRequestView {
            kind: self.kind@,
            body: self.body@,
            tags: self.tags@,
            ttl_seconds: self.ttl_seconds,
            id: match self.id {
                Some(id) => Some(id@),
                None => None,
            },
            parents: texts(self.parents@),
        }
    }
}

/// The text that a commit id is the digest of: namespace, id, type and
/// RFC 3339 timestamp, joined by colons, then the body in compact JSON (nothing
/// where the body is not JSON).
pub open spec fn seed_text(
    ns: Seq<char>,
    id: Seq<char>,
    kind: Seq<char>,
    ts: i64,
    body: Seq<char>,
) -> Seq<char> {
    ns + seq![':'] + id + seq![':'] + kind + seq![':'] + rfc3339_of(ts) + match json_canonical_of(
        body,
    ) {
        Some(text) => text,
        None => Seq::empty(),
    }
}

/// The commit id of a version: the BLAKE3 digest, in hexadecimal, of the
/// UTF-8 bytes of its seed text.
pub open spec fn commit_of(
    ns: Seq<char>,
    id: Seq<char>,
    kind: Seq<char>,
    ts: i64,
    body: Seq<char>,
) -> Seq<char> {
    blake3_hex_of(encode_utf8(seed_text(ns, id, kind, ts, body)))
}

/// The id a request is written under: its own, or else `fresh`.
pub open spec fn chosen_id(req: PutRequestView, fresh: Seq<char>) -> Seq<char> {
    match req.id {
        Some(id) => id,
        None => fresh,
    }
}

/// The version that `req` becomes in namespace `ns` at sequence number
/// `commit_seq`, written at instant `ts`, with `fresh` as its id where the
/// request names none.
pub open spec fn assembled(
    ns: Seq<char>,
    req: PutRequestView,
    commit_seq: u64,
    fresh: Seq<char>,
    ts: i64,
) -> ObjectView {
    let id = chosen_id(req, fresh);
    ObjectView {
        id,
        ns,
        kind: req.kind,
        body: req.body,
        tags: req.tags,
        ttl_seconds: req.ttl_seconds,
        parents: req.parents,
        commit: commit_of(ns, id, req.kind, ts, req.body),
        ts,
        commit_seq,
    }
}

/// Computes the commit id of a version from the parts of its seed.
pub fn commit_id(ns: &str, id: &str, kind: &str, ts: i64, body: &str) -> (commit: String)
    ensures
        commit@ == commit_of(ns@, id@, kind@, ts, body@),
        is_hex_digest(commit@),
{
    let mut seed = String::new();
    seed.append(ns);
    seed.push(':');
    seed.append(id);
    seed.push(':');
    seed.append(kind);
    seed.push(':');
    let stamp = rfc3339(ts);
    seed.append(stamp.as_str());
    match json_canonical(body) {
        Some(text) => {
            seed.append(text.as_str());
        },
        None => {},
    }
    assert(seed@ =~= seed_text(ns@, id@, kind@, ts, body@));
    blake3_hex(seed.as_str().as_bytes())
}

impl Object {
    /// Builds the version that `req` becomes in `ns` at `commit_seq`, written
    /// at instant `ts`. `fresh` is its id where the request names none.
    pub fn build(ns: String, req: PutRequest, commit_seq: u64, fresh: String, ts: i64) -> (out:
        Object)
        ensures
            out@ == assembled(ns@, req@, commit_seq, fresh@, ts),
            is_hex_digest(out@.commit),
            distinct_keys(out@.tags),
    {
        proof {
            use_type_invariant(&req.tags);
        }
        let id = match req.id {
            Some(id) => id,
            None => fresh,
        };
        let commit = commit_id(ns.as_str(), id.as_str(), req.kind.as_str(), ts, req.body.as_str());
        Object {
            id,
            ns,
            kind: req.kind,
            body: req.body,
            tags: req.tags,
            ttl_seconds: req.ttl_seconds,
            parents: req.parents,
            commit,
            ts,
            commit_seq,
        }
    }

    /// Builds the version that `req` becomes in `ns` at `commit_seq`, written
    /// now. Where the request names no id, a ULID is drawn.
    pub fn new_with_seq(ns: String, req: PutRequest, commit_seq: u64) -> (out: Object)
        ensures
            exists|fresh: Seq<char>, ts: i64| out@ == assembled(ns@, req@, commit_seq, fresh, ts),
            req@.id is None ==> out@.id.len() == 26,
            is_hex_digest(out@.commit),
            distinct_keys(out@.tags),
    {
        let fresh = match &req.id {
            Some(_) => String::new(),
            None => fresh_ulid(),
        };
        let ts = now_or_end();
        Object::build(ns, req, commit_seq, fresh, ts)
    }
}

} // verus!
