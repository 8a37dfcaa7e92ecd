//! Idempotency records: what a write made under a key answered, so that the
//! same write, sent again, gets the same answer.

use vstd::prelude::*;
use vstd::string::*;
use vstd::utf8::encode_utf8;
use crate::assoc::{
    distinct_keys,
    has_key,
    lemma_to_map_dom,
    lemma_to_map_push,
    lemma_to_map_update,
    lemma_to_map_value,
    to_map,
};
use crate::errors::StateError;
use crate::json::{json_canonical, json_canonical_of};
use crate::traits::{IdempotencyRecord, IdempotencyView};
use crate::util::{blake3_hex, blake3_hex_of};

verus! {

/// The records of all namespaces, by namespace and key.
pub type IdempotencyMap = Map<(Seq<char>, Seq<char>), IdempotencyView>;

/// The records of all namespaces.
#[derive(Debug)]
pub struct IdempotencyStore {
    records: Vec<IdempotencyRecord>,
}

/// The records as pairs of key and record.
pub closed spec fn record_pairs(v: Seq<IdempotencyRecord>) -> Seq<
    ((Seq<char>, Seq<char>), IdempotencyView),
> {
    v.map_values(|r: IdempotencyRecord| ((r.ns@, r.key@), r@))
}

/// The digest that stands for a response: that of its compact JSON text.
pub open spec fn response_hash_of(response: Seq<char>) -> Option<Seq<char>> {
    match json_canonical_of(response) {
        Some(text) => Some(blake3_hex_of(encode_utf8(text))),
        None => None,
    }
}

/// What a lookup finds under a key.
pub enum Found {
    /// The key is new.
    Nothing,
    /// The key was used with the same body: the record made then.
    Same(IdempotencyView),
    /// The key was used with another body.
    Mismatch,
}

/// What a lookup under `key` in `ns` with the body digest `body_hash`
/// finds.
pub open spec fn lookup_of(
    m: IdempotencyMap,
    ns: Seq<char>,
    key: Seq<char>,
    body_hash: Seq<char>,
) -> Found {
    if !m.contains_key((ns, key)) {
        Found::Nothing
    } else if m[(ns, key)].body_hash == body_hash {
        Found::Same(m[(ns, key)])
    } else {
        Found::Mismatch
    }
}

impl View for IdempotencyStore {
    type V = IdempotencyMap;

    closed spec fn view(&self) -> IdempotencyMap {
        to_map(record_pairs(self.records@))
    }
}

impl IdempotencyStore {
    /// Whether no key has two records.
    pub closed spec fn wf(&self) -> bool {
        distinct_keys(record_pairs(self.records@))
    }

    /// A store without records.
    pub fn new() -> (store: IdempotencyStore)
        ensures
            store.wf(),
            store@ == IdempotencyMap::empty(),
    {
        let store = IdempotencyStore { records: Vec::new() };
        assert(record_pairs(store.records@) =~= Seq::empty());
        store
    }

    fn find(&self, ns: &str, key: &str) -> (at: Option<usize>)
        requires
            self.wf(),
        ensures
            match at {
                Some(i) => i < self.records@.len() && self.records@[i as int].ns@ == ns@
                    && self.records@[i as int].key@ == key@ && self@.contains_key((ns@, key@))
                    && self@[(ns@, key@)] == self.records@[i as int]@,
                None => !self@.contains_key((ns@, key@)) && !has_key(
                    record_pairs(self.records@),
                    (ns@, key@),
                ),
            },
    {
        let ghost s = record_pairs(self.records@);
        proof {
            lemma_to_map_dom(s, (ns@, key@));
        }
        let mut i: usize = 0;
        while i < self.records.len()
            invariant
                i <= self.records@.len(),
                s == record_pairs(self.records@),
                distinct_keys(s),
                forall|j: int|
                    0 <= j < i ==> !(self.records@[j].ns@ == ns@ && self.records@[j].key@ == key@),
            decreases self.records@.len() - i,
        {
            if self.records[i].ns.as_str().eq(ns) && self.records[i].key.as_str().eq(key) {
                proof {
                    lemma_to_map_value(s, i as int);
                }
                return Some(i);
            }
            i += 1;
        }
        assert(!has_key(s, (ns@, key@))) by {
            if has_key(s, (ns@, key@)) {
                let j = choose|j: int| 0 <= j < s.len() && (#[trigger] s[j]).0 == (ns@, key@);
                assert(self.records@[j].ns@ == ns@ && self.records@[j].key@ == key@);
            }
        }
        None
    }

    /// Looks up what was answered under `key` in `ns`. Nothing where the key
    /// is new; the record where it was used with the same body; a conflict
    /// where it was used with another.
    pub fn lookup(&self, ns: &str, key: &str, body_hash: &str) -> (out: Result<
        Option<IdempotencyRecord>,
        StateError,
    >)
        requires
            self.wf(),
        ensures
            match out {
                Ok(Some(rec)) => lookup_of(self@, ns@, key@, body_hash@) == Found::Same(rec@),
                Ok(None) => lookup_of(self@, ns@, key@, body_hash@) == Found::Nothing,
                Err(e) => lookup_of(self@, ns@, key@, body_hash@) == Found::Mismatch
                    && e.is_conflict("idempotency body mismatch"@),
            },
    {
        match self.find(ns, key) {
            Some(i) => {
                if self.records[i].body_hash.as_str().eq(body_hash) {
                    Ok(Some(self.records[i].clone()))
                } else {
                    Err(StateError::conflict("idempotency body mismatch"))
                }
            },
            None => Ok(None),
        }
    }

    /// Remembers `response` as the answer given under `key` in `ns` to the
    /// body with digest `body_hash`, in place of any earlier record. A
    /// response that is not JSON is refused and nothing changes.
    pub fn commit(
        &mut self,
        ns: &str,
        key: &str,
        body_hash: &str,
        response: String,
        commit_seq: u64,
        expires_at: i64,
    ) -> (out: Result<(), StateError>)
        requires
            old(self).wf(),
        ensures
            final(self).wf(),
            match out {
                Ok(_) => response_hash_of(response@) is Some && final(self)@ == old(self)@.insert(
                    (ns@, key@),
                    IdempotencyView {
                        ns: ns@,
                        key: key@,
                        body_hash: body_hash@,
                        response_hash: response_hash_of(response@)->0,
                        commit_seq,
                        expires_at,
                        response: response@,
                    },
                ),
                Err(e) => response_hash_of(response@) is None && final(self)@ == old(self)@
                    && e.is_invalid("response is not JSON"@),
            },
    {
        let ghost s = record_pairs(self.records@);
        let text = match json_canonical(response.as_str()) {
            Some(text) => text,
            None => {
                return Err(StateError::invalid("response is not JSON"));
            },
        };
        let response_hash = blake3_hex(text.as_str().as_bytes());
        let rec = IdempotencyRecord {
            ns: ns.to_owned(),
            key: key.to_owned(),
            body_hash: body_hash.to_owned(),
            response_hash,
            commit_seq,
            expires_at,
            response,
        };
        let ghost view = rec@;
        match self.find(ns, key) {
            Some(i) => {
                self.records.set(i, rec);
                proof {
                    lemma_to_map_update(s, i as int, view);
                    assert(record_pairs(self.records@) =~= s.update(i as int, ((ns@, key@), view)));
                }
            },
            None => {
                self.records.push(rec);
                proof {
                    lemma_to_map_push(s, (ns@, key@), view);
                    assert(record_pairs(self.records@) =~= s.push(((ns@, key@), view)));
                }
            },
        }
        Ok(())
    }
}

/// Idempotency: once a response was remembered under a key for a body, a
/// lookup with the same body finds that very response, and a lookup with
/// another body is a conflict.
pub proof fn lemma_lookup_after_commit(
    m: IdempotencyMap,
    rec: IdempotencyView,
    other_hash: Seq<char>,
)
    requires
        other_hash != rec.body_hash,
    ensures
        ({
            let after = m.insert((rec.ns, rec.key), rec);
            &&& lookup_of(after, rec.ns, rec.key, rec.body_hash) == Found::Same(rec)
            &&& lookup_of(after, rec.ns, rec.key, other_hash) == Found::Mismatch
        }),
{
}

} // verus!
