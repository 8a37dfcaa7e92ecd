//! The values that pass between the engine and its callers: read options,
//! watch filters and events, leases and idempotency records.

use vstd::prelude::*;
use vstd::string::*;
use crate::model::{Object, ObjectView};

verus! {

/// How to read an object: as of now, or as of an earlier instant.
#[derive(Debug, Clone, Copy)]
pub struct GetOptions {
    /// Ignore versions written after this instant.
    pub at_ts: Option<i64>,
}

/// Which changes a subscriber wants: those of one namespace.
#[derive(Debug)]
pub struct WatchFilter {
    pub ns: String,
}

/// One change to a namespace.
#[derive(Debug)]
pub enum WatchEvent {
    /// A version was written.
    Put(Object),
    /// An object was deleted.
    Delete { ns: String, id: String, commit_seq: u64 },
}

/// A change, as plain mathematical values.
pub enum EventView {
    Put(ObjectView),
    Delete { ns: Seq<char>, id: Seq<char>, commit_seq: u64 },
}

/// What a queued delete counts for against a buffer's byte cap.
pub const DELETE_WEIGHT: usize = 64;

/// What a queued put counts for where its version cannot be written as
/// JSON: its body is no JSON.
pub const PUT_FALLBACK_WEIGHT: usize = 256;

/// The length of the ten keys of a version's JSON document, each with its
/// quotes, its colon and what sets it off from its neighbour: the braces of
/// the document apart, what the document has over its values in a row.
pub const PUT_KEYS_LEN: usize = 82;

/// The number of bytes that the values of the version `o` take as JSON,
/// written in a row in the order of the document's keys (`id`, `ns`, `type`,
/// `body`, `tags`, `ttl_seconds`, `parents`, `commit`, `ts`, `commit_seq`);
/// `None` where the body is no JSON.
pub uninterp spec fn version_values_len_of(o: ObjectView) -> Option<usize>;

/// Measures with `serde_json::to_vec` the values of the version, in the
/// order of its document's keys: the body as the value that
/// `serde_json::from_str` reads from it, the tags as a map, the timestamp as
/// the date and time that `DateTime::from_timestamp_nanos` gives. `None`
/// where the body does not parse. The length depends on the version alone.
#[verifier::external_body]
fn version_values_len(o: &Object) -> (n: Option<usize>)
    ensures
        n == version_values_len_of(o@),
{
    let body: serde_json::Value = serde_json::from_str(&o.body).ok()?;
    let tags: std::collections::BTreeMap<_, _> = o.tags.0.iter().cloned().collect();
    let ts = chrono::DateTime::from_timestamp_nanos(o.ts);
    let row =
        (&o.id, &o.ns, &o.kind, body, tags, o.ttl_seconds, &o.parents, &o.commit, ts, o.commit_seq);
    Some(serde_json::to_vec(&row).ok()?.len())
}

/// The number of bytes that the version `o` takes as a JSON document; `None`
/// where its body is no JSON. At most `usize::MAX`.
pub open spec fn serialized_len_of(o: ObjectView) -> Option<usize> {
    match version_values_len_of(o) {
        Some(n) => Some(
            if n + PUT_KEYS_LEN > usize::MAX {
                usize::MAX
            } else {
                (n + PUT_KEYS_LEN) as usize
            },
        ),
        None => None,
    }
}

/// The number of bytes that the version takes as a JSON document.
pub fn serialized_len(o: &Object) -> (n: Option<usize>)
    ensures
        n == serialized_len_of(o@),
{
    match version_values_len(o) {
        Some(n) => Some(
            if n > usize::MAX - PUT_KEYS_LEN {
                usize::MAX
            } else {
                n + PUT_KEYS_LEN
            },
        ),
        None => None,
    }
}

impl EventView {
    /// The namespace the change belongs to.
    pub open spec fn ns(self) -> Seq<char> {
        match self {
            EventView::Put(o) => o.ns,
            EventView::Delete { ns, .. } => ns,
        }
    }

    /// The id of the object that changed.
    pub open spec fn id(self) -> Seq<char> {
        match self {
            EventView::Put(o) => o.id,
            EventView::Delete { id, .. } => id,
        }
    }

    /// The commit sequence number of the change.
    pub open spec fn seq(self) -> u64 {
        match self {
            EventView::Put(o) => o.commit_seq,
            EventView::Delete { commit_seq, .. } => commit_seq,
        }
    }

    /// The approximate size of the change in a buffer, in bytes: for a put
    /// the length of its version as a JSON document, or the fallback weight
    /// where there is none; for a delete a fixed weight.
    pub open spec fn weight(self) -> nat {
        match self {
            EventView::Put(o) => match serialized_len_of(o) {
                Some(n) => n as nat,
                None => PUT_FALLBACK_WEIGHT as nat,
            },
            EventView::Delete { .. } => DELETE_WEIGHT as nat,
        }
    }
}

impl View for WatchEvent {
    type V = EventView;

    open spec fn view(&self) -> EventView {
        match *self {
            WatchEvent::Put(o) => EventView::Put(o@),
            WatchEvent::Delete { ns, id, commit_seq } => EventView::Delete {
                ns: ns@,
                id: id@,
                commit_seq,
            },
        }
    }
}

impl Clone for WatchEvent {
    fn clone(&self) -> (out: Self)
        ensures
            out@ == self@,
    {
        match self {
            WatchEvent::Put(o) => WatchEvent::Put(o.clone()),
            WatchEvent::Delete { ns, id, commit_seq } => WatchEvent::Delete {
                ns: ns.clone(),
                id: id.clone(),
                commit_seq: *commit_seq,
            },
        }
    }
}

impl WatchEvent {
    /// The commit sequence number of the change.
    pub fn commit_seq(&self) -> (seq: u64)
        ensures
            seq == self@.seq(),
    {
        match self {
            WatchEvent::Put(o) => o.commit_seq,
            WatchEvent::Delete { commit_seq, .. } => *commit_seq,
        }
    }

    /// The namespace the change belongs to.
    pub fn namespace(&self) -> (ns: &str)
        ensures
            ns@ == self@.ns(),
    {
        match self {
            WatchEvent::Put(o) => o.ns.as_str(),
            WatchEvent::Delete { ns, .. } => ns.as_str(),
        }
    }

    /// The approximate size of the change in a buffer, in bytes.
    pub fn weight(&self) -> (w: usize)
        ensures
            w == self@.weight(),
    {
        match self {
            WatchEvent::Put(o) => match serialized_len(o) {
                Some(n) => n,
                None => PUT_FALLBACK_WEIGHT,
            },
            WatchEvent::Delete { .. } => DELETE_WEIGHT,
        }
    }
}

/// The views of a list of events.
pub open spec fn event_views(v: Seq<WatchEvent>) -> Seq<EventView> {
    v.map_values(|e: WatchEvent| e@)
}

/// An exclusive claim on a resource of a namespace.
#[derive(Debug)]
pub struct Lease {
    pub ns: String,
    pub key: String,
    pub owner: String,
    /// The fence token: minted from the namespace's commit counter.
    pub token: u64,
    /// The instant from which the lease no longer holds.
    pub expires_at: i64,
}

/// A lease, as plain mathematical values.
pub struct LeaseView {
    pub ns: Seq<char>,
    pub key: Seq<char>,
    pub owner: Seq<char>,
    pub token: u64,
    pub expires_at: i64,
}

impl View for Lease {
    type V = LeaseView;

    open spec fn view(&self) -> LeaseView {
        LeaseView {
            ns: self.ns@,
            key: self.key@,
            owner: self.owner@,
            token: self.token,
            expires_at: self.expires_at,
        }
    }
}

impl Clone for Lease {
    fn clone(&self) -> (out: Self)
        ensures
            out@ == self@,
    {
        Lease {
            ns: self.ns.clone(),
            key: self.key.clone(),
            owner: self.owner.clone(),
            token: self.token,
            expires_at: self.expires_at,
        }
    }
}

/// The remembered outcome of a write made under an idempotency key.
///
/// `response` is JSON text.
#[derive(Debug)]
pub struct IdempotencyRecord {
    pub ns: String,
    pub key: String,
    pub body_hash: String,
    pub response_hash: String,
    pub commit_seq: u64,
    pub expires_at: i64,
    pub response: String,
}

/// An idempotency record, as plain mathematical values.
pub struct IdempotencyView {
    pub ns: Seq<char>,
    pub key: Seq<char>,
    pub body_hash: Seq<char>,
    pub response_hash: Seq<char>,
    pub commit_seq: u64,
    pub expires_at: i64,
    pub response: Seq<char>,
}

impl View for IdempotencyRecord {
    type V = IdempotencyView;

    open spec fn view(&self) -> IdempotencyView {
        IdempotencyView {
            ns: self.ns@,
            key: self.key@,
            body_hash: self.body_hash@,
            response_hash: self.response_hash@,
            commit_seq: self.commit_seq,
            expires_at: self.expires_at,
            response: self.response@,
        }
    }
}

impl Clone for IdempotencyRecord {
    fn clone(&self) -> (out: Self)
        ensures
            out@ == self@,
    {
        IdempotencyRecord {
            ns: self.ns.clone(),
            key: self.key.clone(),
            body_hash: self.body_hash.clone(),
            response_hash: self.response_hash.clone(),
            commit_seq: self.commit_seq,
            expires_at: self.expires_at,
            response: self.response.clone(),
        }
    }
}

} // verus!
