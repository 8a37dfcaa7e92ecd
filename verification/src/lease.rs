//! Leases: exclusive, expiring claims on the resources of a namespace.
//!
//! A lease names its owner, a fence token and the instant it expires.
//! Expiry is passive: an expired lease stays in the table until it is
//! replaced or released, and counts for nothing when another owner asks.

use vstd::prelude::*;
use vstd::string::*;
use crate::assoc::{
    distinct_keys,
    has_key,
    lemma_to_map_dom,
    lemma_to_map_push,
    lemma_to_map_remove,
    lemma_to_map_update,
    lemma_to_map_value,
    to_map,
};
use crate::clock::NANOS_PER_SECOND;
use crate::errors::StateError;
use crate::traits::{Lease, LeaseView};

verus! {

/// The leases of all namespaces, by namespace and key.
pub type LeaseMap = Map<(Seq<char>, Seq<char>), LeaseView>;

/// The leases of all namespaces.
#[derive(Debug)]
pub struct LeaseTable {
    leases: Vec<Lease>,
}

/// The leases as pairs of key and lease.
pub closed spec fn lease_pairs(v: Seq<Lease>) -> Seq<((Seq<char>, Seq<char>), LeaseView)> {
    v.map_values(|l: Lease| ((l.ns@, l.key@), l@))
}

/// The instant a lease granted at `now` for `ttl_secs` seconds expires: at
/// the latest the end of the representable range.
pub open spec fn deadline_of(now: i64, ttl_secs: u64) -> i64 {
    if now + ttl_secs * NANOS_PER_SECOND > i64::MAX {
        i64::MAX
    } else {
        (now + ttl_secs * NANOS_PER_SECOND) as i64
    }
}

/// Whether, at `now`, someone other than `owner` holds an unexpired lease
/// on `key` in `ns`.
pub open spec fn held_by_other(
    m: LeaseMap,
    ns: Seq<char>,
    key: Seq<char>,
    owner: Seq<char>,
    now: i64,
) -> bool {
    m.contains_key((ns, key)) && m[(ns, key)].expires_at > now && m[(ns, key)].owner != owner
}

/// Whether exactly `owner` with `token` holds the lease on `key` in `ns`,
/// expired or not.
pub open spec fn held_exactly(
    m: LeaseMap,
    ns: Seq<char>,
    key: Seq<char>,
    owner: Seq<char>,
    token: u64,
) -> bool {
    m.contains_key((ns, key)) && m[(ns, key)].owner == owner && m[(ns, key)].token == token
}

/// Whether, at `now`, the lease on `resource` in `ns` exists, bears the
/// token `fence` and has not expired.
pub open spec fn fence_holds(
    m: LeaseMap,
    ns: Seq<char>,
    resource: Seq<char>,
    fence: u64,
    now: i64,
) -> bool {
    m.contains_key((ns, resource)) && m[(ns, resource)].token == fence && m[(
        ns,
        resource,
    )].expires_at > now
}

/// The instant a lease granted at `now` for `ttl_secs` seconds expires.
pub fn deadline(now: i64, ttl_secs: u64) -> (at: i64)
    ensures
        at == deadline_of(now, ttl_secs),
{
    let span: i128 = (ttl_secs as i128) * (NANOS_PER_SECOND as i128);
    let end: i128 = (now as i128) + span;
    if end > i64::MAX as i128 {
        i64::MAX
    } else {
        end as i64
    }
}

impl View for LeaseTable {
    type V = LeaseMap;

    closed spec fn view(&self) -> LeaseMap {
        to_map(lease_pairs(self.leases@))
    }
}

impl LeaseTable {
    /// Whether no resource has two leases.
    pub closed spec fn wf(&self) -> bool {
        distinct_keys(lease_pairs(self.leases@))
    }

    /// A table without leases.
    pub fn new() -> (table: LeaseTable)
        ensures
            table.wf(),
            table@ == LeaseMap::empty(),
    {
        let table = LeaseTable { leases: Vec::new() };
        assert(lease_pairs(table.leases@) =~= Seq::empty());
        table
    }

    fn find(&self, ns: &str, key: &str) -> (at: Option<usize>)
        requires
            self.wf(),
        ensures
            match at {
                Some(i) => i < self.leases@.len() && self.leases@[i as int].ns@ == ns@
                    && self.leases@[i as int].key@ == key@ && self@.contains_key((ns@, key@))
                    && self@[(ns@, key@)] == self.leases@[i as int]@,
                None => !self@.contains_key((ns@, key@)) && !has_key(
                    lease_pairs(self.leases@),
                    (ns@, key@),
                ),
            },
    {
        let ghost s = lease_pairs(self.leases@);
        proof {
            lemma_to_map_dom(s, (ns@, key@));
        }
        let mut i: usize = 0;
        while i < self.leases.len()
            invariant
                i <= self.leases@.len(),
                s == lease_pairs(self.leases@),
                distinct_keys(s),
                forall|j: int|
                    0 <= j < i ==> !(self.leases@[j].ns@ == ns@ && self.leases@[j].key@ == key@),
            decreases self.leases@.len() - i,
        {
            if self.leases[i].ns.as_str().eq(ns) && self.leases[i].key.as_str().eq(key) {
                proof {
                    lemma_to_map_value(s, i as int);
                }
                return Some(i);
            }
            i += 1;
        }
        assert(!has_key(s, (ns@, key@))) by {
            if has_key(s, (ns@, key@)) {
                let j = choose|j: int| 0 <= j < s.len() && (#[trigger] s[j]).0 == (ns@, key@);
                assert(self.leases@[j].ns@ == ns@ && self.leases@[j].key@ == key@);
            }
        }
        None
    }

    /// The lease on `key` in `ns`, if there is one, expired or not.
    pub fn get(&self, ns: &str, key: &str) -> (lease: Option<Lease>)
        requires
            self.wf(),
        ensures
            match lease {
                Some(l) => self@.contains_key((ns@, key@)) && l@ == self@[(ns@, key@)],
                None => !self@.contains_key((ns@, key@)),
            },
    {
        match self.find(ns, key) {
            Some(i) => Some(self.leases[i].clone()),
            None => None,
        }
    }

    /// Whether, at `now`, someone other than `owner` holds an unexpired
    /// lease on `key` in `ns`.
    pub fn is_held_by_other(&self, ns: &str, key: &str, owner: &str, now: i64) -> (held: bool)
        requires
            self.wf(),
        ensures
            held == held_by_other(self@, ns@, key@, owner@, now),
    {
        match self.find(ns, key) {
            Some(i) => self.leases[i].expires_at > now && !self.leases[i].owner.as_str().eq(owner),
            None => false,
        }
    }

    /// Installs the lease of `owner` on `key` in `ns`, in place of whatever
    /// lease stood there.
    pub fn grant(&mut self, ns: &str, key: &str, owner: &str, token: u64, expires_at: i64) -> (lease:
        Lease)
        requires
            old(self).wf(),
        ensures
            final(self).wf(),
            lease@ == (LeaseView { ns: ns@, key: key@, owner: owner@, token, expires_at }),
            final(self)@ == old(self)@.insert((ns@, key@), lease@),
    {
        let ghost s = lease_pairs(self.leases@);
        let lease = Lease {
            ns: ns.to_owned(),
            key: key.to_owned(),
            owner: owner.to_owned(),
            token,
            expires_at,
        };
        let copy = lease.clone();
        match self.find(ns, key) {
            Some(i) => {
                self.leases.set(i, lease);
                proof {
                    lemma_to_map_update(s, i as int, copy@);
                    assert(lease_pairs(self.leases@) =~= s.update(i as int, ((ns@, key@), copy@)));
                }
            },
            None => {
                self.leases.push(lease);
                proof {
                    lemma_to_map_push(s, (ns@, key@), copy@);
                    assert(lease_pairs(self.leases@) =~= s.push(((ns@, key@), copy@)));
                }
            },
        }
        copy
    }

    /// Extends the lease on `key` in `ns` to `expires_at`, for the owner who
    /// presents its token. A missing lease is not found; another owner or
    /// another token is a conflict.
    pub fn renew(&mut self, ns: &str, key: &str, owner: &str, token: u64, expires_at: i64) -> (out:
        Result<Lease, StateError>)
        requires
            old(self).wf(),
        ensures
            final(self).wf(),
            match out {
                Ok(lease) => held_exactly(old(self)@, ns@, key@, owner@, token) && lease@ == (
                LeaseView { ns: ns@, key: key@, owner: owner@, token, expires_at })
                    && final(self)@ == old(self)@.insert((ns@, key@), lease@),
                Err(e) => final(self)@ == old(self)@ && !held_exactly(
                    old(self)@,
                    ns@,
                    key@,
                    owner@,
                    token,
                ) && if old(self)@.contains_key((ns@, key@)) {
                    e.is_conflict("fencing"@)
                } else {
                    e is NotFound
                },
            },
    {
        match self.find(ns, key) {
            Some(i) => {
                if !self.leases[i].owner.as_str().eq(owner) || self.leases[i].token != token {
                    return Err(StateError::conflict("fencing"));
                }
                Ok(self.grant(ns, key, owner, token, expires_at))
            },
            None => Err(StateError::NotFound),
        }
    }

    /// Gives up the lease on `key` in `ns`, for the owner who presents its
    /// token. A missing lease is not found; another owner or another token is
    /// a conflict, and the lease stays.
    pub fn release(&mut self, ns: &str, key: &str, owner: &str, token: u64) -> (out: Result<
        (),
        StateError,
    >)
        requires
            old(self).wf(),
        ensures
            final(self).wf(),
            match out {
                Ok(_) => held_exactly(old(self)@, ns@, key@, owner@, token) && final(self)@ == old(
                    self,
                )@.remove((ns@, key@)),
                Err(e) => final(self)@ == old(self)@ && !held_exactly(
                    old(self)@,
                    ns@,
                    key@,
                    owner@,
                    token,
                ) && if old(self)@.contains_key((ns@, key@)) {
                    e.is_conflict("fencing"@)
                } else {
                    e is NotFound
                },
            },
    {
        let ghost s = lease_pairs(self.leases@);
        match self.find(ns, key) {
            Some(i) => {
                if !self.leases[i].owner.as_str().eq(owner) || self.leases[i].token != token {
                    return Err(StateError::conflict("fencing"));
                }
                self.leases.remove(i);
                proof {
                    lemma_to_map_remove(s, i as int);
                    assert(lease_pairs(self.leases@) =~= s.remove(i as int));
                }
                Ok(())
            },
            None => Err(StateError::NotFound),
        }
    }

    /// Checks the fence a writer presents for `resource` in `ns`: the lease
    /// must exist, bear the token `fence`, and not have expired at `now`.
    /// Anything else is a conflict.
    pub fn validate_fence(&self, ns: &str, resource: &str, fence: u64, now: i64) -> (out: Result<
        (),
        StateError,
    >)
        requires
            self.wf(),
        ensures
            out is Ok <==> fence_holds(self@, ns@, resource@, fence, now),
            out matches Err(e) ==> e.is_conflict("fence mismatch"@),
    {
        match self.find(ns, resource) {
            Some(i) => {
                if self.leases[i].token == fence && self.leases[i].expires_at > now {
                    return Ok(());
                }
            },
            None => {},
        }
        Err(StateError::conflict("fence mismatch"))
    }
}

/// Lease exclusivity: once an owner was granted the lease on a resource,
/// every other owner is held off for as long as the lease has not expired,
/// and no longer: not from the instant it expires, and not once it was
/// released. So of two owners that ask for the same resource at most one
/// holds it at any instant.
pub proof fn lemma_lease_is_exclusive(m: LeaseMap, lease: LeaseView, other: Seq<char>, now: i64)
    requires
        other != lease.owner,
    ensures
        ({
            let granted = m.insert((lease.ns, lease.key), lease);
            let released = granted.remove((lease.ns, lease.key));
            &&& now < lease.expires_at ==> held_by_other(granted, lease.ns, lease.key, other, now)
            &&& now >= lease.expires_at ==> !held_by_other(
                granted,
                lease.ns,
                lease.key,
                other,
                now,
            )
            &&& !held_by_other(granted, lease.ns, lease.key, lease.owner, now)
            &&& !held_by_other(released, lease.ns, lease.key, other, now)
        }),
{
}

/// Fence validation: right after a lease was granted, its token is the one
/// fence that holds for the resource, and it holds until the lease expires.
pub proof fn lemma_fence_follows_the_lease(m: LeaseMap, lease: LeaseView, fence: u64, now: i64)
    ensures
        fence_holds(m.insert((lease.ns, lease.key), lease), lease.ns, lease.key, fence, now) <==> (
        fence == lease.token && now < lease.expires_at),
{
}

} // verus!
