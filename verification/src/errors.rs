//! The error kinds the engine reports.

use vstd::prelude::*;
use vstd::string::*;

verus! {

/// What went wrong in an engine operation.
#[derive(Debug)]
pub enum StateError {
    /// The object, or the lease, does not exist.
    NotFound,
    /// The namespace does not exist.
    NamespaceNotFound,
    /// A lease is held, a fence does not match, or an idempotency key was
    /// reused with another body.
    Conflict(String),
    /// The request cannot be served as it stands.
    Invalid(String),
    /// Durable storage failed, or a counter ran out.
    Internal(String),
}

impl StateError {
    /// Whether this is a conflict with the detail `detail`.
    pub open spec fn is_conflict(self, detail: Seq<char>) -> bool {
        self matches StateError::Conflict(d) && d@ == detail
    }

    /// Whether this is an invalid request with the detail `detail`.
    pub open spec fn is_invalid(self, detail: Seq<char>) -> bool {
        self matches StateError::Invalid(d) && d@ == detail
    }

    /// Whether this is an internal error with the detail `detail`.
    pub open spec fn is_internal(self, detail: Seq<char>) -> bool {
        self matches StateError::Internal(d) && d@ == detail
    }

    /// A conflict with the detail `detail`.
    pub fn conflict(detail: &str) -> (e: StateError)
        ensures
            e.is_conflict(detail@),
    {
        StateError::Conflict(String::from_str(detail))
    }

    /// An invalid request with the detail `detail`.
    pub fn invalid(detail: &str) -> (e: StateError)
        ensures
            e.is_invalid(detail@),
    {
        StateError::Invalid(String::from_str(detail))
    }

    /// An internal error with the detail `detail`.
    pub fn internal(detail: &str) -> (e: StateError)
        ensures
            e.is_internal(detail@),
    {
        StateError::Internal(String::from_str(detail))
    }

    /// The message a caller is shown for this error.
    pub fn message(&self) -> (text: String)
        ensures
            text@ == match *self {
                StateError::NotFound => "object not found"@,
                StateError::NamespaceNotFound => "namespace not found"@,
                StateError::Conflict(d) => "conflict: "@ + d@,
                StateError::Invalid(d) => "invalid request: "@ + d@,
                StateError::Internal(d) => "internal error: "@ + d@,
            },
    {
        match self {
            StateError::NotFound => String::from_str("object not found"),
            StateError::NamespaceNotFound => String::from_str("namespace not found"),
            StateError::Conflict(d) => String::from_str("conflict: ").concat(d.as_str()),
            StateError::Invalid(d) => String::from_str("invalid request: ").concat(d.as_str()),
            StateError::Internal(d) => String::from_str("internal error: ").concat(d.as_str()),
        }
    }
}

} // verus!
