//! A namespaced, versioned object store for agent state.
//!
//! Clients name objects by namespace and id. Every write makes an immutable
//! version with a content-addressed commit id and a commit sequence number
//! that counts up within its namespace. Reads can travel back in time, queries
//! go by tags and by values under JSON paths, subscribers follow the changes
//! of a namespace and can resume where they left off, and leases fence writers
//! off from each other.
//!
//! The crate is the engine: it holds no file and opens no socket. What goes
//! to disk it hands out as bytes, and what comes back from disk it takes as
//! bytes.
//!
//! - [`mem`] is the engine in memory: [`table`] holds the versions, [`index`]
//!   the postings that queries go by, [`commit`] the sequence counters,
//!   [`watch`] the subscribers' buffers, [`lease`] the leases and [`idem`] the
//!   idempotency records.
//! - [`walbin`] is the format of the write-ahead log, [`manifest`] its
//!   manifest, [`groupcommit`] the writer's batching, [`persistent`] the
//!   records that make changes durable and the rebuild from them, and
//!   [`snapshot`] the snapshot files and the restore.
//! - [`history`] and [`recovery`] state what holds over time: the order of
//!   commits, what a resuming subscriber is given, what a restart recovers.

pub mod assoc;
pub mod clock;
pub mod commit;
pub mod errors;
pub mod groupcommit;
pub mod history;
pub mod idem;
pub mod index;
pub mod json;
pub mod lease;
pub mod manifest;
pub mod mem;
pub mod model;
pub mod persistent;
pub mod query;
pub mod recovery;
pub mod snapshot;
pub mod table;
pub mod traits;
pub mod util;
pub mod walbin;
pub mod watch;
