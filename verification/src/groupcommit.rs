//! Group commit: how the log's writer gathers records into batches, and
//! what it records once a batch is durable.
//!
//! The writer takes one record, then gathers more until the batch has
//! reached its size, the deadline has passed or no more records will come.
//! It writes the batch, makes it durable, records that in the manifest, and
//! only then acknowledges the callers. A segment that has reached its size is
//! followed by a new one.

use vstd::prelude::*;
use vstd::string::*;
use crate::manifest::{max_seq_of, Manifest, ManifestView};

verus! {

/// The size at which a batch is written without waiting further: 256 KiB.
pub const BATCH_MAX_BYTES: usize = 262_144;

/// How long the writer gathers a batch at most, in milliseconds.
pub const BATCH_MAX_MS: u64 = 3;

/// The size at which a segment is followed by a new one: 256 MiB.
pub const SEGMENT_BYTES: u64 = 268_435_456;

/// The batch being gathered.
#[derive(Debug, Clone, Copy, PartialEq, Eq, Structural)]
pub struct Batch {
    /// The bytes of the records gathered; at most `usize::MAX`.
    pub bytes: usize,
    /// The number of records gathered.
    pub records: usize,
    /// The greatest sequence number among the records gathered.
    pub max_seq: u64,
}

/// What the writer is told while it gathers a batch.
#[derive(Debug, Clone, Copy, PartialEq, Eq, Structural)]
pub enum WorkerEvent {
    /// Another framed record of `len` bytes with the sequence number `seq`
    /// came in.
    Record { len: usize, seq: u64 },
    /// The batch's deadline has passed.
    Deadline,
    /// No more records will come.
    Closed,
}

/// What the writer does next.
#[derive(Debug, Clone, Copy, PartialEq, Eq, Structural)]
pub enum WorkerAction {
    /// Go on gathering.
    Collect,
    /// Write the batch and make it durable.
    Flush,
}

/// The sum of two sizes, at most `usize::MAX`.
pub open spec fn capped_sum(a: usize, b: usize) -> usize {
    if a + b > usize::MAX {
        usize::MAX
    } else {
        (a + b) as usize
    }
}

/// The sum of two sizes, at most `u64::MAX`.
pub open spec fn capped_sum64(a: u64, b: u64) -> u64 {
    if a + b > u64::MAX {
        u64::MAX
    } else {
        (a + b) as u64
    }
}

impl Batch {
    /// The batch that starts with a record of `len` bytes and the sequence
    /// number `seq`.
    pub open spec fn started(len: usize, seq: u64) -> Batch {
        Batch { bytes: len, records: 1, max_seq: seq }
    }

    /// The batch after the writer was told `ev`: a record is added to it,
    /// anything else leaves it as it is.
    pub open spec fn after(self, ev: WorkerEvent) -> Batch {
        match ev {
            WorkerEvent::Record { len, seq } => Batch {
                bytes: capped_sum(self.bytes, len),
                records: capped_sum(self.records, 1),
                max_seq: max_seq_of(self.max_seq, seq),
            },
            _ => self,
        }
    }

    /// The batch after the writer was told `evs`, one after another.
    pub open spec fn after_all(self, evs: Seq<WorkerEvent>) -> Batch
        decreases evs.len(),
    {
        if evs.len() == 0 {
            self
        } else {
            self.after_all(evs.drop_last()).after(evs.last())
        }
    }

    /// What the writer does once it was told `ev`: it goes on gathering
    /// only after a record that leaves the batch below `max_bytes`.
    pub open spec fn decision(self, ev: WorkerEvent, max_bytes: usize) -> WorkerAction {
        match ev {
            WorkerEvent::Record { .. } => if self.after(ev).bytes >= max_bytes {
                WorkerAction::Flush
            } else {
                WorkerAction::Collect
            },
            _ => WorkerAction::Flush,
        }
    }

    /// Starts a batch with the first record taken.
    pub fn begin(len: usize, seq: u64) -> (batch: Batch)
        ensures
            batch == Batch::started(len, seq),
    {
        Batch { bytes: len, records: 1, max_seq: seq }
    }

    /// Takes in what the writer was told and says what it does next.
    pub fn step(&mut self, ev: WorkerEvent, max_bytes: usize) -> (action: WorkerAction)
        ensures
            *final(self) == old(self).after(ev),
            action == old(self).decision(ev, max_bytes),
    {
        match ev {
            WorkerEvent::Record { len, seq } => {
                self.bytes = if len > usize::MAX - self.bytes {
                    usize::MAX
                } else {
                    self.bytes + len
                };
                self.records = if self.records == usize::MAX {
                    usize::MAX
                } else {
                    self.records + 1
                };
                if self.max_seq < seq {
                    self.max_seq = seq;
                }
                if self.bytes >= max_bytes {
                    WorkerAction::Flush
                } else {
                    WorkerAction::Collect
                }
            },
            _ => WorkerAction::Flush,
        }
    }
}

/// What the writer knows of the log: its manifest and the size of the
/// segment being written.
#[derive(Debug)]
pub struct WalState {
    pub manifest: Manifest,
    pub segment_bytes: u64,
}

/// The writer's knowledge, as plain mathematical values.
pub struct WalStateView {
    pub manifest: ManifestView,
    pub segment_bytes: u64,
}

impl View for WalState {
    type V = WalStateView;

    open spec fn view(&self) -> WalStateView {
        WalStateView { manifest: self.manifest@, segment_bytes: self.segment_bytes }
    }
}

impl WalStateView {
    /// The state after `batch` was written and made durable.
    pub open spec fn flushed(self, batch: Batch) -> WalStateView {
        WalStateView {
            manifest: self.manifest.committed(batch.max_seq),
            segment_bytes: capped_sum64(self.segment_bytes, batch.bytes as u64),
        }
    }

    /// Whether the segment has reached the size `rotate_at`.
    pub open spec fn is_due(self, rotate_at: u64) -> bool {
        self.segment_bytes >= rotate_at
    }

    /// The state after the segment was followed by a new, empty one.
    pub open spec fn rotated(self) -> WalStateView {
        WalStateView { manifest: self.manifest.rotated(), segment_bytes: 0 }
    }
}

impl WalState {
    /// Records that `batch` was written and made durable: the segment has
    /// grown by its bytes, and the manifest reaches the greatest sequence
    /// number in the batch. Callers are acknowledged only after this.
    pub fn flushed(&mut self, batch: &Batch)
        ensures
            final(self)@ == old(self)@.flushed(*batch),
    {
        let grown: u64 = batch.bytes as u64;
        self.segment_bytes = if grown > u64::MAX - self.segment_bytes {
            u64::MAX
        } else {
            self.segment_bytes + grown
        };
        self.manifest.commit_batch(batch.max_seq);
    }

    /// Follows the segment by a new one where it has reached the size
    /// `rotate_at`, and names the new segment. Otherwise nothing changes.
    pub fn rotate_if_due(&mut self, rotate_at: u64) -> (name: Option<String>)
        ensures
            match name {
                Some(n) => old(self)@.is_due(rotate_at) && final(self)@ == old(self)@.rotated()
                    && n@ == old(self)@.manifest.segment_to_rotate_to(),
                None => !old(self)@.is_due(rotate_at) && final(self)@ == old(self)@,
            },
    {
        if self.segment_bytes >= rotate_at {
            let name = self.manifest.rotate();
            self.segment_bytes = 0;
            Some(name)
        } else {
            None
        }
    }
}

/// A batch bears the greatest sequence number among its records: that of
/// the record it started with and of every record gathered since.
pub proof fn lemma_batch_bears_the_greatest(len: usize, seq: u64, evs: Seq<WorkerEvent>)
    ensures
        Batch::started(len, seq).after_all(evs).max_seq >= seq,
        forall|i: int|
            0 <= i < evs.len() ==> (#[trigger] evs[i] matches WorkerEvent::Record { seq: q, .. }
                ==> Batch::started(len, seq).after_all(evs).max_seq >= q),
        Batch::started(len, seq).after_all(evs).max_seq == seq || exists|i: int|
            0 <= i < evs.len() && (#[trigger] evs[i] matches WorkerEvent::Record { seq: q, .. }
                && Batch::started(len, seq).after_all(evs).max_seq == q),
    decreases evs.len(),
{
    if evs.len() > 0 {
        let front = evs.drop_last();
        lemma_batch_bears_the_greatest(len, seq, front);
        let before = Batch::started(len, seq).after_all(front);
        let b = before.after(evs.last());
        assert forall|i: int| 0 <= i < evs.len() implies (#[trigger] evs[i] matches WorkerEvent::Record {
            seq: q,
            ..
        } ==> b.max_seq >= q) by {
            if i < front.len() {
                assert(evs[i] == front[i]);
            }
        }
        if b.max_seq != seq {
            if b.max_seq == before.max_seq {
                let i = choose|i: int|
                    0 <= i < front.len() && (#[trigger] front[i] matches WorkerEvent::Record {
                        seq: q,
                        ..
                    } && before.max_seq == q);
                assert(evs[i] == front[i]);
            } else {
                assert(evs[evs.len() - 1] == evs.last());
            }
        }
    }
}

/// What a flush records: once a batch is durable, the manifest's last
/// durable sequence number and the reach of the segment being written are at
/// least the number of every record in the batch, and the last durable
/// sequence number is the greater of what it was and the greatest number in
/// the batch. It never falls.
pub proof fn lemma_flush_raises_last_seq(
    s: WalStateView,
    len: usize,
    seq: u64,
    evs: Seq<WorkerEvent>,
)
    ensures
        ({
            let batch = Batch::started(len, seq).after_all(evs);
            let after = s.flushed(batch).manifest;
            &&& after.last_seq == max_seq_of(s.manifest.last_seq, batch.max_seq)
            &&& after.last_seq >= s.manifest.last_seq
            &&& after.last_seq >= seq
            &&& forall|i: int|
                0 <= i < evs.len() ==> (#[trigger] evs[i] matches WorkerEvent::Record {
                    seq: q,
                    ..
                } ==> after.last_seq >= q)
            &&& s.manifest.segments.len() > 0 ==> after.segments.len() == s.manifest.segments.len()
                && after.segments.last().max_seq == max_seq_of(
                s.manifest.segments.last().max_seq,
                batch.max_seq,
            )
        }),
{
    lemma_batch_bears_the_greatest(len, seq, evs);
}

} // verus!
