//! The buffer between the store and one subscriber.
//!
//! A buffer queues the events of one namespace up to a cap on their number
//! and a cap on their approximate size. An event that would pass a cap is
//! dropped and the buffer marked as overflowed; the subscriber is then
//! expected to end its stream and subscribe again from its last commit.

use vstd::prelude::*;
use crate::traits::{event_views, EventView, WatchEvent};

verus! {

/// The limits of a subscriber's buffer and the hint it gives on overflow.
#[derive(Debug, Clone, Copy)]
pub struct WatchConfig {
    /// The most events a buffer holds.
    pub max_events: usize,
    /// The most approximate bytes a buffer queues.
    pub max_bytes: usize,
    /// The least delay, in milliseconds, suggested before subscribing again.
    pub retry_min_ms: u32,
    /// The greatest such delay.
    pub retry_max_ms: u32,
}

impl WatchConfig {
    /// The limits used where none are configured: 10,000 events, 64 MiB,
    /// and a delay between 250 ms and 4 s.
    pub open spec fn standard_view() -> WatchConfig {
        WatchConfig {
            max_events: 10_000,
            max_bytes: 67_108_864,
            retry_min_ms: 250,
            retry_max_ms: 4000,
        }
    }

    /// The limits used where none are configured.
    pub fn standard() -> (cfg: WatchConfig)
        ensures
            cfg == WatchConfig::standard_view(),
    {
        WatchConfig { max_events: 10_000, max_bytes: 67_108_864, retry_min_ms: 250, retry_max_ms: 4000 }
    }

    /// The delay suggested on overflow: midway between the least and the
    /// greatest.
    pub open spec fn retry_after(self) -> u32 {
        ((self.retry_min_ms as int + self.retry_max_ms as int) / 2) as u32
    }
}

/// The queue of one subscriber.
#[derive(Debug)]
pub struct WatchBuffer {
    events: Vec<WatchEvent>,
    cursor: usize,
    bytes: usize,
    overflow: bool,
    last_commit: u64,
}

/// A buffer, as plain mathematical values.
pub struct BufferView {
    /// Every event accepted so far, delivered or not, oldest first.
    pub events: Seq<EventView>,
    /// How many of them were delivered.
    pub cursor: nat,
    /// The approximate size of what is queued.
    pub bytes: nat,
    /// Whether an event was dropped.
    pub overflow: bool,
    /// The commit sequence number of the last event delivered; before the
    /// first, the number the subscriber resumed from, or zero.
    pub last_commit: u64,
}

impl BufferView {
    /// An empty buffer of a subscriber that resumes after `from`.
    pub open spec fn fresh(from: Option<u64>) -> BufferView {
        BufferView {
            events: Seq::empty(),
            cursor: 0,
            bytes: 0,
            overflow: false,
            last_commit: match from {
                Some(k) => k,
                None => 0,
            },
        }
    }

    /// Whether `ev` would pass one of the caps.
    pub open spec fn refuses(self, ev: EventView, cfg: WatchConfig) -> bool {
        self.bytes + ev.weight() > cfg.max_bytes || self.events.len() + 1 > cfg.max_events
    }

    /// The buffer after `ev` is offered to it: queued, or dropped with the
    /// overflow flag set.
    pub open spec fn offer(self, ev: EventView, cfg: WatchConfig) -> BufferView {
        if self.refuses(ev, cfg) {
            BufferView { overflow: true, ..self }
        } else {
            BufferView {
                events: self.events.push(ev),
                bytes: self.bytes + ev.weight(),
                ..self
            }
        }
    }

    /// The buffer after the events `evs` are offered to it in order.
    pub open spec fn offer_all(self, evs: Seq<EventView>, cfg: WatchConfig) -> BufferView
        decreases evs.len(),
    {
        if evs.len() == 0 {
            self
        } else {
            self.offer_all(evs.drop_last(), cfg).offer(evs.last(), cfg)
        }
    }

    /// The number of events queued and not yet delivered.
    pub open spec fn backlog(self) -> nat {
        if self.events.len() >= self.cursor {
            (self.events.len() - self.cursor) as nat
        } else {
            0
        }
    }

    /// The event the subscriber is handed next, if one is queued.
    pub open spec fn head(self) -> Option<EventView> {
        if self.cursor < self.events.len() {
            Some(self.events[self.cursor as int])
        } else {
            None
        }
    }

    /// The buffer after its next event was delivered.
    pub open spec fn advance(self) -> BufferView {
        match self.head() {
            Some(ev) => BufferView {
                cursor: self.cursor + 1,
                bytes: if self.bytes >= ev.weight() {
                    (self.bytes - ev.weight()) as nat
                } else {
                    0
                },
                last_commit: ev.seq(),
                ..self
            },
            None => self,
        }
    }

    /// What a subscriber is told once the buffer has overflowed: the commit
    /// to resume from and the delay suggested before doing so.
    pub open spec fn overflow_meta(self, cfg: WatchConfig) -> Option<(u64, u32)> {
        if self.overflow {
            Some((self.last_commit, cfg.retry_after()))
        } else {
            None
        }
    }
}

impl View for WatchBuffer {
    type V = BufferView;

    closed spec fn view(&self) -> BufferView {
        BufferView {
            events: event_views(self.events@),
            cursor: self.cursor as nat,
            bytes: self.bytes as nat,
            overflow: self.overflow,
            last_commit: self.last_commit,
        }
    }
}

impl WatchBuffer {
    /// An empty buffer for a subscriber that resumes after `from`.
    pub fn new(from: Option<u64>) -> (buf: WatchBuffer)
        ensures
            buf@ == BufferView::fresh(from),
    {
        let last_commit: u64 = match from {
            Some(k) => k,
            None => 0,
        };
        let buf = WatchBuffer { events: Vec::new(), cursor: 0, bytes: 0, overflow: false, last_commit };
        assert(buf@.events =~= Seq::<EventView>::empty());
        buf
    }

    /// Offers `ev` to the buffer. Where the event would pass the cap on
    /// events or the cap on bytes, it is dropped and the overflow flag set.
    pub fn push(&mut self, ev: WatchEvent, cfg: &WatchConfig)
        ensures
            final(self)@ == old(self)@.offer(ev@, *cfg),
    {
        let w: usize = ev.weight();
        if self.bytes > cfg.max_bytes || w > cfg.max_bytes - self.bytes || self.events.len()
            >= cfg.max_events {
            self.overflow = true;
            return ;
        }
        proof {
            assert(event_views(self.events@.push(ev)) =~= event_views(self.events@).push(ev@));
        }
        self.events.push(ev);
        self.bytes = self.bytes + w;
    }

    /// Hands out the next queued event, if any, and counts it as delivered.
    pub fn try_next(&mut self) -> (next: Option<WatchEvent>)
        ensures
            final(self)@ == old(self)@.advance(),
            match next {
                Some(ev) => old(self)@.head() == Some(ev@),
                None => old(self)@.head() is None,
            },
    {
        if self.cursor < self.events.len() {
            let ev = self.events[self.cursor].clone();
            let w: usize = ev.weight();
            self.cursor = self.cursor + 1;
            self.bytes = if self.bytes >= w {
                self.bytes - w
            } else {
                0
            };
            self.last_commit = ev.commit_seq();
            Some(ev)
        } else {
            None
        }
    }

    /// The commit sequence number of the last event delivered.
    pub fn last_commit(&self) -> (seq: u64)
        ensures
            seq == self@.last_commit,
    {
        self.last_commit
    }

    /// Whether an event was dropped.
    pub fn overflowed(&self) -> (flag: bool)
        ensures
            flag == self@.overflow,
    {
        self.overflow
    }

    /// Once the buffer has overflowed, the commit to resume from and the
    /// delay, in milliseconds, suggested before doing so.
    pub fn overflow_meta(&self, cfg: &WatchConfig) -> (meta: Option<(u64, u32)>)
        ensures
            meta == self@.overflow_meta(*cfg),
    {
        if self.overflow {
            let sum: u64 = cfg.retry_min_ms as u64 + cfg.retry_max_ms as u64;
            let retry: u32 = (sum / 2) as u32;
            Some((self.last_commit, retry))
        } else {
            None
        }
    }

    /// The number of events queued and not yet delivered.
    pub fn backlog(&self) -> (n: usize)
        ensures
            n == self@.backlog(),
    {
        if self.events.len() >= self.cursor {
            self.events.len() - self.cursor
        } else {
            0
        }
    }
}

impl BufferView {
    /// Whether the buffer is within the limits `cfg`: it holds no more
    /// events than the cap allows, queues no more bytes than the cap allows,
    /// and has delivered no more events than it holds.
    pub open spec fn within(self, cfg: WatchConfig) -> bool {
        self.events.len() <= cfg.max_events && self.bytes <= cfg.max_bytes && self.cursor
            <= self.events.len()
    }
}

/// Bounded memory, whatever the subscriber does: a buffer that is within
/// its limits stays within them when an event is offered to it and when an
/// event is delivered from it, and a fresh buffer is within any limits.
pub proof fn lemma_buffer_stays_within(b: BufferView, ev: EventView, cfg: WatchConfig)
    requires
        b.within(cfg),
    ensures
        b.offer(ev, cfg).within(cfg),
        b.advance().within(cfg),
        b.offer(ev, cfg).events.len() > b.events.len() || b.offer(ev, cfg).overflow,
        b.overflow ==> b.offer(ev, cfg).overflow && b.advance().overflow,
        forall|from: Option<u64>| (#[trigger] BufferView::fresh(from)).within(cfg),
{
}

/// Bounded memory: however many events are offered to a fresh buffer, it
/// never holds more than the cap on events nor queues more than the cap on
/// bytes; and once more events were offered than the cap on events allows,
/// it has overflowed.
pub proof fn lemma_buffer_stays_bounded(from: Option<u64>, evs: Seq<EventView>, cfg: WatchConfig)
    ensures
        ({
            let b = BufferView::fresh(from).offer_all(evs, cfg);
            &&& b.events.len() <= cfg.max_events
            &&& b.events.len() <= evs.len()
            &&& b.bytes <= cfg.max_bytes
            &&& b.cursor == 0
            &&& b.last_commit == BufferView::fresh(from).last_commit
            &&& evs.len() > cfg.max_events ==> b.overflow
            &&& !b.overflow ==> b.events == evs
        }),
    decreases evs.len(),
{
    if evs.len() > 0 {
        lemma_buffer_stays_bounded(from, evs.drop_last(), cfg);
        let before = BufferView::fresh(from).offer_all(evs.drop_last(), cfg);
        let b = before.offer(evs.last(), cfg);
        if !b.overflow {
            assert(b.events =~= evs);
        }
    } else {
        let b = BufferView::fresh(from).offer_all(evs, cfg);
        assert(b.events =~= evs);
    }
}

/// The hint given on overflow names the subscriber's last commit and a delay
/// within the configured range.
pub proof fn lemma_overflow_hint_in_range(b: BufferView, cfg: WatchConfig)
    requires
        b.overflow,
        cfg.retry_min_ms <= cfg.retry_max_ms,
    ensures
        b.overflow_meta(cfg) == Some((b.last_commit, cfg.retry_after())),
        cfg.retry_min_ms <= cfg.retry_after() <= cfg.retry_max_ms,
{
}

} // verus!
