//! Counters that an engine keeps about itself.

use crate::singlethread::pending::PendingEnqueueOutcome;
use std::collections::HashMap;
use vstd::prelude::*;

verus! {

/// How the queue of put-down requests has been used.
#[derive(Clone, Copy, Debug, PartialEq, Eq, Structural)]
pub struct AnchorsPendingStats {
    /// Requests put down.
    pub total_enqueued_raw: u64,
    /// Requests put down for a child that none was waiting for.
    pub total_enqueued_unique: u64,
    /// Requests that took the place of another.
    pub dedup_hits: u64,
    /// Requests taken out to be tried again.
    pub total_drained: u64,
    /// The most requests there have been at once.
    pub max_queue_len: usize,
    /// How many there were after the last one was put down.
    pub last_enqueue_len: usize,
    /// How many were left when all had been tried.
    pub last_drain_remaining: usize,
    /// How many were tried the last time any were.
    pub last_drain_drained: usize,
}

/// `a + b`, or the largest value if that is larger still.
pub open spec fn capped_add(a: u64, b: u64) -> u64 {
    if a + b > u64::MAX {
        u64::MAX
    } else {
        (a + b) as u64
    }
}

impl Default for AnchorsPendingStats {
    fn default() -> (stats: Self)
        ensures
            stats == AnchorsPendingStats::zero(),
    {
        AnchorsPendingStats {
            total_enqueued_raw: 0,
            total_enqueued_unique: 0,
            dedup_hits: 0,
            total_drained: 0,
            max_queue_len: 0,
            last_enqueue_len: 0,
            last_drain_remaining: 0,
            last_drain_drained: 0,
        }
    }
}

impl AnchorsPendingStats {
    /// The figures of a queue that was never used.
    pub open spec fn zero() -> Self {
        AnchorsPendingStats {
            total_enqueued_raw: 0,
            total_enqueued_unique: 0,
            dedup_hits: 0,
            total_drained: 0,
            max_queue_len: 0,
            last_enqueue_len: 0,
            last_drain_remaining: 0,
            last_drain_drained: 0,
        }
    }

    /// A request is in the queue, which now has `queue_len` of them.
    pub open spec fn with_len(self, queue_len: usize) -> Self {
        AnchorsPendingStats {
            max_queue_len: if self.max_queue_len >= queue_len {
                self.max_queue_len
            } else {
                queue_len
            },
            last_enqueue_len: queue_len,
            ..self
        }
    }

    /// A request has been put down.
    pub open spec fn enqueued(self, outcome: PendingEnqueueOutcome, queue_len: usize) -> Self {
        let s = self.with_len(queue_len);
        AnchorsPendingStats {
            total_enqueued_raw: capped_add(s.total_enqueued_raw, 1),
            total_enqueued_unique: if outcome is Inserted {
                capped_add(s.total_enqueued_unique, 1)
            } else {
                s.total_enqueued_unique
            },
            dedup_hits: if outcome is Replaced {
                capped_add(s.dedup_hits, 1)
            } else {
                s.dedup_hits
            },
            ..s
        }
    }

    /// `count` requests have been taken out.
    pub open spec fn drained(self, count: usize) -> Self {
        if count == 0 {
            self
        } else {
            AnchorsPendingStats {
                total_drained: capped_add(self.total_drained, count as u64),
                last_drain_drained: count,
                ..self
            }
        }
    }

    /// The counts of what was taken out are the same.
    pub open spec fn same_drains(self, other: Self) -> bool {
        &&& self.total_drained == other.total_drained
        &&& self.last_drain_drained == other.last_drain_drained
        &&& self.last_drain_remaining == other.last_drain_remaining
    }

    /// Every request that was put down was a new one or took the place of another, as long as the count of all has not
    /// come to its end.
    pub open spec fn adds_up(self) -> bool {
        self.total_enqueued_raw < u64::MAX ==> self.total_enqueued_raw == self.total_enqueued_unique + self.dedup_hits
    }

    /// The figures agree with each other, as long as the counts have not come to their end: they add up, the queue was
    /// never longer than its greatest length, and no more requests were tried the last time than in all.
    pub open spec fn agree(self) -> bool {
        &&& self.adds_up()
        &&& self.last_enqueue_len <= self.max_queue_len
        &&& self.total_drained < u64::MAX ==> self.last_drain_drained <= self.total_drained
    }

    /// Whatever is recorded, the figures agree if they did before.
    pub proof fn figures_agree(self, outcome: PendingEnqueueOutcome, queue_len: usize, count: usize)
        requires
            self.agree(),
        ensures
            Self::zero().agree(),
            self.with_len(queue_len).agree(),
            self.enqueued(outcome, queue_len).agree(),
            self.drained(count).agree(),
    {
    }

    /// None of the totals is less than that of `earlier`, and neither is the greatest length.
    pub open spec fn grown(self, earlier: Self) -> bool {
        &&& self.total_enqueued_raw >= earlier.total_enqueued_raw
        &&& self.total_enqueued_unique >= earlier.total_enqueued_unique
        &&& self.dedup_hits >= earlier.dedup_hits
        &&& self.total_drained >= earlier.total_drained
        &&& self.max_queue_len >= earlier.max_queue_len
    }

    /// Whatever is recorded, the totals only grow, and the greatest length is no less than any length that is recorded.
    pub proof fn figures_only_grow(self, outcome: PendingEnqueueOutcome, queue_len: usize, count: usize)
        ensures
            self.with_len(queue_len).grown(self),
            self.with_len(queue_len).max_queue_len >= queue_len,
            self.with_len(queue_len).max_queue_len == self.max_queue_len || self.with_len(queue_len).max_queue_len == queue_len,
            self.enqueued(outcome, queue_len).grown(self),
            self.enqueued(outcome, queue_len).max_queue_len == self.with_len(queue_len).max_queue_len,
            self.drained(count).grown(self),
    {
    }

    /// Every record is of just what happened: a request that is put down is counted once among all, and once among the new ones or
    /// among those that took the place of another; requests that are taken out are counted all; and nothing else changes.
    pub proof fn figures_record_what_happens(self, outcome: PendingEnqueueOutcome, queue_len: usize, count: usize)
        requires
            self.total_enqueued_raw < u64::MAX,
            self.total_enqueued_unique < u64::MAX,
            self.dedup_hits < u64::MAX,
            self.total_drained + count <= u64::MAX,
        ensures
            ({
                let put = self.enqueued(outcome, queue_len);
                &&& put.total_enqueued_raw == self.total_enqueued_raw + 1
                &&& outcome is Inserted ==> put.total_enqueued_unique == self.total_enqueued_unique + 1 && put.dedup_hits
                    == self.dedup_hits
                &&& outcome is Replaced ==> put.dedup_hits == self.dedup_hits + 1 && put.total_enqueued_unique
                    == self.total_enqueued_unique
                &&& put.last_enqueue_len == queue_len
                &&& put.max_queue_len >= queue_len && put.max_queue_len >= self.max_queue_len
                &&& put.max_queue_len == queue_len || put.max_queue_len == self.max_queue_len
                &&& put.same_drains(self)
            }),
            ({
                let taken = self.drained(count);
                &&& taken.total_drained == self.total_drained + count
                &&& count > 0 ==> taken.last_drain_drained == count
                &&& count == 0 ==> taken.last_drain_drained == self.last_drain_drained
                &&& taken.last_drain_remaining == self.last_drain_remaining
                &&& taken.total_enqueued_raw == self.total_enqueued_raw
                &&& taken.total_enqueued_unique == self.total_enqueued_unique
                &&& taken.dedup_hits == self.dedup_hits
                &&& taken.max_queue_len == self.max_queue_len
                &&& taken.last_enqueue_len == self.last_enqueue_len
            }),
    {
    }

    pub fn record_len(&mut self, queue_len: usize)
        ensures
            *final(self) == old(self).with_len(queue_len),
    {
        if self.max_queue_len < queue_len {
            self.max_queue_len = queue_len;
        }
        self.last_enqueue_len = queue_len;
    }

    pub fn record_enqueue(&mut self, outcome: PendingEnqueueOutcome, queue_len: usize)
        ensures
            *final(self) == old(self).enqueued(outcome, queue_len),
    {
        self.record_len(queue_len);
        self.total_enqueued_raw = self.total_enqueued_raw.saturating_add(1);
        match outcome {
            PendingEnqueueOutcome::Inserted => {
                self.total_enqueued_unique = self.total_enqueued_unique.saturating_add(1);
            },
            PendingEnqueueOutcome::Replaced => {
                self.dedup_hits = self.dedup_hits.saturating_add(1);
            },
        }
    }

    pub fn record_drain(&mut self, count: usize)
        ensures
            *final(self) == old(self).drained(count),
    {
        if count > 0 {
            self.total_drained = self.total_drained.saturating_add(count as u64);
            self.last_drain_drained = count;
        }
    }
}

/// What an engine tells of itself while it runs.
#[derive(Clone, Copy, Debug, PartialEq, Eq, Structural)]
pub struct AnchorsMetrics {
    pub active_nodes: usize,
    /// The memory that the process has in use, in bytes.
    pub rss_bytes: u64,
}

/// Which tokens have been handed out and taken back.
#[derive(Clone, Copy, Debug, PartialEq, Eq, Structural)]
pub struct TokenAudit {
    pub next_token: u64,
    pub last_deleted_token: Option<u64>,
}

/// The memory in use, in bytes, from what the system reports. Systems report kilobytes or bytes; a
/// figure below a thousand million is taken for kilobytes.
pub fn rss_bytes_from_raw(raw: u64) -> (bytes: u64)
    ensures
        raw >= 1_000_000_000 ==> bytes == raw,
        raw < 1_000_000_000 ==> bytes == raw * 1024,
{
    if raw < 1_000_000_000 {
        raw * 1024
    } else {
        raw
    }
}

/// How often something has happened to each token.
pub struct TokenLog {
    counts: HashMap<u64, u32>,
}

impl TokenLog {
    /// How often it has happened to `raw_token`, as far as is counted.
    pub closed spec fn count(&self, raw_token: u64) -> u32 {
        if self.counts@.contains_key(raw_token) {
            self.counts@[raw_token]
        } else {
            0
        }
    }

    /// It has happened to `raw_token` once more, and to no other. The count stops at the largest number.
    pub open spec fn bumped(&self, later: &Self, raw_token: u64) -> bool {
        &&& later.count(raw_token) == (if self.count(raw_token) == u32::MAX {
            u32::MAX
        } else {
            (self.count(raw_token) + 1) as u32
        })
        &&& forall|other: u64| other != raw_token ==> #[trigger] later.count(other) == self.count(other)
    }

    pub fn new() -> (log: Self)
        ensures
            forall|raw_token: u64| #[trigger] log.count(raw_token) == 0,
    {
        TokenLog { counts: HashMap::new() }
    }

    /// Counts once more, and says how often it is now.
    pub fn bump(&mut self, raw_token: u64) -> (seen: u32)
        ensures
            old(self).bumped(final(self), raw_token),
            seen == final(self).count(raw_token),
    {
        let before: u32 = match self.counts.get(&raw_token) {
            Some(n) => *n,
            None => 0,
        };
        let seen: u32 = before.saturating_add(1);
        self.counts.insert(raw_token, seen);
        seen
    }
}

/// Whether the `count`-th occurrence of something is reported: the first, the tenth, the hundredth
/// and every thousandth.
pub fn should_log_invalid_token(count: u32) -> (b: bool)
    ensures
        b == (count == 1 || count == 10 || count == 100 || count % 1000 == 0),
{
    count == 1 || count == 10 || count == 100 || count % 1000 == 0
}

/// As `should_log_invalid_token`.
pub fn should_log_unexpected_pending(count: u32) -> (b: bool)
    ensures
        b == (count == 1 || count == 10 || count == 100 || count % 1000 == 0),
{
    should_log_invalid_token(count)
}

} // verus!
