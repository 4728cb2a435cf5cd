//! The decision core of the concurrency-bounded, crash-safe downloader.
//!
//! The planner tracks one transfer state per asset of a batch and hands
//! the surrounding loop its decisions: which transfer to start next, and
//! what a finished transfer becomes. At most `limit` transfers are in
//! flight at any time; a failed transfer is retried until its bounded
//! attempt count is spent, then recorded as failed without aborting the
//! rest of the batch. The transfers themselves — and the write-to-
//! temporary-then-rename discipline their file visibility follows — are
//! the caller's; the planner only ever admits a commit for a transfer
//! that completed.

use vstd::prelude::*;

verus! {

/// Where one asset's transfer stands.
#[derive(Clone, Copy, Debug, PartialEq, Eq, Structural)]
pub enum TransferState {
    /// Not started, or queued again for a retry.
    Pending,
    /// Started and not yet reported finished.
    InFlight,
    /// Completed; its file was committed by rename.
    Done,
    /// All attempts spent without success.
    Failed,
}

/// How many transfers of `s` are in flight.
pub open spec fn count_in_flight(s: Seq<TransferState>) -> int
    decreases s.len(),
{
    if s.len() == 0 {
        0
    } else {
        count_in_flight(s.drop_last()) + if s.last() is InFlight {
            1int
        } else {
            0int
        }
    }
}

/// Updating one slot changes the in-flight count by the difference the
/// slot contributes.
pub proof fn lemma_count_update(s: Seq<TransferState>, i: int, v: TransferState)
    requires
        0 <= i < s.len(),
    ensures
        count_in_flight(s.update(i, v)) == count_in_flight(s) + (if v is InFlight {
            1int
        } else {
            0int
        }) - (if s[i] is InFlight {
            1int
        } else {
            0int
        }),
    decreases s.len(),
{
    let t = s.update(i, v);
    if i == s.len() - 1 {
        assert(t.drop_last() =~= s.drop_last());
    } else {
        assert(t.drop_last() =~= s.drop_last().update(i, v));
        assert(t.last() == s.last());
        lemma_count_update(s.drop_last(), i, v);
    }
}

/// The in-flight count never exceeds the length.
pub proof fn lemma_count_nonneg(s: Seq<TransferState>)
    ensures
        0 <= count_in_flight(s) <= s.len(),
    decreases s.len(),
{
    if s.len() > 0 {
        lemma_count_nonneg(s.drop_last());
    }
}

/// The planner of one download batch.
pub struct Downloader {
    /// Positive ceiling on simultaneous transfers.
    pub limit: usize,
    /// Positive bound on attempts per asset.
    pub max_attempts: u64,
    /// One state per asset of the batch.
    pub states: Vec<TransferState>,
    /// Attempts started per asset.
    pub attempts: Vec<u64>,
    /// Cached in-flight count.
    pub in_flight: usize,
}

impl Downloader {
    /// The planner's invariant: the cached count is the real count and
    /// stays within the positive limit; attempts stay within their bound.
    pub open spec fn wf(self) -> bool {
        &&& self.limit >= 1
        &&& self.max_attempts >= 1
        &&& self.states@.len() == self.attempts@.len()
        &&& self.in_flight == count_in_flight(self.states@)
        &&& self.in_flight <= self.limit
        &&& forall|i: int| 0 <= i < self.attempts@.len() ==> self.attempts@[i] <= self.max_attempts
    }

    /// A fresh planner for a batch of `n` assets: everything pending.
    pub fn new(n: usize, limit: usize, max_attempts: u64) -> (d: Downloader)
        requires
            limit >= 1,
            max_attempts >= 1,
        ensures
            d.wf(),
            d.states@.len() == n,
            d.limit == limit,
            d.max_attempts == max_attempts,
            d.in_flight == 0,
            forall|i: int| 0 <= i < n ==> d.states@[i] is Pending,
    {
        let mut states: Vec<TransferState> = Vec::new();
        let mut attempts: Vec<u64> = Vec::new();
        let mut i: usize = 0;
        while i < n
            invariant
                i <= n,
                states@.len() == i,
                attempts@.len() == i,
                count_in_flight(states@) == 0,
                forall|k: int| 0 <= k < i ==> states@[k] is Pending,
                forall|k: int| 0 <= k < i ==> attempts@[k] == 0,
            decreases n - i,
        {
            let ghost s0 = states@;
            states.push(TransferState::Pending);
            proof {
                assert(states@.drop_last() =~= s0);
            }
            attempts.push(0);
            i = i + 1;
        }
        Downloader { limit, max_attempts, states, attempts, in_flight: 0 }
    }

    /// The first asset that may be started now: pending, with attempts
    /// left — provided a transfer slot is free.
    pub fn next_startable(&self) -> (r: Option<usize>)
        requires
            self.wf(),
        ensures
            match r {
                Option::Some(i) => i < self.states@.len() && self.states@[i as int] is Pending
                    && self.attempts@[i as int] < self.max_attempts && self.in_flight
                    < self.limit && forall|k: int|
                    0 <= k < i ==> !((#[trigger] self.states@[k]) is Pending && self.attempts@[k]
                        < self.max_attempts),
                Option::None => self.in_flight >= self.limit || forall|i: int|
                    0 <= i < self.states@.len() ==> !((#[trigger] self.states@[i]) is Pending
                        && self.attempts@[i] < self.max_attempts),
            },
    {
        if self.in_flight >= self.limit {
            return None;
        }
        let n = self.states.len();
        let mut i: usize = 0;
        while i < n
            invariant
                n == self.states@.len(),
                self.states@.len() == self.attempts@.len(),
                self.in_flight < self.limit,
                i <= n,
                forall|k: int|
                    0 <= k < i ==> !((#[trigger] self.states@[k]) is Pending && self.attempts@[k]
                        < self.max_attempts),
            decreases n - i,
        {
            let st = self.states[i];
            if matches!(st, TransferState::Pending) && self.attempts[i] < self.max_attempts {
                return Some(i);
            }
            i = i + 1;
        }
        None
    }

    /// Starts asset `i`'s transfer, spending one attempt. Never takes the
    /// in-flight count beyond the limit.
    pub fn start(&mut self, i: usize)
        requires
            old(self).wf(),
            i < old(self).states@.len(),
            old(self).states@[i as int] is Pending,
            old(self).attempts@[i as int] < old(self).max_attempts,
            old(self).in_flight < old(self).limit,
        ensures
            final(self).wf(),
            final(self).states@ == old(self).states@.update(i as int, TransferState::InFlight),
            final(self).attempts@ == old(self).attempts@.update(
                i as int,
                (old(self).attempts@[i as int] + 1) as u64,
            ),
            final(self).in_flight == old(self).in_flight + 1,
            final(self).limit == old(self).limit,
            final(self).max_attempts == old(self).max_attempts,
    {
        proof {
            lemma_count_update(self.states@, i as int, TransferState::InFlight);
        }
        let a = self.attempts[i];
        self.states.set(i, TransferState::InFlight);
        self.attempts.set(i, a + 1);
        self.in_flight = self.in_flight + 1;
    }

    /// Records the outcome the transport reported for asset `i`: done on
    /// success; on failure pending again while attempts remain, else
    /// failed. Frees the transfer slot either way.
    pub fn finish(&mut self, i: usize, success: bool)
        requires
            old(self).wf(),
            i < old(self).states@.len(),
            old(self).states@[i as int] is InFlight,
        ensures
            final(self).wf(),
            final(self).states@ == old(self).states@.update(
                i as int,
                if success {
                    TransferState::Done
                } else if old(self).attempts@[i as int] < old(self).max_attempts {
                    TransferState::Pending
                } else {
                    TransferState::Failed
                },
            ),
            final(self).attempts@ == old(self).attempts@,
            final(self).in_flight == old(self).in_flight - 1,
            final(self).limit == old(self).limit,
            final(self).max_attempts == old(self).max_attempts,
    {
        let next = if success {
            TransferState::Done
        } else if self.attempts[i] < self.max_attempts {
            TransferState::Pending
        } else {
            TransferState::Failed
        };
        proof {
            lemma_count_update(self.states@, i as int, next);
            lemma_count_nonneg(self.states@);
            assert(count_in_flight(self.states@) >= 1) by {
                lemma_count_member(self.states@, i as int);
            }
        }
        self.states.set(i, next);
        self.in_flight = self.in_flight - 1;
    }

    /// Whether every transfer of the batch has reached a final state.
    pub fn is_finished(&self) -> (r: bool)
        requires
            self.wf(),
        ensures
            r == forall|i: int|
                0 <= i < self.states@.len() ==> ((#[trigger] self.states@[i]) is Done
                    || self.states@[i] is Failed),
    {
        let n = self.states.len();
        let mut i: usize = 0;
        while i < n
            invariant
                n == self.states@.len(),
                i <= n,
                forall|k: int|
                    0 <= k < i ==> ((#[trigger] self.states@[k]) is Done
                        || self.states@[k] is Failed),
            decreases n - i,
        {
            let st = self.states[i];
            if !matches!(st, TransferState::Done) && !matches!(st, TransferState::Failed) {
                return false;
            }
            i = i + 1;
        }
        true
    }
}

/// An in-flight slot contributes to the count.
proof fn lemma_count_member(s: Seq<TransferState>, i: int)
    requires
        0 <= i < s.len(),
        s[i] is InFlight,
    ensures
        count_in_flight(s) >= 1,
    decreases s.len(),
{
    if i < s.len() - 1 {
        lemma_count_member(s.drop_last(), i);
        lemma_count_nonneg(s.drop_last());
    } else {
        lemma_count_nonneg(s.drop_last());
    }
}

/// Law: a well-formed planner never has more transfers in flight than
/// its limit, whatever sequence of starts and finishes produced it.
pub proof fn lemma_in_flight_bounded(d: Downloader)
    requires
        d.wf(),
    ensures
        count_in_flight(d.states@) <= d.limit,
{
}

} // verus!
