//! The backpressure contract of the serving layer.
//!
//! The serving layer must wrap the registry's read operations in a
//! bounded admission pipeline: a fixed-depth request queue, a request
//! rate limit over a fixed window, and a per-request timeout. This module
//! is that pipeline's decision logic; the layer performs the I/O, asks
//! `offer` about each arriving request, releases the slot when a request
//! finishes or `timed_out` says it overran its budget, and maps every
//! verdict to its own externally visible failure.

use vstd::prelude::*;

verus! {

/// Why a request was not admitted — each maps to a distinct externally
/// visible failure code — or that it was.
#[derive(Clone, Copy, Debug, PartialEq, Eq, Structural)]
pub enum Verdict {
    /// Admitted: a queue slot was taken and the window counted it.
    Admit,
    /// The fixed-depth queue is saturated.
    QueueFull,
    /// The rate limit of the current window is spent.
    RateLimited,
}

/// The admission state: queue occupancy and the current rate window.
pub struct Admission {
    /// Fixed queue depth, positive.
    pub queue_capacity: usize,
    /// Requests currently queued or running.
    pub queue_len: usize,
    /// Maximum requests admitted per window, positive.
    pub max_requests: u64,
    /// Window length in ticks, positive.
    pub window_len: u64,
    /// Tick at which the current window began.
    pub window_start: u64,
    /// Requests admitted in the current window.
    pub admitted_in_window: u64,
}

impl Admission {
    /// The pipeline's invariant: occupancy within the fixed depth, the
    /// window's admissions within the rate limit.
    pub open spec fn wf(self) -> bool {
        &&& self.queue_capacity >= 1
        &&& self.max_requests >= 1
        &&& self.window_len >= 1
        &&& self.queue_len <= self.queue_capacity
        &&& self.admitted_in_window <= self.max_requests
    }

    /// A fresh pipeline with everything idle.
    pub fn new(queue_capacity: usize, max_requests: u64, window_len: u64, now: u64) -> (a:
        Admission)
        requires
            queue_capacity >= 1,
            max_requests >= 1,
            window_len >= 1,
        ensures
            a.wf(),
            a.queue_len == 0,
            a.admitted_in_window == 0,
            a.queue_capacity == queue_capacity,
            a.max_requests == max_requests,
            a.window_len == window_len,
            a.window_start == now,
    {
        Admission {
            queue_capacity,
            queue_len: 0,
            max_requests,
            window_len,
            window_start: now,
            admitted_in_window: 0,
        }
    }

    /// Whether `now` lies beyond the current window.
    pub open spec fn window_over(self, now: u64) -> bool {
        now >= self.window_start + self.window_len
    }

    /// Decides one arriving request at tick `now`. A request is admitted
    /// exactly when a queue slot is free and the window — rolled over
    /// first if `now` left it — still has admissions; the verdict names
    /// the first exhausted bound otherwise. Never admits more than
    /// `max_requests` within one window.
    pub fn offer(&mut self, now: u64) -> (v: Verdict)
        requires
            old(self).wf(),
            now >= old(self).window_start,
        ensures
            final(self).wf(),
            final(self).queue_capacity == old(self).queue_capacity,
            final(self).max_requests == old(self).max_requests,
            final(self).window_len == old(self).window_len,
            final(self).window_start == (if old(self).window_over(now) {
                now
            } else {
                old(self).window_start
            }),
            ({
                let base_count = if old(self).window_over(now) {
                    0u64
                } else {
                    old(self).admitted_in_window
                };
                &&& (v == Verdict::QueueFull <==> old(self).queue_len
                    == old(self).queue_capacity)
                &&& (v == Verdict::RateLimited <==> old(self).queue_len
                    < old(self).queue_capacity && base_count == old(self).max_requests)
                &&& (v == Verdict::Admit <==> old(self).queue_len < old(self).queue_capacity
                    && base_count < old(self).max_requests)
                &&& (v == Verdict::Admit ==> final(self).queue_len == old(self).queue_len + 1
                    && final(self).admitted_in_window == base_count + 1)
                &&& (v != Verdict::Admit ==> final(self).queue_len == old(self).queue_len
                    && final(self).admitted_in_window == base_count)
            }),
    {
        if now >= self.window_start && now - self.window_start >= self.window_len {
            self.window_start = now;
            self.admitted_in_window = 0;
        }
        if self.queue_len == self.queue_capacity {
            return Verdict::QueueFull;
        }
        if self.admitted_in_window == self.max_requests {
            return Verdict::RateLimited;
        }
        self.queue_len = self.queue_len + 1;
        self.admitted_in_window = self.admitted_in_window + 1;
        Verdict::Admit
    }

    /// Releases the queue slot of a finished or timed-out request.
    pub fn release(&mut self)
        requires
            old(self).wf(),
            old(self).queue_len > 0,
        ensures
            final(self).wf(),
            final(self).queue_len == old(self).queue_len - 1,
            final(self).admitted_in_window == old(self).admitted_in_window,
            final(self).queue_capacity == old(self).queue_capacity,
            final(self).max_requests == old(self).max_requests,
            final(self).window_len == old(self).window_len,
            final(self).window_start == old(self).window_start,
    {
        self.queue_len = self.queue_len - 1;
    }

    /// Whether a request that started at `started` has exceeded the
    /// per-request timeout at `now`.
    pub fn timed_out(started: u64, timeout: u64, now: u64) -> (r: bool)
        requires
            now >= started,
        ensures
            r == (now - started >= timeout),
    {
        now - started >= timeout
    }
}

/// Law: the admission pipeline never holds more requests than the fixed
/// queue depth, and never counts more admissions than the rate limit
/// allows within one window.
pub proof fn lemma_admission_bounded(a: Admission)
    requires
        a.wf(),
    ensures
        a.queue_len <= a.queue_capacity,
        a.admitted_in_window <= a.max_requests,
{
}

} // verus!
