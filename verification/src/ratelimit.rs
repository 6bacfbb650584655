//! The rate-limit notice coordinator: shared state that deduplicates the
//! user-facing "rate limited, waiting" notice so that it is emitted once
//! per throttling episode, not once per worker.
//!
//! The counting design: every throttled worker bumps a counter; when the
//! counter reaches the configured concurrency — all concurrently active
//! workers are now throttled — the notice is due and the counter starts
//! over. Printing the notice, and the channel carrying the workers'
//! reports, live outside the crate.

use vstd::prelude::*;

use vstd::arithmetic::div_mod::{
    lemma_fundamental_div_mod, lemma_fundamental_div_mod_converse_div,
    lemma_fundamental_div_mod_converse_mod,
};

verus! {

/// Shared state recording how many workers have reported throttling since
/// the notice was last due.
pub struct RateLimitState {
    /// Throttled reports since the counter last started over.
    pub throttled: usize,
    /// The configured concurrency.
    pub concurrency: usize,
}

impl RateLimitState {
    /// The coordinator is well-formed when the concurrency is positive and
    /// the counter has not yet reached it.
    pub open spec fn wf(&self) -> bool {
        1 <= self.concurrency && self.throttled < self.concurrency
    }

    /// A fresh coordinator for a run at the given concurrency.
    pub fn new(concurrency: usize) -> (s: RateLimitState)
        requires
            concurrency >= 1,
        ensures
            s.wf(),
            s.concurrency == concurrency,
            s.throttled == 0,
    {
        RateLimitState { throttled: 0, concurrency }
    }

    /// Records one worker's throttled report. True exactly when this
    /// report completes an episode — every active worker has now reported
    /// — and the notice is due; the counter then starts over.
    pub fn notify_throttled(&mut self) -> (notice: bool)
        requires
            old(self).wf(),
        ensures
            final(self).wf(),
            final(self).concurrency == old(self).concurrency,
            notice == (old(self).throttled + 1 == old(self).concurrency),
            final(self).throttled == if notice {
                0int
            } else {
                old(self).throttled + 1
            },
    {
        self.throttled += 1;
        if self.throttled == self.concurrency {
            self.throttled = 0;
            true
        } else {
            false
        }
    }

    /// Feeds `k` throttled reports to the coordinator and counts how many
    /// notices fall due: an instrumented episode, as a fake set of workers
    /// would drive it.
    pub fn notify_burst(&mut self, k: usize) -> (notices: usize)
        requires
            old(self).wf(),
            old(self).throttled == 0,
        ensures
            final(self).wf(),
            final(self).concurrency == old(self).concurrency,
            notices == notices_after(old(self).concurrency as nat, k as nat),
            final(self).throttled == throttled_after(old(self).concurrency as nat, k as nat),
    {
        let mut notices: usize = 0;
        let mut j: usize = 0;
        while j < k
            invariant
                self.wf(),
                self.concurrency == old(self).concurrency,
                j <= k,
                notices <= j,
                notices == notices_after(old(self).concurrency as nat, j as nat),
                self.throttled == throttled_after(old(self).concurrency as nat, j as nat),
            decreases k - j,
        {
            let notice = self.notify_throttled();
            if notice {
                notices += 1;
            }
            j += 1;
        }
        notices
    }
}

/// The counter after `k` throttled reports from a fresh coordinator at
/// concurrency `c`.
pub open spec fn throttled_after(c: nat, k: nat) -> nat
    decreases k,
{
    if k == 0 {
        0
    } else if throttled_after(c, (k - 1) as nat) + 1 == c {
        0
    } else {
        throttled_after(c, (k - 1) as nat) + 1
    }
}

/// The number of notices fallen due over `k` throttled reports from a
/// fresh coordinator at concurrency `c`.
pub open spec fn notices_after(c: nat, k: nat) -> nat
    decreases k,
{
    if k == 0 {
        0nat
    } else {
        notices_after(c, (k - 1) as nat) + if throttled_after(c, (k - 1) as nat) + 1 == c {
            1nat
        } else {
            0nat
        }
    }
}

/// Closed forms of the coordinator's behavior: after `k` throttled reports
/// the counter reads `k % c`, and `k / c` notices have fallen due.
pub proof fn lemma_rate_limit_counting(c: nat, k: nat)
    requires
        c >= 1,
    ensures
        throttled_after(c, k) == (k as int) % (c as int),
        notices_after(c, k) == (k as int) / (c as int),
    decreases k,
{
    if k == 0 {
    } else {
        let p = (k - 1) as nat;
        lemma_rate_limit_counting(c, p);
        lemma_fundamental_div_mod(p as int, c as int);
        let q = p as int / c as int;
        let r = p as int % c as int;
        if r + 1 == c {
            assert(k as int == (q + 1) * (c as int) + 0) by (nonlinear_arith)
                requires
                    p as int == (c as int) * q + r,
                    k as int == p as int + 1,
                    r + 1 == c as int,
            ;
            lemma_fundamental_div_mod_converse_mod(k as int, c as int, q + 1, 0);
            lemma_fundamental_div_mod_converse_div(k as int, c as int, q + 1, 0);
        } else {
            assert(k as int == q * (c as int) + (r + 1)) by (nonlinear_arith)
                requires
                    p as int == (c as int) * q + r,
                    k as int == p as int + 1,
            ;
            lemma_fundamental_div_mod_converse_mod(k as int, c as int, q, r + 1);
            lemma_fundamental_div_mod_converse_div(k as int, c as int, q, r + 1);
        }
    }
}

/// Law: however many workers hit the throttle, the notice is emitted
/// exactly once per contiguous throttling episode — a fresh coordinator
/// at concurrency `c` stays silent while fewer than `c` workers have
/// reported, and exactly one notice falls due when all `c` have.
pub proof fn lemma_notice_once_per_episode(c: nat, k: nat)
    requires
        c >= 1,
    ensures
        notices_after(c, c) == 1,
        k < c ==> notices_after(c, k) == 0,
{
    lemma_rate_limit_counting(c, c);
    assert(c as int == 1 * (c as int) + 0) by (nonlinear_arith);
    lemma_fundamental_div_mod_converse_div(c as int, c as int, 1, 0);
    lemma_rate_limit_counting(c, k);
    if k < c {
        assert(k as int == 0 * (c as int) + k as int) by (nonlinear_arith);
        lemma_fundamental_div_mod_converse_div(k as int, c as int, 0, k as int);
    }
}

} // verus!
