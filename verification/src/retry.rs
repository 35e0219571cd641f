//! The retry schedule: an operation is tried up to `max_retries` times, and
//! after the `n`-th failed attempt the next one waits `n` times the base
//! delay.
use vstd::prelude::*;

verus! {

/// What follows a failed attempt.
#[derive(Debug, Clone, Copy, PartialEq, Eq, Structural)]
pub enum RetryAction {
    /// Wait this many milliseconds, then try again.
    Wait(u64),
    /// No attempt is left: give up with the last error.
    Exhausted,
}

/// Where a run of attempts stands: the number of the current attempt.
#[derive(Debug, Clone, Copy)]
pub struct Retry {
    pub attempt: u32,
    pub max_retries: u32,
    pub base_delay_ms: u64,
}

/// The wait after the `attempt`-th failure.
pub open spec fn delay_after(attempt: nat, base_delay_ms: nat) -> nat {
    base_delay_ms * attempt
}

/// The waits of a run in which every one of `max_retries` attempts fails,
/// added up.
pub open spec fn total_wait(max_retries: nat, base_delay_ms: nat) -> nat
    decreases max_retries,
{
    if max_retries <= 1 {
        0
    } else {
        total_wait((max_retries - 1) as nat, base_delay_ms) + delay_after(
            (max_retries - 1) as nat,
            base_delay_ms,
        )
    }
}

/// The action after the current attempt of `r` failed.
pub open spec fn failure_action(r: Retry) -> RetryAction {
    if r.attempt < r.max_retries {
        RetryAction::Wait((r.base_delay_ms * r.attempt) as u64)
    } else {
        RetryAction::Exhausted
    }
}

/// Where a run stands after the current attempt of `r` failed.
pub open spec fn after_failure(r: Retry) -> Retry {
    if r.attempt < r.max_retries {
        Retry { attempt: (r.attempt + 1) as u32, ..r }
    } else {
        r
    }
}

/// Where a run stands after `k` failed attempts from `r`.
pub open spec fn after_failures(r: Retry, k: nat) -> Retry
    decreases k,
{
    if k == 0 {
        r
    } else {
        after_failure(after_failures(r, (k - 1) as nat))
    }
}

impl Retry {
    /// The attempt is one of the allowed ones.
    pub open spec fn well_formed(&self) -> bool {
        1 <= self.attempt <= self.max_retries
    }

    /// The wait after the current attempt, if it fails, fits in a `u64`.
    pub open spec fn wait_fits(&self) -> bool {
        self.attempt < self.max_retries ==> self.base_delay_ms * self.attempt <= u64::MAX
    }

    /// The first attempt of a run. A run with no attempt allowed would end
    /// with no error to report, so at least one attempt is required.
    pub fn start(max_retries: u32, base_delay_ms: u64) -> (r: Retry)
        requires
            max_retries >= 1,
        ensures
            r.well_formed(),
            r.attempt == 1,
            r.max_retries == max_retries,
            r.base_delay_ms == base_delay_ms,
    {
        Retry { attempt: 1, max_retries, base_delay_ms }
    }

    /// After the current attempt failed: wait `attempt × base` and go on to
    /// the next attempt, or give up after the last one. The wait must fit in
    /// a `u64`.
    pub fn on_failure(&mut self) -> (r: RetryAction)
        requires
            old(self).well_formed(),
            old(self).wait_fits(),
        ensures
            r == failure_action(*old(self)),
            *final(self) == after_failure(*old(self)),
            final(self).well_formed(),
    {
        if self.attempt < self.max_retries {
            let delay = self.base_delay_ms * (self.attempt as u64);
            self.attempt = self.attempt + 1;
            RetryAction::Wait(delay)
        } else {
            RetryAction::Exhausted
        }
    }
}

/// When every attempt fails, the waits between the attempts add up to
/// `base × max × (max − 1) / 2`.
pub proof fn law_total_wait(max_retries: nat, base_delay_ms: nat)
    ensures
        2 * total_wait(max_retries, base_delay_ms) == base_delay_ms * max_retries * (if max_retries
            >= 1 {
            (max_retries - 1) as nat
        } else {
            0
        }),
    decreases max_retries,
{
    if max_retries > 1 {
        let m = (max_retries - 1) as nat;
        law_total_wait(m, base_delay_ms);
        assert(2 * total_wait(max_retries, base_delay_ms) == base_delay_ms * m * (if m >= 1 {
            (m - 1) as nat
        } else {
            0
        }) + 2 * base_delay_ms * m) by (nonlinear_arith)
            requires
                total_wait(max_retries, base_delay_ms) == total_wait(m, base_delay_ms) + base_delay_ms
                    * m,
                2 * total_wait(m, base_delay_ms) == base_delay_ms * m * (if m >= 1 {
                    (m - 1) as nat
                } else {
                    0
                }),
        ;
        assert(base_delay_ms * m * (if m >= 1 {
            (m - 1) as nat
        } else {
            0
        }) + 2 * base_delay_ms * m == base_delay_ms * max_retries * m) by (nonlinear_arith)
            requires
                m + 1 == max_retries,
                m >= 1,
        ;
    } else if max_retries == 1 {
        assert(base_delay_ms * 1 * 0 == 0) by (nonlinear_arith);
    }
}

/// In a run in which every attempt fails, the `k`-th failure (counting from
/// one) before the last is followed by a wait of `k × base`, and the
/// `max_retries`-th failure ends the run: the operation is tried exactly
/// `max_retries` times.
pub proof fn law_failing_run(max_retries: u32, base_delay_ms: u64, k: nat)
    requires
        max_retries >= 1,
        base_delay_ms * (max_retries - 1) <= u64::MAX,
        k < max_retries,
    ensures
        ({
            let s = Retry { attempt: 1, max_retries, base_delay_ms };
            &&& after_failures(s, k).attempt == k + 1
            &&& after_failures(s, k).max_retries == max_retries
            &&& after_failures(s, k).base_delay_ms == base_delay_ms
            &&& k + 1 < max_retries ==> failure_action(after_failures(s, k)) == RetryAction::Wait(
                (base_delay_ms * (k + 1)) as u64,
            )
            &&& k + 1 == max_retries ==> failure_action(after_failures(s, k)) == RetryAction::Exhausted
        }),
    decreases k,
{
    let s = Retry { attempt: 1, max_retries, base_delay_ms };
    if k > 0 {
        law_failing_run(max_retries, base_delay_ms, (k - 1) as nat);
        let p = after_failures(s, (k - 1) as nat);
        assert(p.attempt == k);
        assert(after_failures(s, k) == after_failure(p));
    }
}

} // verus!
