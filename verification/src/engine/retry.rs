//! When a failed attempt at a task is tried again.
use vstd::prelude::*;
use crate::protocol::TaskResultSpec;

verus! {

/// How an attempt at a task ended, as the retry policy sees it.
#[derive(Debug)]
pub enum TaskResult {
    /// The task ran, and this is what it reported.
    Finished(TaskResultSpec),
    /// The task could not be run because the infrastructure failed.
    InfraError { reason: String },
}

/// `base` doubled `k` times: `base * 2^k`.
pub open spec fn doubled(base: nat, k: nat) -> nat
    decreases k,
{
    if k == 0 {
        base
    } else {
        2 * doubled(base, (k - 1) as nat)
    }
}

/// The delay before retry number `attempt`: the base delay doubled once per
/// earlier attempt, held at `u64::MAX` where it would not fit.
pub open spec fn backoff_delay(base_ms: u64, attempt: u32) -> u64 {
    if doubled(base_ms as nat, attempt as nat) <= u64::MAX {
        doubled(base_ms as nat, attempt as nat) as u64
    } else {
        u64::MAX
    }
}

/// Each further attempt waits twice as long as the one before, until the
/// delay no longer fits and stays at `u64::MAX`.
pub proof fn lemma_backoff_doubles(base_ms: u64, attempt: u32)
    requires
        attempt < u32::MAX,
    ensures
        2 * backoff_delay(base_ms, attempt) <= u64::MAX ==> backoff_delay(base_ms, (attempt + 1) as u32)
            == 2 * backoff_delay(base_ms, attempt),
        2 * backoff_delay(base_ms, attempt) > u64::MAX ==> backoff_delay(base_ms, (attempt + 1) as u32)
            == u64::MAX,
{
    assert(doubled(base_ms as nat, (attempt + 1) as nat) == 2 * doubled(base_ms as nat, attempt as nat));
}

/// What a worker does once its session with the master has ended.
#[derive(Debug, PartialEq, Eq, Structural)]
pub enum ReconnectAction {
    /// Wait this many milliseconds, then connect again.
    Wait(u64),
    /// Stop trying.
    GiveUp,
}

/// How often a task may be retried, and the base delay between attempts.
#[derive(Debug, Clone, Copy)]
pub struct RetryPolicy {
    pub max_retries: u32,
    pub base_delay_ms: u64,
}

impl RetryPolicy {
    /// A policy allowing `max_retries` retries, `base_delay_ms` apart at first.
    pub fn new(max_retries: u32, base_delay_ms: u64) -> (r: Self)
        ensures
            r.max_retries == max_retries,
            r.base_delay_ms == base_delay_ms,
    {
        RetryPolicy { max_retries, base_delay_ms }
    }

    /// How long to wait before retry number `attempt` (counting from zero):
    /// `base_delay_ms * 2^attempt`, or `u64::MAX` where that does not fit.
    pub fn delay_ms(&self, attempt: u32) -> (r: u64)
        ensures
            r == backoff_delay(self.base_delay_ms, attempt),
    {
        let mut d: u64 = self.base_delay_ms;
        let mut i: u32 = 0;
        while i < attempt
            invariant
                i <= attempt,
                d == backoff_delay(self.base_delay_ms, i),
            decreases attempt - i,
        {
            proof {
                lemma_backoff_doubles(self.base_delay_ms, i);
            }
            if d > u64::MAX / 2 {
                d = u64::MAX;
            } else {
                d = d * 2;
            }
            i += 1;
        }
        d
    }

    /// The next step after a session with the master ended, given how many
    /// attempts in a row have failed so far: a session that had connected
    /// starts the count again. Gives up once `max_retries` attempts in a row
    /// have failed; otherwise waits the backoff delay for this attempt. Gives
    /// the new count and the step.
    pub fn after_session(&self, attempt: u32, connected: bool) -> (r: (u32, ReconnectAction))
        ensures
            ({
                let a = if connected {
                    0
                } else {
                    attempt
                };
                &&& a >= self.max_retries ==> r == (a, ReconnectAction::GiveUp)
                &&& a < self.max_retries ==> r == ((a + 1) as u32, ReconnectAction::Wait(
                    backoff_delay(self.base_delay_ms, a),
                ))
            }),
    {
        let a = if connected {
            0
        } else {
            attempt
        };
        if a >= self.max_retries {
            (a, ReconnectAction::GiveUp)
        } else {
            (a + 1, ReconnectAction::Wait(self.delay_ms(a)))
        }
    }

    /// Whether to try again after attempt number `attempt` ended with
    /// `result`: only infrastructure failures are retried, and only while
    /// fewer than `max_retries` attempts were made.
    pub fn should_retry(&self, attempt: u32, result: &TaskResult) -> (r: bool)
        ensures
            r == (attempt < self.max_retries && result is InfraError),
    {
        if attempt >= self.max_retries {
            return false;
        }
        match result {
            TaskResult::InfraError { .. } => true,
            _ => false,
        }
    }
}

} // verus!
