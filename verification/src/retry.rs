//! Retrying: when a failed call to an object store is worth another try.
//!
//! A passing failure is tried again after a delay that doubles with each
//! try and never passes a ceiling; after a given number of tries the call is
//! given up. A lasting failure is never tried again.

use crate::error::StoreError;
use vstd::prelude::*;

verus! {

/// How often and how patiently a call is tried again.
#[derive(Clone, Copy, Debug, PartialEq, Eq, Structural)]
pub struct RetryPolicy {
    /// The most tries that follow the first call.
    pub max_retries: u32,
    /// The delay before the first retry, in milliseconds.
    pub base_delay_ms: u64,
    /// The longest delay before any retry, in milliseconds.
    pub max_delay_ms: u64,
}

/// What to do after a call failed.
#[derive(Clone, Copy, Debug, PartialEq, Eq, Structural)]
pub enum RetryDecision {
    /// Wait that long, then call again.
    RetryAfter { delay_ms: u64 },
    /// Hand the failure on.
    GiveUp,
}

/// `base` doubled `times` times.
pub open spec fn doubled(base: nat, times: nat) -> nat
    decreases times,
{
    if times == 0 {
        base
    } else {
        2 * doubled(base, (times - 1) as nat)
    }
}

/// The smaller of two numbers.
pub open spec fn least(a: nat, b: nat) -> nat {
    if a <= b {
        a
    } else {
        b
    }
}

impl RetryPolicy {
    /// The delay before retry `retry`, counted from zero: the base delay
    /// doubled `retry` times, or the longest delay where that is shorter.
    pub open spec fn backoff(self, retry: nat) -> nat {
        least(doubled(self.base_delay_ms as nat, retry), self.max_delay_ms as nat)
    }

    /// What to do after a call failed with `error`, when `retries` retries
    /// were made before.
    pub open spec fn decision(self, retries: u32, error: StoreError) -> RetryDecision {
        if error is Fatal || retries >= self.max_retries {
            RetryDecision::GiveUp
        } else {
            RetryDecision::RetryAfter { delay_ms: self.backoff(retries as nat) as u64 }
        }
    }

    /// Decides what to do after a call failed with `error`, when `retries`
    /// retries were made before.
    pub fn decide(&self, retries: u32, error: StoreError) -> (res: RetryDecision)
        ensures
            res == self.decision(retries, error),
    {
        match error {
            StoreError::Fatal => {
                return RetryDecision::GiveUp;
            },
            StoreError::Retryable => {},
        }
        if retries >= self.max_retries {
            return RetryDecision::GiveUp;
        }
        let ceiling = self.max_delay_ms;
        let mut delay: u64 = if self.base_delay_ms <= ceiling {
            self.base_delay_ms
        } else {
            ceiling
        };
        let mut i: u32 = 0;
        while i < retries
            invariant
                i <= retries,
                ceiling == self.max_delay_ms,
                delay == self.backoff(i as nat),
            decreases retries - i,
        {
            delay = if delay >= ceiling - delay {
                ceiling
            } else {
                delay + delay
            };
            i += 1;
        }
        RetryDecision::RetryAfter { delay_ms: delay }
    }
}

/// Doubling never shortens a delay.
pub proof fn lemma_doubled_grows(base: nat, times: nat)
    ensures
        doubled(base, times) <= doubled(base, times + 1),
    decreases times,
{
    if times > 0 {
        lemma_doubled_grows(base, (times - 1) as nat);
    }
}

/// No delay is longer than the ceiling, and no delay is
/// shorter than the one before.
pub proof fn lemma_backoff_bounded(policy: RetryPolicy, retry: nat)
    ensures
        policy.backoff(retry) <= policy.max_delay_ms,
        policy.backoff(retry) <= policy.backoff(retry + 1),
{
    lemma_doubled_grows(policy.base_delay_ms as nat, retry);
}

} // verus!
