//! The fetcher's retry policy.
//!
//! One HTTP attempt either succeeds or fails with a network error or a
//! bad status; the machine below decides, after each failed attempt,
//! whether another one is allowed and how long to back off.  The caller
//! performs the attempts and sleeps; the decisions are all here.

use vstd::prelude::*;

verus! {

/// The kind of a failed attempt: a network-level failure, or an HTTP
/// response with a non-success status.  Both retry the same way; the
/// kind is kept so the last failure can be reported when attempts run
/// out.
#[derive(Clone, Copy, Debug, PartialEq, Eq, Structural)]
pub enum FetchErrorKind {
    Network,
    HttpStatus(u16),
}

/// The fetcher's tunables: the attempt cap, the backoff base delay,
/// the jitter bound, and a fixed per-request delay (zero for none)
/// applied before every attempt independent of backoff.
#[derive(Clone, Copy, Debug, PartialEq, Eq, Structural)]
pub struct RetryPolicy {
    pub max_attempts: u32,
    pub base_delay_ms: u64,
    pub jitter_ms: u64,
    pub rate_limit_ms: u64,
}

/// The retry state machine: `Attempting(n)` after `n` failed attempts
/// with another attempt allowed, `Succeeded` after a successful one,
/// `Exhausted` once the cap is reached.
#[derive(Clone, Copy, Debug, PartialEq, Eq, Structural)]
pub enum RetryState {
    Attempting(u32),
    Succeeded,
    Exhausted,
}

/// One attempt's outcome applied to the state: success ends the fetch;
/// a failure beyond the cap exhausts it; any earlier failure counts and
/// allows another attempt.
pub open spec fn spec_retry_step(max_attempts: u32, st: RetryState, success: bool) -> RetryState {
    match st {
        RetryState::Attempting(n) => {
            if success {
                RetryState::Succeeded
            } else if n + 1 >= max_attempts {
                RetryState::Exhausted
            } else {
                RetryState::Attempting((n + 1) as u32)
            }
        },
        _ => st,
    }
}

/// Advance the retry state by one attempt's outcome.
pub fn retry_step(policy: &RetryPolicy, st: RetryState, success: bool) -> (r: RetryState)
    ensures
        r == spec_retry_step(policy.max_attempts, st, success),
{
    match st {
        RetryState::Attempting(n) => {
            if success {
                RetryState::Succeeded
            } else if (n as u64) + 1 >= (policy.max_attempts as u64) {
                RetryState::Exhausted
            } else {
                RetryState::Attempting(n + 1)
            }
        },
        other => other,
    }
}

/// The backoff before retry `n + 1`: the base delay doubled once per
/// completed attempt, saturating at the type's ceiling.
pub open spec fn backoff_spec(base: u64, n: u32) -> u64
    decreases n,
{
    if n == 0 {
        base
    } else {
        let prev = backoff_spec(base, (n - 1) as u32);
        if prev > u64::MAX / 2 {
            u64::MAX
        } else {
            (2 * prev) as u64
        }
    }
}

/// The backoff delay after `attempts` failed attempts, plus a caller-
/// chosen jitter, saturating.
pub fn backoff_ms(policy: &RetryPolicy, attempts: u32, jitter: u64) -> (r: u64)
    ensures
        ({
            let b = backoff_spec(policy.base_delay_ms, attempts);
            if b + jitter > u64::MAX {
                r == u64::MAX
            } else {
                r == b + jitter
            }
        }),
{
    let mut d: u64 = policy.base_delay_ms;
    let mut k: u32 = 0;
    while k < attempts
        invariant
            k <= attempts,
            d == backoff_spec(policy.base_delay_ms, k),
        decreases attempts - k,
    {
        d = if d > u64::MAX / 2 {
            u64::MAX
        } else {
            2 * d
        };
        k += 1;
    }
    if d > u64::MAX - jitter {
        u64::MAX
    } else {
        d + jitter
    }
}

/// Relies on rand::random for an arbitrary machine word; nothing is
/// assumed of the value.
pub assume_specification<T>[ rand::random::<T> ]() -> (r: T)
    where
        rand::distr::StandardUniform: rand::distr::Distribution<T>,
;

/// The backoff delay after `attempts` failed attempts with random
/// jitter below the policy's bound, so synchronized clients spread
/// their retries.  Whatever number the generator yields, the result
/// lies between the plain backoff and the backoff plus the bound.
pub fn jittered_backoff_ms(policy: &RetryPolicy, attempts: u32) -> (r: u64)
    ensures
        backoff_spec(policy.base_delay_ms, attempts) <= r,
        r as int <= backoff_spec(policy.base_delay_ms, attempts) as int + (
        if policy.jitter_ms > 0 {
            (policy.jitter_ms - 1) as int
        } else {
            0int
        }),
{
    let jitter: u64 = if policy.jitter_ms > 0 {
        rand::random::<u64>() % policy.jitter_ms
    } else {
        0
    };
    backoff_ms(policy, attempts, jitter)
}

/// The state after `n` straight failures from a fresh fetch.
pub open spec fn after_failures(max_attempts: u32, n: nat) -> RetryState
    decreases n,
{
    if n == 0 {
        RetryState::Attempting(0)
    } else {
        spec_retry_step(max_attempts, after_failures(max_attempts, (n - 1) as nat), false)
    }
}

/// Law: against an endpoint that fails every time, a fetch under a cap
/// of `max_attempts` is still in progress after any smaller number of
/// failures — so every one of the `max_attempts` attempts is made —
/// and stands exhausted exactly when the cap is reached, returning to
/// the caller instead of trying again.
pub proof fn lemma_retry_cap(max_attempts: u32, n: nat)
    requires
        n <= max_attempts,
    ensures
        n < max_attempts ==> after_failures(max_attempts, n) == RetryState::Attempting(n as u32),
        n == max_attempts && n > 0 ==> after_failures(max_attempts, n) == RetryState::Exhausted,
    decreases n,
{
    if n > 0 {
        lemma_retry_cap(max_attempts, (n - 1) as nat);
    }
}

} // verus!
