//! The delay before a retry: exponential in the number of the failed
//! attempt, capped, and shortened by a jitter that the caller draws.

use crate::model::RetryPolicy;
use vstd::prelude::*;

verus! {

/// `base`, doubled `times` times.
pub open spec fn doubled(base: nat, times: nat) -> nat
    decreases times,
{
    if times == 0 {
        base
    } else {
        2 * doubled(base, (times - 1) as nat)
    }
}

/// The longest delay after attempt `attempt` failed: the base delay after
/// the first attempt, twice as long after each further one, and never more
/// than the cap.
pub open spec fn backoff_ceiling(policy: RetryPolicy, attempt: u32) -> nat {
    let times = if attempt >= 1 {
        (attempt - 1) as nat
    } else {
        0nat
    };
    let raw = doubled(policy.backoff_base_ms as nat, times);
    if raw < policy.backoff_cap_ms {
        raw
    } else {
        policy.backoff_cap_ms as nat
    }
}

/// The delay after attempt `attempt` failed: the ceiling, less a part of its
/// half that the jitter picks. It lies between half the ceiling and the ceiling.
pub open spec fn backoff_delay_spec(policy: RetryPolicy, attempt: u32, jitter: u64) -> nat {
    let ceiling = backoff_ceiling(policy, attempt);
    (ceiling - (jitter as nat) % (ceiling / 2 + 1)) as nat
}

/// Doubling more often gives no less.
pub proof fn lemma_doubled_monotone(base: nat, i: nat, j: nat)
    requires
        i <= j,
    ensures
        doubled(base, i) <= doubled(base, j),
    decreases j,
{
    if i < j {
        lemma_doubled_monotone(base, i, (j - 1) as nat);
    }
}

/// Nothing, doubled, is nothing.
pub proof fn lemma_doubled_zero(times: nat)
    ensures
        doubled(0, times) == 0,
    decreases times,
{
    if times > 0 {
        lemma_doubled_zero((times - 1) as nat);
    }
}

/// The longest delay after attempt `attempt` failed, in milliseconds.
pub fn backoff_ceiling_ms(policy: &RetryPolicy, attempt: u32) -> (r: u64)
    ensures
        r == backoff_ceiling(*policy, attempt),
{
    let cap = policy.backoff_cap_ms;
    let base = policy.backoff_base_ms;
    let ghost times = if attempt >= 1 {
        (attempt - 1) as nat
    } else {
        0nat
    };
    if base >= cap {
        proof {
            lemma_doubled_monotone(base as nat, 0, times);
        }
        return cap;
    }
    if base == 0 {
        proof {
            lemma_doubled_zero(times);
        }
        return 0;
    }
    let mut delay: u64 = base;
    let mut k: u32 = 1;
    while k < attempt
        invariant
            1 <= k,
            attempt >= 1 ==> k <= attempt,
            attempt == 0 ==> k == 1,
            times == if attempt >= 1 {
                (attempt - 1) as nat
            } else {
                0nat
            },
            delay == doubled(base as nat, (k - 1) as nat),
            1 <= delay < cap,
            cap == policy.backoff_cap_ms,
            base == policy.backoff_base_ms,
        decreases attempt - k,
    {
        if delay >= cap - delay {
            proof {
                assert(doubled(base as nat, k as nat) == 2 * doubled(base as nat, (k - 1) as nat));
                lemma_doubled_monotone(base as nat, k as nat, times);
            }
            return cap;
        }
        delay = delay + delay;
        k = k + 1;
    }
    delay
}

/// The delay to wait after attempt `attempt` failed, in milliseconds.
/// `jitter` is any number, drawn anew for each delay by the caller.
pub fn backoff_delay(policy: &RetryPolicy, attempt: u32, jitter: u64) -> (r: u64)
    ensures
        r == backoff_delay_spec(*policy, attempt, jitter),
        backoff_ceiling(*policy, attempt) / 2 <= r <= backoff_ceiling(*policy, attempt),
        r <= policy.backoff_cap_ms,
{
    let ceiling = backoff_ceiling_ms(policy, attempt);
    let span = ceiling / 2 + 1;
    ceiling - jitter % span
}

} // verus!
