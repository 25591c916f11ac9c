use vstd::prelude::*;
use vstd::arithmetic::power2::{pow2, lemma_pow2_unfold, lemma_pow2_strictly_increases, lemma_pow2_pos};
use vstd::arithmetic::mul::lemma_mul_inequality;

verus! {

/// Largest attempt number; `2^64` would overflow `u64`.
pub const MAX_ATTEMPT: u32 = 63;

/// `2^e`, saturated at `u64::MAX`.
pub open spec fn sat_pow2(e: u32) -> int {
    if pow2(e as nat) <= u64::MAX { pow2(e as nat) as int } else { u64::MAX as int }
}

/// `x`, saturated at `u64::MAX`.
pub open spec fn sat_u64(x: int) -> int {
    if x <= u64::MAX { x } else { u64::MAX as int }
}

/// The backoff delay before jitter: `base * 2^attempt`, saturated, capped by `max`.
pub open spec fn spec_capped_delay(base: u64, max: u64, attempt: u32) -> u64 {
    let exponential = sat_u64(base * sat_pow2(attempt));
    if exponential <= max { exponential as u64 } else { max }
}

/// The attempt number after one more failure, capped at `MAX_ATTEMPT`.
pub open spec fn spec_next_attempt(attempt: u32) -> u32 {
    if attempt + 1 <= MAX_ATTEMPT { (attempt + 1) as u32 } else { MAX_ATTEMPT }
}

/// `2u64.saturating_pow(e)`.
pub fn saturating_pow2(e: u32) -> (r: u64)
    ensures
        r == sat_pow2(e),
{
    let mut p: u64 = 1;
    let mut i: u32 = 0;
    proof {
        vstd::arithmetic::power2::lemma2_to64();
    }
    while i < e
        invariant
            i <= e,
            p == pow2(i as nat),
        decreases e - i,
    {
        proof {
            lemma_pow2_unfold((i + 1) as nat);
        }
        if p > u64::MAX / 2 {
            proof {
                if (i + 1) < e {
                    lemma_pow2_strictly_increases((i + 1) as nat, e as nat);
                }
            }
            return u64::MAX;
        }
        p = p * 2;
        i = i + 1;
    }
    p
}

/// Exponential backoff with a cap; the random jitter is applied by the caller.
#[derive(Debug, Clone, Copy)]
pub struct BackoffStrategy {
    /// Base delay in milliseconds
    pub base_delay_ms: u64,
    /// Maximum delay in milliseconds
    pub max_delay_ms: u64,
    /// Current attempt number
    pub attempt: u32,
}

impl BackoffStrategy {
    /// Create a new backoff strategy.
    pub fn new(base_delay_ms: u64, max_delay_ms: u64) -> (r: Self)
        ensures
            r.base_delay_ms == base_delay_ms,
            r.max_delay_ms == max_delay_ms,
            r.attempt == 0,
    {
        BackoffStrategy { base_delay_ms, max_delay_ms, attempt: 0 }
    }

    /// The delay of the current attempt before jitter, without advancing the attempt.
    pub fn capped_delay_ms(&self) -> (r: u64)
        ensures
            r == spec_capped_delay(self.base_delay_ms, self.max_delay_ms, self.attempt),
    {
        let factor = saturating_pow2(self.attempt);
        let exponential = match self.base_delay_ms.checked_mul(factor) {
            Some(v) => v,
            None => u64::MAX,
        };
        if exponential <= self.max_delay_ms {
            exponential
        } else {
            self.max_delay_ms
        }
    }

    /// Advance to the next attempt (capped) and return its delay before jitter.
    pub fn next_delay_ms(&mut self) -> (r: u64)
        ensures
            final(self).base_delay_ms == old(self).base_delay_ms,
            final(self).max_delay_ms == old(self).max_delay_ms,
            final(self).attempt == spec_next_attempt(old(self).attempt),
            r == spec_capped_delay(final(self).base_delay_ms, final(self).max_delay_ms, final(self).attempt),
    {
        self.advance_attempt();
        self.capped_delay_ms()
    }

    /// Increment the attempt counter, capped at `MAX_ATTEMPT`.
    pub fn advance_attempt(&mut self)
        ensures
            final(self).base_delay_ms == old(self).base_delay_ms,
            final(self).max_delay_ms == old(self).max_delay_ms,
            final(self).attempt == spec_next_attempt(old(self).attempt),
    {
        if self.attempt >= MAX_ATTEMPT {
            self.attempt = MAX_ATTEMPT;
        } else {
            self.attempt = self.attempt + 1;
        }
    }

    /// Reset the backoff strategy on success.
    pub fn reset(&mut self)
        ensures
            final(self).base_delay_ms == old(self).base_delay_ms,
            final(self).max_delay_ms == old(self).max_delay_ms,
            final(self).attempt == 0,
    {
        self.attempt = 0;
    }
}

/// The delay before jitter never exceeds the configured maximum.
pub proof fn lemma_delay_bounded(base: u64, max: u64, attempt: u32)
    ensures
        spec_capped_delay(base, max, attempt) <= max,
{
}

/// After a reset the delay is the base delay (capped by the maximum).
pub proof fn lemma_reset_delay_is_base(base: u64, max: u64)
    ensures
        spec_capped_delay(base, max, 0) == if base <= max { base } else { max },
{
    vstd::arithmetic::power2::lemma2_to64();
    assert(sat_pow2(0) == 1);
    assert(base * 1 == base);
}

/// Advancing the attempt never shortens the delay.
pub proof fn lemma_delay_monotone(base: u64, max: u64, attempt: u32)
    requires
        attempt <= MAX_ATTEMPT,
    ensures
        spec_capped_delay(base, max, attempt) <= spec_capped_delay(base, max, spec_next_attempt(attempt)),
{
    let next = spec_next_attempt(attempt);
    if attempt < next {
        lemma_pow2_strictly_increases(attempt as nat, next as nat);
    }
    assert(sat_pow2(attempt) <= sat_pow2(next));
    lemma_pow2_pos(attempt as nat);
    lemma_mul_inequality(sat_pow2(attempt), sat_pow2(next), base as int);
    assert(sat_pow2(attempt) * base <= sat_pow2(next) * base);
    assert(base * sat_pow2(attempt) <= base * sat_pow2(next)) by (nonlinear_arith)
        requires sat_pow2(attempt) * base <= sat_pow2(next) * base;
}

/// The attempt counter never exceeds `MAX_ATTEMPT` once advanced.
pub proof fn lemma_attempt_capped(attempt: u32)
    ensures
        spec_next_attempt(attempt) <= MAX_ATTEMPT,
{
}

} // verus!
