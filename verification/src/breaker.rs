use vstd::prelude::*;
use crate::backoff::{BackoffStrategy, spec_next_attempt};
use crate::text::string_from_chars;

verus! {

/// Number of recent attempts kept for the rolling success window.
pub const ATTEMPT_WINDOW: usize = 100;

/// State of an RPC endpoint in the circuit breaker.
#[derive(Debug, Clone, Copy, PartialEq, Eq, Structural)]
pub enum EndpointState {
    /// Endpoint is healthy and can be used
    Healthy,
    /// Endpoint is degraded due to failures but still usable
    Degraded,
    /// Endpoint is in cooldown period after too many failures
    CoolingDown,
    /// Half-open state - sending canary requests to test recovery
    HalfOpen,
}

/// Gauge value exported for a state (0=Healthy, 1=Degraded, 2=CoolingDown, 3=HalfOpen).
pub open spec fn spec_state_code(state: EndpointState) -> i64 {
    match state {
        EndpointState::Healthy => 0,
        EndpointState::Degraded => 1,
        EndpointState::CoolingDown => 2,
        EndpointState::HalfOpen => 3,
    }
}

/// Gauge value exported for a state.
pub fn state_code(state: EndpointState) -> (r: i64)
    ensures
        r == spec_state_code(state),
{
    match state {
        EndpointState::Healthy => 0,
        EndpointState::Degraded => 1,
        EndpointState::CoolingDown => 2,
        EndpointState::HalfOpen => 3,
    }
}

/// Number of `true` entries (successes) in an attempt history.
pub open spec fn count_successes(s: Seq<bool>) -> nat
    decreases s.len(),
{
    if s.len() == 0 {
        0
    } else {
        count_successes(s.drop_last()) + if s.last() { 1nat } else { 0nat }
    }
}

/// The rolling window after recording one more attempt.
pub open spec fn window_push(s: Seq<bool>, outcome: bool) -> Seq<bool> {
    let t = s.push(outcome);
    if t.len() > ATTEMPT_WINDOW { t.subrange(1, t.len() as int) } else { t }
}

/// Success count of a sequence without its first element.
pub proof fn lemma_count_drop_first(s: Seq<bool>)
    requires
        s.len() > 0,
    ensures
        count_successes(s) == count_successes(s.subrange(1, s.len() as int)) + if s[0] { 1nat } else { 0nat },
    decreases s.len(),
{
    if s.len() == 1 {
        assert(s.subrange(1, 1) =~= Seq::<bool>::empty());
        assert(s.drop_last() =~= Seq::<bool>::empty());
    } else {
        let t = s.drop_last();
        lemma_count_drop_first(t);
        assert(t.subrange(1, t.len() as int) =~= s.subrange(1, s.len() as int).drop_last());
        assert(s.subrange(1, s.len() as int).last() == s.last());
    }
}

/// A sequence never has more successes than entries.
pub proof fn lemma_count_le_len(s: Seq<bool>)
    ensures
        count_successes(s) <= s.len(),
    decreases s.len(),
{
    if s.len() > 0 {
        lemma_count_le_len(s.drop_last());
    }
}

/// Health tracking counters of one endpoint (the integer part of its health record).
#[derive(Debug, Clone)]
pub struct EndpointHealth {
    /// Current state of the endpoint
    pub state: EndpointState,
    /// Consecutive failure count
    pub consecutive_failures: u32,
    /// Total attempts in current window
    pub total_attempts: usize,
    /// Successful attempts in current window
    pub successful_attempts: usize,
    /// Time of last failure (milliseconds on the caller's monotonic clock)
    pub last_failure_ms: Option<u64>,
    /// Time when cooldown started
    pub cooldown_start_ms: Option<u64>,
    /// Recent attempt history (success=true, failure=false)
    pub recent_attempts: Vec<bool>,
    /// Number of canary requests sent in half-open state
    pub canary_count: u32,
    /// Number of successful canary requests
    pub canary_successes: u32,
    /// Adaptive failure threshold
    pub adaptive_threshold: u32,
    /// Backoff strategy for exponential backoff
    pub backoff_strategy: BackoffStrategy,
    /// Time when half-open state started
    pub half_open_start_ms: Option<u64>,
}

impl EndpointHealth {
    /// The window counters agree with the attempt history.
    pub open spec fn wf(&self) -> bool {
        &&& self.recent_attempts@.len() <= ATTEMPT_WINDOW
        &&& self.total_attempts == self.recent_attempts@.len()
        &&& self.successful_attempts == count_successes(self.recent_attempts@)
        &&& self.canary_successes <= self.canary_count
    }

    /// Create a new endpoint health tracker.
    pub fn new(base_delay_ms: u64, max_delay_ms: u64) -> (r: Self)
        ensures
            r.wf(),
            r.state == EndpointState::Healthy,
            r.consecutive_failures == 0,
            r.total_attempts == 0,
            r.successful_attempts == 0,
            r.last_failure_ms is None,
            r.cooldown_start_ms is None,
            r.recent_attempts@ == Seq::<bool>::empty(),
            r.canary_count == 0,
            r.canary_successes == 0,
            r.adaptive_threshold == 5,
            r.backoff_strategy.base_delay_ms == base_delay_ms,
            r.backoff_strategy.max_delay_ms == max_delay_ms,
            r.backoff_strategy.attempt == 0,
            r.half_open_start_ms is None,
    {
        EndpointHealth {
            state: EndpointState::Healthy,
            consecutive_failures: 0,
            total_attempts: 0,
            successful_attempts: 0,
            last_failure_ms: None,
            cooldown_start_ms: None,
            recent_attempts: Vec::new(),
            canary_count: 0,
            canary_successes: 0,
            adaptive_threshold: 5,
            backoff_strategy: BackoffStrategy::new(base_delay_ms, max_delay_ms),
            half_open_start_ms: None,
        }
    }

    /// Append an attempt to the rolling window and recount it.
    fn push_attempt(&mut self, outcome: bool)
        requires
            old(self).wf(),
        ensures
            final(self).wf(),
            final(self).recent_attempts@ == window_push(old(self).recent_attempts@, outcome),
            final(self).state == old(self).state,
            final(self).consecutive_failures == old(self).consecutive_failures,
            final(self).last_failure_ms == old(self).last_failure_ms,
            final(self).cooldown_start_ms == old(self).cooldown_start_ms,
            final(self).canary_count == old(self).canary_count,
            final(self).canary_successes == old(self).canary_successes,
            final(self).adaptive_threshold == old(self).adaptive_threshold,
            final(self).backoff_strategy == old(self).backoff_strategy,
            final(self).half_open_start_ms == old(self).half_open_start_ms,
    {
        let ghost before = self.recent_attempts@;
        proof {
            lemma_count_le_len(before);
        }
        self.recent_attempts.push(outcome);
        proof {
            assert(self.recent_attempts@.drop_last() =~= before);
        }
        let ghost pushed = self.recent_attempts@;
        let mut successes: usize = self.successful_attempts;
        if outcome {
            successes = successes + 1;
        }
        assert(successes == count_successes(pushed));
        if self.recent_attempts.len() > ATTEMPT_WINDOW {
            let first = self.recent_attempts.remove(0);
            proof {
                lemma_count_drop_first(pushed);
                assert(self.recent_attempts@ =~= pushed.subrange(1, pushed.len() as int));
            }
            if first {
                successes = successes - 1;
            }
        }
        self.successful_attempts = successes;
        self.total_attempts = self.recent_attempts.len();
        proof {
            lemma_count_le_len(self.recent_attempts@);
        }
    }

    /// Record a successful request; in the half-open state it also counts as a successful canary.
    pub fn record_success(&mut self)
        requires
            old(self).wf(),
            old(self).state == EndpointState::HalfOpen ==> old(self).canary_count < u32::MAX,
        ensures
            final(self).wf(),
            final(self).recent_attempts@ == window_push(old(self).recent_attempts@, true),
            final(self).consecutive_failures == 0,
            final(self).last_failure_ms is None,
            old(self).state == EndpointState::HalfOpen ==> {
                &&& final(self).canary_count == old(self).canary_count + 1
                &&& final(self).canary_successes == old(self).canary_successes + 1
            },
            old(self).state != EndpointState::HalfOpen ==> {
                &&& final(self).canary_count == old(self).canary_count
                &&& final(self).canary_successes == old(self).canary_successes
            },
            final(self).state == old(self).state,
            final(self).cooldown_start_ms == old(self).cooldown_start_ms,
            final(self).adaptive_threshold == old(self).adaptive_threshold,
            final(self).backoff_strategy == old(self).backoff_strategy,
            final(self).half_open_start_ms == old(self).half_open_start_ms,
    {
        if self.state == EndpointState::HalfOpen {
            self.canary_successes = self.canary_successes + 1;
            self.canary_count = self.canary_count + 1;
        }
        self.consecutive_failures = 0;
        self.last_failure_ms = None;
        self.push_attempt(true);
    }

    /// Record a failed request at time `now_ms`; in the half-open state it also counts as a failed canary.
    pub fn record_failure(&mut self, now_ms: u64)
        requires
            old(self).wf(),
            old(self).consecutive_failures < u32::MAX,
            old(self).state == EndpointState::HalfOpen ==> old(self).canary_count < u32::MAX,
        ensures
            final(self).wf(),
            final(self).recent_attempts@ == window_push(old(self).recent_attempts@, false),
            final(self).consecutive_failures == old(self).consecutive_failures + 1,
            final(self).last_failure_ms == Some(now_ms),
            old(self).state == EndpointState::HalfOpen ==> final(self).canary_count == old(self).canary_count + 1,
            old(self).state != EndpointState::HalfOpen ==> final(self).canary_count == old(self).canary_count,
            final(self).canary_successes == old(self).canary_successes,
            final(self).state == old(self).state,
            final(self).cooldown_start_ms == old(self).cooldown_start_ms,
            final(self).adaptive_threshold == old(self).adaptive_threshold,
            final(self).backoff_strategy == old(self).backoff_strategy,
            final(self).half_open_start_ms == old(self).half_open_start_ms,
    {
        if self.state == EndpointState::HalfOpen {
            self.canary_count = self.canary_count + 1;
        }
        self.consecutive_failures = self.consecutive_failures + 1;
        self.last_failure_ms = Some(now_ms);
        self.push_attempt(false);
    }
}


impl EndpointHealth {
    /// Apply a state change decided by `decide_transition`, at time `now_ms`.
    pub fn apply_transition(&mut self, new_state: EndpointState, threshold: u32, now_ms: u64)
        requires
            old(self).wf(),
        ensures
            final(self).wf(),
            final(self).state == new_state,
            final(self).adaptive_threshold == threshold,
            final(self).recent_attempts@ == old(self).recent_attempts@,
            final(self).last_failure_ms == old(self).last_failure_ms,
            final(self).backoff_strategy.base_delay_ms == old(self).backoff_strategy.base_delay_ms,
            final(self).backoff_strategy.max_delay_ms == old(self).backoff_strategy.max_delay_ms,
            new_state == EndpointState::CoolingDown ==> {
                &&& final(self).cooldown_start_ms == Some(now_ms)
                &&& final(self).backoff_strategy.attempt == spec_next_attempt(old(self).backoff_strategy.attempt)
                &&& final(self).consecutive_failures == old(self).consecutive_failures
                &&& final(self).canary_count == old(self).canary_count
                &&& final(self).canary_successes == old(self).canary_successes
                &&& final(self).half_open_start_ms == old(self).half_open_start_ms
            },
            new_state == EndpointState::Healthy ==> {
                &&& final(self).backoff_strategy.attempt == 0
                &&& final(self).cooldown_start_ms == old(self).cooldown_start_ms
                &&& final(self).consecutive_failures == old(self).consecutive_failures
                &&& final(self).canary_count == old(self).canary_count
                &&& final(self).canary_successes == old(self).canary_successes
                &&& final(self).half_open_start_ms == old(self).half_open_start_ms
            },
            new_state == EndpointState::Degraded && old(self).state == EndpointState::HalfOpen ==> {
                &&& final(self).consecutive_failures == 0
                &&& final(self).backoff_strategy.attempt == 0
                &&& final(self).canary_count == 0
                &&& final(self).canary_successes == 0
                &&& final(self).half_open_start_ms is None
                &&& final(self).cooldown_start_ms == old(self).cooldown_start_ms
            },
            (new_state == EndpointState::Degraded && old(self).state != EndpointState::HalfOpen)
                || new_state == EndpointState::HalfOpen ==> {
                &&& final(self).backoff_strategy == old(self).backoff_strategy
                &&& final(self).cooldown_start_ms == old(self).cooldown_start_ms
                &&& final(self).consecutive_failures == old(self).consecutive_failures
                &&& final(self).canary_count == old(self).canary_count
                &&& final(self).canary_successes == old(self).canary_successes
                &&& final(self).half_open_start_ms == old(self).half_open_start_ms
            },
    {
        let old_state = self.state;
        self.state = new_state;
        self.adaptive_threshold = threshold;
        match new_state {
            EndpointState::CoolingDown => {
                self.cooldown_start_ms = Some(now_ms);
                self.backoff_strategy.advance_attempt();
            },
            EndpointState::Healthy => {
                self.backoff_strategy.reset();
            },
            EndpointState::Degraded => {
                if old_state == EndpointState::HalfOpen {
                    self.consecutive_failures = 0;
                    self.backoff_strategy.reset();
                    self.canary_count = 0;
                    self.canary_successes = 0;
                    self.half_open_start_ms = None;
                }
            },
            EndpointState::HalfOpen => {},
        }
    }

    /// Leave cooldown for the half-open state at time `now_ms`, with a fresh history for canary testing.
    pub fn enter_half_open(&mut self, now_ms: u64)
        requires
            old(self).wf(),
        ensures
            final(self).wf(),
            final(self).state == EndpointState::HalfOpen,
            final(self).half_open_start_ms == Some(now_ms),
            final(self).cooldown_start_ms is None,
            final(self).canary_count == 0,
            final(self).canary_successes == 0,
            final(self).recent_attempts@ == Seq::<bool>::empty(),
            final(self).total_attempts == 0,
            final(self).successful_attempts == 0,
            final(self).consecutive_failures == old(self).consecutive_failures,
            final(self).last_failure_ms == old(self).last_failure_ms,
            final(self).adaptive_threshold == old(self).adaptive_threshold,
            final(self).backoff_strategy == old(self).backoff_strategy,
    {
        self.state = EndpointState::HalfOpen;
        self.half_open_start_ms = Some(now_ms);
        self.cooldown_start_ms = None;
        self.canary_count = 0;
        self.canary_successes = 0;
        self.recent_attempts.clear();
        self.total_attempts = 0;
        self.successful_attempts = 0;
    }

    /// Reset to a healthy state with empty history (the per-endpoint part of resetting the breaker).
    pub fn reset(&mut self, failure_threshold: u32)
        requires
            old(self).wf(),
        ensures
            final(self).wf(),
            final(self).state == EndpointState::Healthy,
            final(self).consecutive_failures == 0,
            final(self).cooldown_start_ms is None,
            final(self).recent_attempts@ == Seq::<bool>::empty(),
            final(self).total_attempts == 0,
            final(self).successful_attempts == 0,
            final(self).canary_count == 0,
            final(self).canary_successes == 0,
            final(self).adaptive_threshold == failure_threshold,
            final(self).backoff_strategy.attempt == 0,
            final(self).backoff_strategy.base_delay_ms == old(self).backoff_strategy.base_delay_ms,
            final(self).backoff_strategy.max_delay_ms == old(self).backoff_strategy.max_delay_ms,
            final(self).half_open_start_ms is None,
            final(self).last_failure_ms == old(self).last_failure_ms,
    {
        self.state = EndpointState::Healthy;
        self.consecutive_failures = 0;
        self.cooldown_start_ms = None;
        self.recent_attempts.clear();
        self.total_attempts = 0;
        self.successful_attempts = 0;
        self.canary_count = 0;
        self.canary_successes = 0;
        self.adaptive_threshold = failure_threshold;
        self.backoff_strategy.reset();
        self.half_open_start_ms = None;
    }

    /// Canary progress `(successes, total)` reported while half-open.
    pub fn canary_progress(&self) -> (r: Option<(u32, u32)>)
        ensures
            r == if self.state == EndpointState::HalfOpen {
                Some((self.canary_successes, self.canary_count))
            } else {
                None::<(u32, u32)>
            },
    {
        if self.state == EndpointState::HalfOpen {
            Some((self.canary_successes, self.canary_count))
        } else {
            None
        }
    }
}

/// Band of the adaptive error metric (EWMA error rate plus a multiple of its deviation).
#[derive(Debug, Clone, Copy, PartialEq, Eq, Structural)]
pub enum ErrorBand {
    /// metric <= 0.3
    Low,
    /// 0.3 < metric <= 0.5
    Moderate,
    /// 0.5 < metric <= 0.7
    High,
    /// metric > 0.7
    VeryHigh,
}

/// The failure threshold scaled down by the error band, at least 1.
pub open spec fn spec_scaled_threshold(failure_threshold: u32, band: ErrorBand) -> u32 {
    let scaled: int = match band {
        ErrorBand::VeryHigh => (failure_threshold / 3) as int,
        ErrorBand::High => (failure_threshold / 2) as int,
        ErrorBand::Moderate => (failure_threshold * 3) / 4,
        ErrorBand::Low => failure_threshold as int,
    };
    if scaled >= 1 { scaled as u32 } else { 1 }
}

/// The failure threshold scaled down by the error band, at least 1.
pub fn scaled_threshold(failure_threshold: u32, band: ErrorBand) -> (r: u32)
    requires
        band == ErrorBand::Moderate ==> failure_threshold * 3 <= u32::MAX,
    ensures
        r == spec_scaled_threshold(failure_threshold, band),
{
    let scaled = match band {
        ErrorBand::VeryHigh => failure_threshold / 3,
        ErrorBand::High => failure_threshold / 2,
        ErrorBand::Moderate => (failure_threshold * 3) / 4,
        ErrorBand::Low => failure_threshold,
    };
    if scaled >= 1 { scaled } else { 1 }
}

/// Minimum number of error-rate samples before thresholds adapt.
pub const ADAPTIVE_MIN_SAMPLES: u64 = 10;

/// The failure threshold in force: scaled by the error band once adaptive thresholds are on
/// and enough samples were seen, the configured one otherwise.
pub open spec fn spec_effective_threshold(failure_threshold: u32, adaptive: bool, samples: u64, band: ErrorBand) -> u32 {
    if adaptive && samples >= ADAPTIVE_MIN_SAMPLES {
        spec_scaled_threshold(failure_threshold, band)
    } else {
        failure_threshold
    }
}

/// The failure threshold in force.
pub fn effective_threshold(failure_threshold: u32, adaptive: bool, samples: u64, band: ErrorBand) -> (r: u32)
    requires
        band == ErrorBand::Moderate ==> failure_threshold * 3 <= u32::MAX,
    ensures
        r == spec_effective_threshold(failure_threshold, adaptive, samples, band),
{
    if adaptive && samples >= ADAPTIVE_MIN_SAMPLES {
        scaled_threshold(failure_threshold, band)
    } else {
        failure_threshold
    }
}

/// Outcomes of the floating-point health measures, as the transition rule reads them.
#[derive(Debug, Clone, Copy, PartialEq, Eq, Structural)]
pub struct HealthSignals {
    /// Health score is below the configured minimum
    pub health_critical: bool,
    /// Success rate is below the configured minimum
    pub success_rate_low: bool,
    /// Success rate and health score are both above 0.7
    pub recovered: bool,
    /// Canary success rate reaches the canary threshold
    pub canary_passed: bool,
}

/// The state an endpoint moves to, or `None` to stay.
pub open spec fn spec_decide_transition(
    state: EndpointState,
    consecutive_failures: u32,
    total_attempts: usize,
    canary_count: u32,
    threshold: u32,
    sample_size: usize,
    canary_required: u32,
    signals: HealthSignals,
) -> Option<EndpointState> {
    match state {
        EndpointState::Healthy => {
            if signals.health_critical || consecutive_failures >= threshold {
                Some(EndpointState::Degraded)
            } else {
                None
            }
        },
        EndpointState::Degraded => {
            if consecutive_failures >= threshold * 2
                || (total_attempts >= sample_size && signals.success_rate_low)
                || signals.health_critical {
                Some(EndpointState::CoolingDown)
            } else if consecutive_failures == 0 && signals.recovered {
                Some(EndpointState::Healthy)
            } else {
                None
            }
        },
        EndpointState::HalfOpen => {
            if canary_count >= canary_required {
                if signals.canary_passed {
                    Some(EndpointState::Degraded)
                } else {
                    Some(EndpointState::CoolingDown)
                }
            } else {
                None
            }
        },
        EndpointState::CoolingDown => None,
    }
}

/// Decide the state change of an endpoint from its counters and health signals.
pub fn decide_transition(
    health: &EndpointHealth,
    threshold: u32,
    sample_size: usize,
    canary_required: u32,
    signals: HealthSignals,
) -> (r: Option<EndpointState>)
    requires
        health.state == EndpointState::Degraded ==> threshold * 2 <= u32::MAX,
    ensures
        r == spec_decide_transition(
            health.state,
            health.consecutive_failures,
            health.total_attempts,
            health.canary_count,
            threshold,
            sample_size,
            canary_required,
            signals,
        ),
{
    match health.state {
        EndpointState::Healthy => {
            if signals.health_critical || health.consecutive_failures >= threshold {
                Some(EndpointState::Degraded)
            } else {
                None
            }
        },
        EndpointState::Degraded => {
            if health.consecutive_failures >= threshold * 2
                || (health.total_attempts >= sample_size && signals.success_rate_low)
                || signals.health_critical {
                Some(EndpointState::CoolingDown)
            } else if health.consecutive_failures == 0 && signals.recovered {
                Some(EndpointState::Healthy)
            } else {
                None
            }
        },
        EndpointState::HalfOpen => {
            if health.canary_count >= canary_required {
                if signals.canary_passed {
                    Some(EndpointState::Degraded)
                } else {
                    Some(EndpointState::CoolingDown)
                }
            } else {
                None
            }
        },
        EndpointState::CoolingDown => None,
    }
}

/// Answer of the availability check.
#[derive(Debug, Clone, Copy, PartialEq, Eq, Structural)]
pub enum Availability {
    /// The endpoint may be used
    Available,
    /// The endpoint may not be used now
    Unavailable,
    /// The cooldown has expired: the endpoint enters the half-open state and may be used
    EnterHalfOpen,
}

/// Availability of an endpoint at time `now_ms`, given the (jittered) backoff delay of its cooldown.
pub open spec fn spec_availability(
    state: EndpointState,
    canary_count: u32,
    cooldown_start_ms: Option<u64>,
    canary_required: u32,
    now_ms: u64,
    backoff_delay_ms: u64,
) -> Availability {
    match state {
        EndpointState::Healthy => Availability::Available,
        EndpointState::Degraded => Availability::Available,
        EndpointState::HalfOpen => {
            if canary_count < canary_required { Availability::Available } else { Availability::Unavailable }
        },
        EndpointState::CoolingDown => {
            match cooldown_start_ms {
                Some(start) => {
                    let elapsed: int = if now_ms >= start { now_ms - start } else { 0 };
                    if elapsed >= backoff_delay_ms { Availability::EnterHalfOpen } else { Availability::Unavailable }
                },
                None => Availability::Available,
            }
        },
    }
}

/// Availability of an endpoint at time `now_ms`.
pub fn availability(health: &EndpointHealth, canary_required: u32, now_ms: u64, backoff_delay_ms: u64) -> (r: Availability)
    ensures
        r == spec_availability(
            health.state,
            health.canary_count,
            health.cooldown_start_ms,
            canary_required,
            now_ms,
            backoff_delay_ms,
        ),
{
    match health.state {
        EndpointState::Healthy => Availability::Available,
        EndpointState::Degraded => Availability::Available,
        EndpointState::HalfOpen => {
            if health.canary_count < canary_required {
                Availability::Available
            } else {
                Availability::Unavailable
            }
        },
        EndpointState::CoolingDown => {
            match health.cooldown_start_ms {
                Some(start) => {
                    let elapsed = now_ms.saturating_sub(start);
                    if elapsed >= backoff_delay_ms {
                        Availability::EnterHalfOpen
                    } else {
                        Availability::Unavailable
                    }
                },
                None => Availability::Available,
            }
        },
    }
}

/// A degraded endpoint cools down whenever it is clearly failing: after twice the threshold of
/// consecutive failures, once it has at least `sample_size` attempts and a low success rate, or
/// when its health is critical, whatever the other signals.
pub proof fn lemma_degraded_cools_down(
    consecutive_failures: u32,
    total_attempts: usize,
    canary_count: u32,
    threshold: u32,
    sample_size: usize,
    canary_required: u32,
    signals: HealthSignals,
)
    ensures
        consecutive_failures >= 2 * threshold
            || (total_attempts >= sample_size && signals.success_rate_low)
            || signals.health_critical
        ==> spec_decide_transition(EndpointState::Degraded, consecutive_failures, total_attempts, canary_count, threshold,
            sample_size, canary_required, signals) == Some(EndpointState::CoolingDown),
        !(consecutive_failures >= 2 * threshold
            || (total_attempts >= sample_size && signals.success_rate_low)
            || signals.health_critical)
        ==> spec_decide_transition(EndpointState::Degraded, consecutive_failures, total_attempts, canary_count, threshold,
            sample_size, canary_required, signals) != Some(EndpointState::CoolingDown),
{
}

/// Which state changes the transition rule makes: a healthy endpoint can only degrade, a degraded
/// one can cool down or recover, a half-open one goes back to degraded or to cooling down, and a
/// cooling-down one is never moved by the rule (it leaves through the availability check).
pub proof fn lemma_transition_successors(
    state: EndpointState,
    consecutive_failures: u32,
    total_attempts: usize,
    canary_count: u32,
    threshold: u32,
    sample_size: usize,
    canary_required: u32,
    signals: HealthSignals,
)
    ensures
        ({
            let next = spec_decide_transition(state, consecutive_failures, total_attempts, canary_count, threshold,
                sample_size, canary_required, signals);
            &&& next matches Some(s) ==> s != state
            &&& state == EndpointState::CoolingDown ==> next is None
            &&& state == EndpointState::Healthy ==> (next is None || next == Some(EndpointState::Degraded))
            &&& state == EndpointState::Degraded ==> (next is None || next == Some(EndpointState::CoolingDown)
                || next == Some(EndpointState::Healthy))
            &&& state == EndpointState::HalfOpen ==> (next is None || next == Some(EndpointState::Degraded)
                || next == Some(EndpointState::CoolingDown))
        }),
{
}

/// Quarantine and retry: a cooling-down endpoint is refused until its backoff delay has passed
/// since the cooldown began and is then let through in the half-open state; the transition rule
/// never moves a cooling-down endpoint, and only a degraded endpoint becomes healthy, so an
/// endpoint leaves quarantine through half-open and degraded.
pub proof fn lemma_quarantine_then_retry(
    state: EndpointState,
    consecutive_failures: u32,
    total_attempts: usize,
    canary_count: u32,
    threshold: u32,
    sample_size: usize,
    canary_required: u32,
    signals: HealthSignals,
    start_ms: u64,
    now_ms: u64,
    backoff_delay_ms: u64,
)
    ensures
        spec_decide_transition(EndpointState::CoolingDown, consecutive_failures, total_attempts, canary_count, threshold,
            sample_size, canary_required, signals) is None,
        spec_decide_transition(state, consecutive_failures, total_attempts, canary_count, threshold, sample_size,
            canary_required, signals) == Some(EndpointState::Healthy) ==> state == EndpointState::Degraded,
        now_ms >= start_ms && now_ms - start_ms < backoff_delay_ms ==> spec_availability(EndpointState::CoolingDown,
            canary_count, Some(start_ms), canary_required, now_ms, backoff_delay_ms) == Availability::Unavailable,
        now_ms >= start_ms && now_ms - start_ms >= backoff_delay_ms ==> spec_availability(EndpointState::CoolingDown,
            canary_count, Some(start_ms), canary_required, now_ms, backoff_delay_ms) == Availability::EnterHalfOpen,
        spec_availability(state, canary_count, Some(start_ms), canary_required, now_ms, backoff_delay_ms)
            == Availability::EnterHalfOpen ==> state == EndpointState::CoolingDown,
{
}

/// Integer settings of a circuit breaker.
#[derive(Debug, Clone, Copy, PartialEq, Eq, Structural)]
pub struct BreakerSettings {
    /// Failure threshold before marking an endpoint as degraded
    pub failure_threshold: u32,
    /// Cooldown duration in seconds
    pub cooldown_seconds: u64,
    /// Sample size for the success rate rule
    pub sample_size: usize,
    /// Number of canary requests in half-open state
    pub canary_count: u32,
    /// Maximum backoff multiplier
    pub max_backoff: u32,
    /// Base backoff duration in seconds
    pub base_backoff_seconds: u64,
    /// Adaptive thresholds enabled
    pub adaptive_thresholds: bool,
}

impl BreakerSettings {
    /// Settings of `CircuitBreaker::new`: 3 canaries, backoff multiplier 32, adaptive thresholds on.
    pub fn new(failure_threshold: u32, cooldown_seconds: u64, sample_size: usize) -> (r: Self)
        ensures
            r == (BreakerSettings {
                failure_threshold,
                cooldown_seconds,
                sample_size,
                canary_count: 3,
                max_backoff: 32,
                base_backoff_seconds: cooldown_seconds,
                adaptive_thresholds: true,
            }),
    {
        BreakerSettings {
            failure_threshold,
            cooldown_seconds,
            sample_size,
            canary_count: 3,
            max_backoff: 32,
            base_backoff_seconds: cooldown_seconds,
            adaptive_thresholds: true,
        }
    }

    /// Settings of `CircuitBreaker::with_config`.
    pub fn with_config(
        failure_threshold: u32,
        cooldown_seconds: u64,
        sample_size: usize,
        canary_count: u32,
        adaptive_thresholds: bool,
    ) -> (r: Self)
        ensures
            r == (BreakerSettings {
                failure_threshold,
                cooldown_seconds,
                sample_size,
                canary_count,
                max_backoff: 32,
                base_backoff_seconds: cooldown_seconds,
                adaptive_thresholds,
            }),
    {
        BreakerSettings {
            failure_threshold,
            cooldown_seconds,
            sample_size,
            canary_count,
            max_backoff: 32,
            base_backoff_seconds: cooldown_seconds,
            adaptive_thresholds,
        }
    }

    /// Backoff bounds `(base, max)` in milliseconds for a new endpoint.
    pub fn backoff_bounds_ms(&self) -> (r: (u64, u64))
        requires
            self.base_backoff_seconds * 1000 <= u64::MAX,
            self.max_backoff * self.base_backoff_seconds * 1000 <= u64::MAX,
        ensures
            r.0 == self.base_backoff_seconds * 1000,
            r.1 == self.max_backoff * self.base_backoff_seconds * 1000,
    {
        let base = self.base_backoff_seconds * 1000;
        proof {
            assert(self.max_backoff as u64 * self.base_backoff_seconds * 1000 <= u64::MAX);
            assert(self.max_backoff as u64 * self.base_backoff_seconds <= u64::MAX) by (nonlinear_arith)
                requires self.max_backoff as u64 * self.base_backoff_seconds * 1000 <= u64::MAX;
        }
        let max = self.max_backoff as u64 * self.base_backoff_seconds * 1000;
        (base, max)
    }

    /// A fresh health record for an endpoint seen for the first time.
    pub fn new_endpoint(&self) -> (r: EndpointHealth)
        requires
            self.base_backoff_seconds * 1000 <= u64::MAX,
            self.max_backoff * self.base_backoff_seconds * 1000 <= u64::MAX,
        ensures
            r.wf(),
            r.state == EndpointState::Healthy,
            r.consecutive_failures == 0,
            r.recent_attempts@ == Seq::<bool>::empty(),
            r.canary_count == 0,
            r.canary_successes == 0,
            r.adaptive_threshold == 5,
            r.cooldown_start_ms is None,
            r.half_open_start_ms is None,
            r.last_failure_ms is None,
            r.backoff_strategy.base_delay_ms == self.base_backoff_seconds * 1000,
            r.backoff_strategy.max_delay_ms == self.max_backoff * self.base_backoff_seconds * 1000,
            r.backoff_strategy.attempt == 0,
    {
        let (base, max) = self.backoff_bounds_ms();
        EndpointHealth::new(base, max)
    }
}


/// Result of `char::is_alphanumeric` (alphabetic or numeric in the Unicode sense).
pub uninterp spec fn spec_char_is_alphanumeric(c: char) -> bool;

/// Whether an ASCII character is a letter or a digit.
pub open spec fn is_ascii_alnum(c: char) -> bool {
    ('a' <= c && c <= 'z') || ('A' <= c && c <= 'Z') || ('0' <= c && c <= '9')
}

/// Calls `char::is_alphanumeric`. The result is named; on ASCII characters it is true exactly
/// for letters and digits, as the standard library documents. Which non-ASCII characters are
/// alphanumeric (the Unicode tables) is left unstated.
#[verifier::external_body]
fn char_is_alphanumeric(c: char) -> (r: bool)
    ensures
        r == spec_char_is_alphanumeric(c),
        (c as u32) < 128 ==> (r <==> is_ascii_alnum(c)),
{
    c.is_alphanumeric()
}

/// A metric-name character: kept when alphanumeric, `_` otherwise.
pub open spec fn sanitized_char(c: char) -> char {
    if spec_char_is_alphanumeric(c) { c } else { '_' }
}

/// An endpoint name made fit for a Prometheus metric name.
pub open spec fn spec_sanitize(name: Seq<char>) -> Seq<char> {
    name.map_values(|c: char| sanitized_char(c))
}

/// Replace every non-alphanumeric character of an endpoint name by `_`.
pub fn sanitize_metric_name(endpoint: &str) -> (r: String)
    ensures
        r@ == spec_sanitize(endpoint@),
        r@.len() == endpoint@.len(),
        forall|i: int| 0 <= i < endpoint@.len() && (endpoint@[i] as u32) < 128 ==>
            #[trigger] r@[i] == if is_ascii_alnum(endpoint@[i]) { endpoint@[i] } else { '_' },
{
    let mut out: Vec<char> = Vec::new();
    let ghost name = endpoint@;
    for c in it: endpoint.chars()
        invariant
            it.seq() == name,
            out@.len() == it.index(),
            forall|j: int| 0 <= j < out@.len() ==> out@[j] == sanitized_char(#[trigger] name[j]),
            forall|j: int| 0 <= j < out@.len() && (name[j] as u32) < 128 ==>
                #[trigger] out@[j] == if is_ascii_alnum(name[j]) { name[j] } else { '_' },
    {
        if char_is_alphanumeric(c) {
            out.push(c);
        } else {
            out.push('_');
        }
    }
    proof {
        assert(out@ =~= spec_sanitize(name));
    }
    string_from_chars(&out)
}

/// How far the Prometheus failure counter, which only goes up, must be raised to reach the
/// endpoint's consecutive failures.
pub fn failure_counter_delta(consecutive_failures: u32, current: u64) -> (r: u64)
    ensures
        r == if consecutive_failures > current { consecutive_failures - current } else { 0 },
        current + r == if consecutive_failures > current { consecutive_failures as int } else { current as int },
{
    if consecutive_failures as u64 > current {
        consecutive_failures as u64 - current
    } else {
        0
    }
}

/// Phase of a monitoring task's shutdown.
#[derive(Debug, Clone, Copy, PartialEq, Eq, Structural)]
pub enum ShutdownPhase {
    /// The task was told to stop and is given time to finish
    Graceful,
    /// The task was aborted and is given time to confirm
    Forced,
}

/// What waiting on a task's handle gave.
#[derive(Debug, Clone, Copy, PartialEq, Eq, Structural)]
pub enum JoinOutcome {
    /// The task returned
    Finished,
    /// The task panicked
    Panicked,
    /// The task was cancelled
    Cancelled,
    /// The join failed otherwise
    Failed,
    /// The wait ran out
    TimedOut,
}

/// How a shutdown ended.
#[derive(Debug, Clone, Copy, PartialEq, Eq, Structural)]
pub enum ShutdownOutcome {
    /// Finished during the graceful phase
    Success,
    /// Panicked, or failed, during the graceful phase; or panicked after the abort
    Panic,
    /// Finished after the abort
    Completed,
    /// Cancelled by the abort
    Cancelled,
    /// Failed otherwise after the abort
    Error,
    /// Did not confirm the abort in time
    AbortTimeout,
}

/// The next step of a shutdown.
#[derive(Debug, Clone, Copy, PartialEq, Eq, Structural)]
pub enum ShutdownStep {
    /// Abort the task and wait again, in the forced phase
    AbortAndWait,
    /// Stop: the handle is dropped
    Done(ShutdownOutcome),
}

/// How long each phase waits on the task: 5 s graceful, 2 s after the abort.
pub open spec fn spec_phase_wait_ms(phase: ShutdownPhase) -> u64 {
    match phase {
        ShutdownPhase::Graceful => 5000,
        ShutdownPhase::Forced => 2000,
    }
}

/// How long a phase waits on the task.
pub fn phase_wait_ms(phase: ShutdownPhase) -> (r: u64)
    ensures
        r == spec_phase_wait_ms(phase),
{
    match phase {
        ShutdownPhase::Graceful => 5000,
        ShutdownPhase::Forced => 2000,
    }
}

/// The step that follows a wait's outcome in a phase.
pub open spec fn spec_shutdown_step(phase: ShutdownPhase, outcome: JoinOutcome) -> ShutdownStep {
    match phase {
        ShutdownPhase::Graceful => match outcome {
            JoinOutcome::Finished => ShutdownStep::Done(ShutdownOutcome::Success),
            JoinOutcome::TimedOut => ShutdownStep::AbortAndWait,
            _ => ShutdownStep::Done(ShutdownOutcome::Panic),
        },
        ShutdownPhase::Forced => match outcome {
            JoinOutcome::Finished => ShutdownStep::Done(ShutdownOutcome::Completed),
            JoinOutcome::Cancelled => ShutdownStep::Done(ShutdownOutcome::Cancelled),
            JoinOutcome::Panicked => ShutdownStep::Done(ShutdownOutcome::Panic),
            JoinOutcome::Failed => ShutdownStep::Done(ShutdownOutcome::Error),
            JoinOutcome::TimedOut => ShutdownStep::Done(ShutdownOutcome::AbortTimeout),
        },
    }
}

/// Decide what follows a wait on a stopping task.
pub fn next_shutdown_step(phase: ShutdownPhase, outcome: JoinOutcome) -> (r: ShutdownStep)
    ensures
        r == spec_shutdown_step(phase, outcome),
{
    match phase {
        ShutdownPhase::Graceful => match outcome {
            JoinOutcome::Finished => ShutdownStep::Done(ShutdownOutcome::Success),
            JoinOutcome::TimedOut => ShutdownStep::AbortAndWait,
            _ => ShutdownStep::Done(ShutdownOutcome::Panic),
        },
        ShutdownPhase::Forced => match outcome {
            JoinOutcome::Finished => ShutdownStep::Done(ShutdownOutcome::Completed),
            JoinOutcome::Cancelled => ShutdownStep::Done(ShutdownOutcome::Cancelled),
            JoinOutcome::Panicked => ShutdownStep::Done(ShutdownOutcome::Panic),
            JoinOutcome::Failed => ShutdownStep::Done(ShutdownOutcome::Error),
            JoinOutcome::TimedOut => ShutdownStep::Done(ShutdownOutcome::AbortTimeout),
        },
    }
}

/// The label a shutdown outcome is logged under.
pub open spec fn spec_outcome_label(o: ShutdownOutcome) -> Seq<char> {
    match o {
        ShutdownOutcome::Success => "success"@,
        ShutdownOutcome::Panic => "panic"@,
        ShutdownOutcome::Completed => "completed"@,
        ShutdownOutcome::Cancelled => "cancelled"@,
        ShutdownOutcome::Error => "error"@,
        ShutdownOutcome::AbortTimeout => "abort_timeout"@,
    }
}

/// The label a shutdown outcome is logged under.
pub fn outcome_label(o: ShutdownOutcome) -> (r: &'static str)
    ensures
        r@ == spec_outcome_label(o),
{
    match o {
        ShutdownOutcome::Success => "success",
        ShutdownOutcome::Panic => "panic",
        ShutdownOutcome::Completed => "completed",
        ShutdownOutcome::Cancelled => "cancelled",
        ShutdownOutcome::Error => "error",
        ShutdownOutcome::AbortTimeout => "abort_timeout",
    }
}

/// Shutdown is deterministic and bounded: whatever the two waits report, a shutdown that starts
/// gracefully is done after at most the graceful wait and one forced wait, 7 s in all, and it
/// goes to the forced phase exactly when the graceful wait runs out.
pub proof fn lemma_shutdown_bounded(first: JoinOutcome, second: JoinOutcome)
    ensures
        spec_shutdown_step(ShutdownPhase::Forced, second) is Done,
        spec_shutdown_step(ShutdownPhase::Graceful, first) is AbortAndWait <==> first == JoinOutcome::TimedOut,
        spec_phase_wait_ms(ShutdownPhase::Graceful) + spec_phase_wait_ms(ShutdownPhase::Forced) == 7000,
{
}

} // verus!
