use h_5n1p3r::backoff::{saturating_pow2, BackoffStrategy};
use h_5n1p3r::breaker::{
    availability, decide_transition, effective_threshold, failure_counter_delta, next_shutdown_step,
    outcome_label, phase_wait_ms, sanitize_metric_name, scaled_threshold, state_code, Availability,
    BreakerSettings, EndpointHealth, EndpointState, ErrorBand, HealthSignals, JoinOutcome,
    ShutdownOutcome, ShutdownPhase, ShutdownStep,
};

fn no_signals() -> HealthSignals {
    HealthSignals { health_critical: false, success_rate_low: false, recovered: false, canary_passed: false }
}

#[test]
fn test_backoff_strategy_doubles_and_caps() {
    let mut backoff = BackoffStrategy::new(1000, 8000);
    assert_eq!(backoff.capped_delay_ms(), 1000);
    assert_eq!(backoff.next_delay_ms(), 2000);
    assert_eq!(backoff.next_delay_ms(), 4000);
    assert_eq!(backoff.next_delay_ms(), 8000);
    assert_eq!(backoff.next_delay_ms(), 8000);
    backoff.reset();
    assert_eq!(backoff.attempt, 0);
    assert_eq!(backoff.capped_delay_ms(), 1000);
}

#[test]
fn test_backoff_saturates() {
    assert_eq!(saturating_pow2(0), 1);
    assert_eq!(saturating_pow2(10), 1024);
    assert_eq!(saturating_pow2(64), u64::MAX);
    let mut backoff = BackoffStrategy::new(u64::MAX / 2, u64::MAX);
    assert_eq!(backoff.next_delay_ms(), u64::MAX - 1);
    assert_eq!(backoff.next_delay_ms(), u64::MAX);
    for _ in 0..100 {
        backoff.advance_attempt();
    }
    assert_eq!(backoff.attempt, 63);
}

#[test]
fn test_state_codes() {
    assert_eq!(state_code(EndpointState::Healthy), 0);
    assert_eq!(state_code(EndpointState::Degraded), 1);
    assert_eq!(state_code(EndpointState::CoolingDown), 2);
    assert_eq!(state_code(EndpointState::HalfOpen), 3);
}

#[test]
fn test_endpoint_records_window() {
    let settings = BreakerSettings::new(3, 60, 10);
    let mut health = settings.new_endpoint();
    assert_eq!(health.state, EndpointState::Healthy);
    assert_eq!(health.backoff_strategy.base_delay_ms, 60_000);
    assert_eq!(health.backoff_strategy.max_delay_ms, 32 * 60_000);
    health.record_failure(5);
    health.record_failure(6);
    assert_eq!(health.consecutive_failures, 2);
    assert_eq!(health.last_failure_ms, Some(6));
    health.record_success();
    assert_eq!(health.consecutive_failures, 0);
    assert_eq!(health.total_attempts, 3);
    assert_eq!(health.successful_attempts, 1);
    for _ in 0..150 {
        health.record_success();
    }
    assert_eq!(health.total_attempts, 100);
    assert_eq!(health.successful_attempts, 100);
}

#[test]
fn test_healthy_to_degraded_to_cooling_down() {
    let mut health = EndpointHealth::new(1000, 32_000);
    for t in 0..3 {
        health.record_failure(t);
    }
    assert_eq!(decide_transition(&health, 3, 10, 3, no_signals()), Some(EndpointState::Degraded));
    health.apply_transition(EndpointState::Degraded, 3, 10);
    assert_eq!(decide_transition(&health, 3, 10, 3, no_signals()), None);
    for t in 0..3 {
        health.record_failure(20 + t);
    }
    assert_eq!(decide_transition(&health, 3, 10, 3, no_signals()), Some(EndpointState::CoolingDown));
    health.apply_transition(EndpointState::CoolingDown, 3, 100);
    assert_eq!(health.cooldown_start_ms, Some(100));
    assert_eq!(health.backoff_strategy.attempt, 1);

    // cooling down: unavailable until the backoff delay has passed, then half-open
    assert_eq!(availability(&health, 3, 1_000, 2_000), Availability::Unavailable);
    assert_eq!(availability(&health, 3, 2_100, 2_000), Availability::EnterHalfOpen);
    health.enter_half_open(2_100);
    assert_eq!(health.state, EndpointState::HalfOpen);
    assert_eq!(health.canary_progress(), Some((0, 0)));
    assert_eq!(availability(&health, 3, 2_200, 2_000), Availability::Available);
}

#[test]
fn test_half_open_canaries() {
    let mut health = EndpointHealth::new(1000, 32_000);
    health.enter_half_open(0);
    health.record_success();
    health.record_success();
    assert_eq!(decide_transition(&health, 3, 10, 3, no_signals()), None);
    health.record_failure(1);
    assert_eq!(health.canary_progress(), Some((2, 3)));
    assert_eq!(availability(&health, 3, 5, 0), Availability::Unavailable);
    let passed = HealthSignals { canary_passed: true, ..no_signals() };
    assert_eq!(decide_transition(&health, 3, 10, 3, passed), Some(EndpointState::Degraded));
    assert_eq!(decide_transition(&health, 3, 10, 3, no_signals()), Some(EndpointState::CoolingDown));
    health.apply_transition(EndpointState::Degraded, 3, 2);
    assert_eq!(health.consecutive_failures, 0);
    assert_eq!(health.canary_count, 0);
    assert_eq!(health.half_open_start_ms, None);
}

#[test]
fn test_degraded_recovers() {
    let mut health = EndpointHealth::new(1000, 32_000);
    health.apply_transition(EndpointState::Degraded, 5, 0);
    let recovered = HealthSignals { recovered: true, ..no_signals() };
    assert_eq!(decide_transition(&health, 5, 10, 3, recovered), Some(EndpointState::Healthy));
    let critical = HealthSignals { health_critical: true, ..no_signals() };
    assert_eq!(decide_transition(&health, 5, 10, 3, critical), Some(EndpointState::CoolingDown));
    health.reset(5);
    assert_eq!(health.state, EndpointState::Healthy);
    assert_eq!(health.total_attempts, 0);
}

#[test]
fn test_adaptive_thresholds() {
    assert_eq!(scaled_threshold(9, ErrorBand::VeryHigh), 3);
    assert_eq!(scaled_threshold(9, ErrorBand::High), 4);
    assert_eq!(scaled_threshold(9, ErrorBand::Moderate), 6);
    assert_eq!(scaled_threshold(9, ErrorBand::Low), 9);
    assert_eq!(scaled_threshold(2, ErrorBand::VeryHigh), 1);
    assert_eq!(effective_threshold(9, true, 5, ErrorBand::VeryHigh), 9);
    assert_eq!(effective_threshold(9, true, 10, ErrorBand::VeryHigh), 3);
    assert_eq!(effective_threshold(9, false, 50, ErrorBand::VeryHigh), 9);
}

#[test]
fn test_breaker_settings() {
    let settings = BreakerSettings::with_config(4, 30, 20, 5, false);
    assert_eq!(settings.canary_count, 5);
    assert_eq!(settings.max_backoff, 32);
    assert_eq!(settings.backoff_bounds_ms(), (30_000, 960_000));
}

#[test]
fn test_sanitize_metric_name() {
    assert_eq!(sanitize_metric_name("https://api.mainnet-beta.solana.com"), "https___api_mainnet_beta_solana_com");
    assert_eq!(sanitize_metric_name("rpc1"), "rpc1");
}

#[test]
fn test_failure_counter_only_rises() {
    assert_eq!(failure_counter_delta(5, 2), 3);
    assert_eq!(failure_counter_delta(2, 5), 0);
    assert_eq!(failure_counter_delta(4, 4), 0);
    assert_eq!(failure_counter_delta(u32::MAX, 0), u32::MAX as u64);
}

#[test]
fn test_shutdown_two_phases() {
    assert_eq!(phase_wait_ms(ShutdownPhase::Graceful), 5000);
    assert_eq!(phase_wait_ms(ShutdownPhase::Forced), 2000);
    assert_eq!(
        next_shutdown_step(ShutdownPhase::Graceful, JoinOutcome::Finished),
        ShutdownStep::Done(ShutdownOutcome::Success)
    );
    assert_eq!(
        next_shutdown_step(ShutdownPhase::Graceful, JoinOutcome::Panicked),
        ShutdownStep::Done(ShutdownOutcome::Panic)
    );
    assert_eq!(
        next_shutdown_step(ShutdownPhase::Graceful, JoinOutcome::Cancelled),
        ShutdownStep::Done(ShutdownOutcome::Panic)
    );
    assert_eq!(next_shutdown_step(ShutdownPhase::Graceful, JoinOutcome::TimedOut), ShutdownStep::AbortAndWait);
    assert_eq!(
        next_shutdown_step(ShutdownPhase::Forced, JoinOutcome::Finished),
        ShutdownStep::Done(ShutdownOutcome::Completed)
    );
    assert_eq!(
        next_shutdown_step(ShutdownPhase::Forced, JoinOutcome::Cancelled),
        ShutdownStep::Done(ShutdownOutcome::Cancelled)
    );
    assert_eq!(
        next_shutdown_step(ShutdownPhase::Forced, JoinOutcome::Failed),
        ShutdownStep::Done(ShutdownOutcome::Error)
    );
    assert_eq!(
        next_shutdown_step(ShutdownPhase::Forced, JoinOutcome::TimedOut),
        ShutdownStep::Done(ShutdownOutcome::AbortTimeout)
    );
    assert_eq!(outcome_label(ShutdownOutcome::AbortTimeout), "abort_timeout");
    assert_eq!(outcome_label(ShutdownOutcome::Success), "success");
}

#[test]
fn test_shutdown_is_bounded() {
    let outcomes = [JoinOutcome::Finished, JoinOutcome::Panicked, JoinOutcome::Cancelled, JoinOutcome::Failed, JoinOutcome::TimedOut];
    for first in outcomes {
        for second in outcomes {
            let mut waited = phase_wait_ms(ShutdownPhase::Graceful);
            let mut step = next_shutdown_step(ShutdownPhase::Graceful, first);
            if step == ShutdownStep::AbortAndWait {
                waited += phase_wait_ms(ShutdownPhase::Forced);
                step = next_shutdown_step(ShutdownPhase::Forced, second);
            }
            assert!(matches!(step, ShutdownStep::Done(_)));
            assert!(waited <= 7000);
        }
    }
}

#[test]
fn test_sanitized_names_collide() {
    assert_eq!(sanitize_metric_name("a-b"), "a_b");
    assert_eq!(sanitize_metric_name("a.b"), "a_b");
}
