use h_5n1p3r::trending::{
    classify_rank_change, exited_tokens, is_high_velocity, next_position_timing, rank_trending_pairs,
    retry_delay_ms, should_poll, trending_duration_secs, velocity_span, BoundedHistory,
    DexScreenerConfig, FailureCounter, PositionTiming, RankEvent,
};

#[test]
fn test_config_defaults() {
    let config = DexScreenerConfig::default();
    assert_eq!(config.polling_interval_secs, 3);
    assert!(config.enable_tracking);
    assert_eq!(config.min_trending_rank, 100);
}

#[test]
fn test_config_defaults_full() {
    let config = DexScreenerConfig::default();
    assert_eq!(config.api_key, None);
    assert_eq!(config.base_url, "https://api.dexscreener.com/latest");
    assert_eq!(config.cache_duration_secs, 2);
    assert_eq!(config.api_timeout_secs, 2);
    assert_eq!(config.velocity_window_secs, 300);
    assert_eq!(config.max_history_size, 100);
    assert_eq!(config.rate_limit_per_minute, 20);
    assert!(config.enable_circuit_breaker);
    assert_eq!(config.circuit_breaker_failure_threshold, 5);
    assert_eq!(config.circuit_breaker_cooldown_secs, 60);
    assert_eq!(config.max_retries, 3);
    assert!(config.fallback_to_stale_cache);
    assert_eq!(config.max_stale_cache_age_secs, 60);
}

#[test]
fn test_trending_history() {
    let mut history = BoundedHistory::new(100);

    let position = PositionTiming { rank: 10, previous_rank: None, entry_timestamp: 1000, timestamp: 1000 };

    history.add(position);
    assert_eq!(history.len(), 1);
}

#[test]
fn test_bounded_history_drops_oldest() {
    let mut history = BoundedHistory::new(3);
    for i in 0..5u32 {
        history.add(i);
    }
    assert_eq!(history.len(), 3);
    let mut empty = BoundedHistory::new(0);
    empty.add(1u8);
    assert_eq!(empty.len(), 0);
}

#[test]
fn test_rank_assignment() {
    let is_solana = vec![true, false, true, true, false, true];
    assert_eq!(rank_trending_pairs(&is_solana, 100), vec![(0, 1), (2, 2), (3, 3), (5, 4)]);
    assert_eq!(rank_trending_pairs(&is_solana, 2), vec![(0, 1), (2, 2)]);
    assert!(rank_trending_pairs(&vec![false, false], 100).is_empty());
}

#[test]
fn test_rank_change_events() {
    assert_eq!(classify_rank_change(None, 7, 0), Some(RankEvent::Entry { rank: 7 }));
    assert_eq!(classify_rank_change(Some(20), 10, 3), Some(RankEvent::RankUp { old_rank: 20, new_rank: 10 }));
    assert_eq!(classify_rank_change(Some(10), 15, 3), Some(RankEvent::RankDown { old_rank: 10, new_rank: 15 }));
    // four places in 60 seconds is four per minute: high momentum
    assert_eq!(classify_rank_change(Some(10), 6, 60), Some(RankEvent::HighMomentum));
    // four places in 120 seconds is exactly two per minute: nothing
    assert_eq!(classify_rank_change(Some(10), 6, 120), None);
    assert_eq!(classify_rank_change(Some(10), 10, 1), None);
    assert_eq!(classify_rank_change(Some(10), 9, 0), None);
    assert!(is_high_velocity(-3, 60));
    assert!(!is_high_velocity(5, 0));
}

#[test]
fn test_position_timing() {
    let first = next_position_timing(None, 5, 1000);
    assert_eq!(first, PositionTiming { rank: 5, previous_rank: None, entry_timestamp: 1000, timestamp: 1000 });
    let second = next_position_timing(Some(first), 3, 1004);
    assert_eq!(second, PositionTiming { rank: 3, previous_rank: Some(5), entry_timestamp: 1000, timestamp: 1004 });
    assert_eq!(trending_duration_secs(1004, 1000), 4);
    assert_eq!(trending_duration_secs(900, 1000), 0);
}

#[test]
fn test_exit_detection() {
    let previous = vec![("tokA".to_string(), 1), ("tokB".to_string(), 2), ("tokC".to_string(), 3)];
    let current = vec!["tokB".to_string()];
    assert_eq!(exited_tokens(&previous, &current), vec![("tokA".to_string(), 1), ("tokC".to_string(), 3)]);
    assert!(exited_tokens(&previous, &vec!["tokA".to_string(), "tokB".to_string(), "tokC".to_string()]).is_empty());
}

#[test]
fn test_poll_schedule_and_retries() {
    assert!(should_poll(None, 0, 3));
    assert!(!should_poll(Some(1000), 4000, 3));
    assert!(should_poll(Some(1000), 4001, 3));
    assert!(!should_poll(Some(5000), 4000, 3));
    assert_eq!(retry_delay_ms(1), 200);
    assert_eq!(retry_delay_ms(2), 400);
    let mut failures = FailureCounter::new();
    assert_eq!(failures.record_failure(), 1);
    assert_eq!(failures.record_failure(), 2);
    failures.record_success();
    assert_eq!(failures.consecutive_failures, 0);
}

#[test]
fn test_velocity_window() {
    let positions = vec![(100u64, 50u32), (200, 40), (400, 30), (430, 25)];
    assert_eq!(velocity_span(&positions, 300), Some((15, 230)));
    assert_eq!(velocity_span(&positions, 10), None);
    assert_eq!(velocity_span(&vec![(5, 1)], 300), None);
    assert_eq!(velocity_span(&positions, 1000), Some((25, 330)));
}
