use h_5n1p3r::early_pump::{
    decision_timings, deploy_to_detection_ms, fallback_score, make_decision, CacheCounters, CheckKind, CheckResults,
    CheckTimings, EarlyPumpConfig, PumpDecision,
};

fn results(supply: u8, lp: u8, wash: u8, smart: u8, wallets: usize, growth: u8) -> CheckResults {
    CheckResults {
        supply_concentration: supply,
        lp_lock: lp,
        lp_lock_details: Some("Locked".to_string()),
        wash_trading_risk: wash,
        smart_money: smart,
        smart_money_wallet_count: wallets,
        holder_growth: growth,
    }
}

#[test]
fn test_decision_logic() {
    let config = EarlyPumpConfig::default();

    // High score should result in BUY
    let good_results = results(20, 90, 10, 80, 3, 85);
    let decision = make_decision(&config, 75, &good_results);
    assert!(matches!(decision, PumpDecision::Buy { .. }));

    // High wash trading should override score
    let risky_results = results(30, 80, 85, 70, 2, 75);
    let decision = make_decision(&config, 70, &risky_results);
    assert!(matches!(decision, PumpDecision::Pass { .. }));

    // Low score should result in PASS
    let bad_results = results(80, 30, 70, 25, 0, 30);
    let decision = make_decision(&config, 35, &bad_results);
    assert!(matches!(decision, PumpDecision::Pass { .. }));
}

fn reason(d: &PumpDecision) -> (bool, u8, String) {
    match d {
        PumpDecision::Buy { score, reason } => (true, *score, reason.clone()),
        PumpDecision::Pass { score, reason } => (false, *score, reason.clone()),
    }
}

#[test]
fn test_decision_reasons() {
    let config = EarlyPumpConfig::default();
    assert_eq!(
        reason(&make_decision(&config, 40, &results(20, 90, 10, 80, 3, 85))),
        (true, 40, "\u{1F6A8} SMART MONEY ALERT: 3 smart wallets detected! LP lock=90, score=80".to_string())
    );
    assert_eq!(
        reason(&make_decision(&config, 72, &results(20, 90, 10, 50, 1, 85))),
        (true, 72, "Strong fundamentals: LP lock=90, smart money=50 (1 wallets), holder growth=85".to_string())
    );
    assert_eq!(
        reason(&make_decision(&config, 55, &results(20, 40, 10, 70, 1, 60))),
        (true, 55, "Good smart money (1 wallets) and holder growth signals".to_string())
    );
    assert_eq!(
        reason(&make_decision(&config, 55, &results(20, 40, 10, 69, 1, 60))),
        (false, 55, "Insufficient positive signals".to_string())
    );
    assert_eq!(
        reason(&make_decision(&config, 10, &results(20, 40, 10, 69, 1, 60))),
        (false, 10, "Score below pass threshold".to_string())
    );
    assert_eq!(
        reason(&make_decision(&config, 90, &results(86, 90, 10, 90, 5, 90))),
        (false, 90, "Extreme supply concentration detected".to_string())
    );
    assert_eq!(
        reason(&make_decision(&config, 90, &results(90, 90, 81, 90, 5, 90))),
        (false, 90, "High wash trading risk detected".to_string())
    );
}

#[test]
fn test_early_pump_config_default() {
    let config = EarlyPumpConfig::default();
    assert_eq!(config.detection_timeout_secs, 60);
    assert_eq!(config.decision_timeout_secs, 60);
    assert_eq!(config.buy_threshold, 70);
    assert_eq!(config.pass_threshold, 50);
    assert!(config.parallel_checks);
    assert_eq!(config.rpc_endpoints, vec!["https://api.mainnet-beta.solana.com".to_string()]);
    let defaults = CheckResults::default();
    assert_eq!(defaults.lp_lock, 0);
    assert_eq!(defaults.lp_lock_details, None);
}

#[test]
fn test_timings() {
    assert_eq!(deploy_to_detection_ms(1000, 1030), 30_000);
    assert_eq!(deploy_to_detection_ms(1030, 1000), 0);
    let timings = decision_timings(1000, 1030, 1032, 1500, CheckTimings::default());
    assert_eq!(timings.deploy_to_detection_ms, 30_000);
    assert_eq!(timings.detection_to_decision_ms, 2_000);
    assert_eq!(timings.total_decision_time_ms, 1500);
    assert_eq!(timings.check_timings.lp_lock_ms, 0);
}

#[test]
fn test_cache_counters() {
    let mut counters = CacheCounters::new();
    counters.record_lookup(true);
    counters.record_lookup(false);
    counters.record_lookup(false);
    counters.record_update();
    counters.record_invalidation();
    counters.record_force_refresh();
    assert_eq!(counters.hits, 1);
    assert_eq!(counters.misses, 2);
    assert_eq!(counters.updates, 1);
    assert_eq!(counters.invalidations, 1);
    assert_eq!(counters.force_refreshes, 1);
    assert_eq!(counters.total_requests(), 3);
}

#[test]
fn test_fallback_scores() {
    assert_eq!(fallback_score(CheckKind::SupplyConcentration), 45);
    assert_eq!(fallback_score(CheckKind::LpLock), 50);
    assert_eq!(fallback_score(CheckKind::WashTrading), 25);
    assert_eq!(fallback_score(CheckKind::SmartMoney), 55);
    assert_eq!(fallback_score(CheckKind::HolderGrowth), 50);
}
