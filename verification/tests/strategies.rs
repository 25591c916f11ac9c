use h_5n1p3r::classification::{
    default_strategy_for_regime, format_regime, get_strategy, select_strategy_for_regime,
    should_use_ensemble, trade_tally, ArbiterBranch, MarketRegime, OracleStrategy, PatternType,
    PerformanceComparison, StrategySwitch,
};
use h_5n1p3r::scoring::{
    aggressive_base_score, apply_min_threshold, conservative_base_score, program_byte_hash,
    str_contains, CandidateTraits,
};

#[test]
fn test_pattern_type_equality() {
    assert_eq!(PatternType::PumpAndDump, PatternType::PumpAndDump);
    assert_ne!(PatternType::PumpAndDump, PatternType::WashTrading);
}

#[test]
fn test_strategy_names_and_regimes() {
    assert_eq!(OracleStrategy::Conservative.name(), "Conservative");
    assert_eq!(OracleStrategy::Ensemble.name(), "Ensemble");
    assert_eq!(format_regime(&MarketRegime::HighCongestion), "HighCongestion");
    assert_eq!(default_strategy_for_regime(MarketRegime::Bullish), OracleStrategy::Aggressive);
    assert_eq!(default_strategy_for_regime(MarketRegime::Choppy), OracleStrategy::Conservative);
}

#[test]
fn test_strategy_selection() {
    assert_eq!(select_strategy_for_regime(MarketRegime::Bearish, PerformanceComparison::AggressiveBetter), OracleStrategy::Aggressive);
    assert_eq!(select_strategy_for_regime(MarketRegime::Bullish, PerformanceComparison::ConservativeBetter), OracleStrategy::Conservative);
    assert_eq!(select_strategy_for_regime(MarketRegime::Bullish, PerformanceComparison::Similar), OracleStrategy::Aggressive);
    assert!(should_use_ensemble(MarketRegime::Choppy, false));
    assert!(!should_use_ensemble(MarketRegime::Bullish, false));
    assert!(should_use_ensemble(MarketRegime::Bullish, true));
}

#[test]
fn test_meta_arbiter_decisions() {
    let mut switch = StrategySwitch::new();
    let v = get_strategy(&switch, MarketRegime::Choppy, 1000, 300, false, PerformanceComparison::Insufficient);
    assert_eq!(v.selected_strategy, OracleStrategy::Ensemble);
    assert_eq!(v.branch, ArbiterBranch::Ensemble);
    assert_eq!(v.reason, "Using ensemble voting for Choppy regime");

    let v = get_strategy(&switch, MarketRegime::Bullish, 1000, 300, false, PerformanceComparison::Insufficient);
    assert_eq!(v.selected_strategy, OracleStrategy::Aggressive);
    assert_eq!(v.branch, ArbiterBranch::Switch);
    assert_eq!(v.reason, "Switching to Aggressive for Bullish regime");
    switch.update_strategy(v.selected_strategy, 1000);
    assert_eq!(switch.current_strategy, OracleStrategy::Aggressive);
    assert_eq!(switch.last_switch_timestamp, 1000);

    let v = get_strategy(&switch, MarketRegime::Bearish, 1100, 300, false, PerformanceComparison::Insufficient);
    assert_eq!(v.branch, ArbiterBranch::Cooldown);
    assert_eq!(v.reason, "Cooldown period active, keeping Aggressive");

    let v = get_strategy(&switch, MarketRegime::Bullish, 1400, 300, false, PerformanceComparison::Similar);
    assert_eq!(v.branch, ArbiterBranch::Continue);
    assert_eq!(v.reason, "Continuing with Aggressive for Bullish regime");

    switch.update_strategy(OracleStrategy::Ensemble, 2000);
    assert_eq!(switch.current_strategy, OracleStrategy::Aggressive);
    assert_eq!(switch.last_switch_timestamp, 1000);
    assert!(switch.cooldown_active(1299, 300));
    assert!(!switch.cooldown_active(1300, 300));
}

#[test]
fn test_trade_tally() {
    assert_eq!(trade_tally(&vec![true, false, true, true]), (4, 3));
    assert_eq!(trade_tally(&Vec::new()), (0, 0));
}

fn traits(jito: Option<bool>, program: &str, instr: Option<&str>) -> CandidateTraits {
    CandidateTraits {
        is_jito_bundle: jito,
        program: program.to_string(),
        instruction_summary: instr.map(|s| s.to_string()),
    }
}

#[test]
fn test_strategy_base_scores() {
    assert_eq!(conservative_base_score(&traits(Some(true), "pump.fun", Some("create token"))), 55);
    assert_eq!(conservative_base_score(&traits(None, "raydium-amm", None)), 40);
    assert_eq!(conservative_base_score(&traits(Some(false), "unknown", Some("swap"))), 30);
    assert_eq!(aggressive_base_score(&traits(Some(true), "pump.fun", Some("buy"))), 65);
    assert_eq!(aggressive_base_score(&traits(None, "meteora-dlmm", Some("initialize"))), 40);
    assert_eq!(aggressive_base_score(&traits(None, "unknown", None)), 25);
    assert_eq!(apply_min_threshold(40, 50), 0);
    assert_eq!(apply_min_threshold(60, 50), 60);
}

#[test]
fn test_substring_and_program_hash() {
    assert!(str_contains("the pump.fun program", "pump.fun"));
    assert!(!str_contains("pump", "pump.fun"));
    assert!(str_contains("anything", ""));
    assert_eq!(program_byte_hash("ab"), 97 + 98);
    assert_eq!(program_byte_hash(""), 0);
}
