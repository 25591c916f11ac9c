//! Early pump detection: the BUY/PASS decision over the results of the individual checks, the
//! timing record of an analysis, and the counters of the analysis cache.
use vstd::prelude::*;
use crate::text::{decimal_string, spec_decimal};

verus! {

/// Decision from early pump detector.
#[derive(Debug, Clone)]
pub enum PumpDecision {
    /// BUY signal with score
    Buy { score: u8, reason: String },
    /// PASS signal with score
    Pass { score: u8, reason: String },
}

/// Individual check timings (milliseconds).
#[derive(Debug, Clone)]
pub struct CheckTimings {
    pub supply_concentration_ms: u64,
    pub lp_lock_ms: u64,
    pub wash_trading_ms: u64,
    pub smart_money_ms: u64,
    pub holder_growth_ms: u64,
}

impl Default for CheckTimings {
    fn default() -> (r: Self)
        ensures
            r.supply_concentration_ms == 0,
            r.lp_lock_ms == 0,
            r.wash_trading_ms == 0,
            r.smart_money_ms == 0,
            r.holder_growth_ms == 0,
    {
        CheckTimings { supply_concentration_ms: 0, lp_lock_ms: 0, wash_trading_ms: 0, smart_money_ms: 0, holder_growth_ms: 0 }
    }
}

/// Timing metrics for decision process.
#[derive(Debug, Clone)]
pub struct DecisionTimings {
    /// Time from token deploy to detection (in milliseconds)
    pub deploy_to_detection_ms: u64,
    /// Time from detection to decision (in milliseconds)
    pub detection_to_decision_ms: u64,
    /// Total time from deploy to decision (in milliseconds)
    pub total_decision_time_ms: u64,
    /// Individual check timings (in milliseconds)
    pub check_timings: CheckTimings,
}

/// Results from individual checks.
#[derive(Debug, Clone)]
pub struct CheckResults {
    /// Supply concentration score (0-100, higher = more concentrated)
    pub supply_concentration: u8,
    /// LP lock status score (0-100, higher = better lock)
    pub lp_lock: u8,
    /// LP lock details (from verifier)
    pub lp_lock_details: Option<String>,
    /// Wash trading risk score (0-100, higher = more risk)
    pub wash_trading_risk: u8,
    /// Smart money involvement score (0-100, higher = more smart money)
    pub smart_money: u8,
    /// Number of unique smart wallets detected
    pub smart_money_wallet_count: usize,
    /// Holder growth score (0-100, higher = better growth)
    pub holder_growth: u8,
}

impl Default for CheckResults {
    fn default() -> (r: Self)
        ensures
            r.supply_concentration == 0,
            r.lp_lock == 0,
            r.lp_lock_details is None,
            r.wash_trading_risk == 0,
            r.smart_money == 0,
            r.smart_money_wallet_count == 0,
            r.holder_growth == 0,
    {
        CheckResults {
            supply_concentration: 0,
            lp_lock: 0,
            lp_lock_details: None,
            wash_trading_risk: 0,
            smart_money: 0,
            smart_money_wallet_count: 0,
            holder_growth: 0,
        }
    }
}

/// Complete analysis result.
#[derive(Debug, Clone)]
pub struct EarlyPumpAnalysis {
    /// Token mint address
    pub mint: String,
    /// Deployment timestamp (unix seconds)
    pub deploy_timestamp: u64,
    /// Detection timestamp (unix seconds)
    pub detection_timestamp: u64,
    /// Decision timestamp (unix seconds)
    pub decision_timestamp: u64,
    /// Final decision
    pub decision: PumpDecision,
    /// Overall score (0-100)
    pub score: u8,
    /// Timing metrics
    pub timings: DecisionTimings,
    /// Individual check results
    pub check_results: CheckResults,
}

/// Configuration for early pump detector.
#[derive(Debug, Clone)]
pub struct EarlyPumpConfig {
    /// Detection timeout (default: 60 seconds)
    pub detection_timeout_secs: u64,
    /// Decision timeout (default: 60 seconds)
    pub decision_timeout_secs: u64,
    /// BUY threshold score (default: 70)
    pub buy_threshold: u8,
    /// PASS threshold score (default: 50)
    pub pass_threshold: u8,
    /// Enable parallel checks (default: true)
    pub parallel_checks: bool,
    /// RPC endpoints for load balancing
    pub rpc_endpoints: Vec<String>,
}

impl Default for EarlyPumpConfig {
    fn default() -> (r: Self)
        ensures
            r.detection_timeout_secs == 60,
            r.decision_timeout_secs == 60,
            r.buy_threshold == 70,
            r.pass_threshold == 50,
            r.parallel_checks,
            r.rpc_endpoints@.len() == 1,
            r.rpc_endpoints@[0]@ == "https://api.mainnet-beta.solana.com"@,
    {
        let mut rpc_endpoints: Vec<String> = Vec::new();
        rpc_endpoints.push(String::from_str("https://api.mainnet-beta.solana.com"));
        EarlyPumpConfig {
            detection_timeout_secs: 60,
            decision_timeout_secs: 60,
            buy_threshold: 70,
            pass_threshold: 50,
            parallel_checks: true,
            rpc_endpoints,
        }
    }
}

/// The individual checks of an analysis.
#[derive(Debug, Clone, Copy, PartialEq, Eq, Structural)]
pub enum CheckKind {
    SupplyConcentration,
    LpLock,
    WashTrading,
    SmartMoney,
    HolderGrowth,
}

/// The score a check falls back on when its analysis fails or is not available: a neutral
/// middle for the LP lock and holder growth, slightly cautious for supply concentration, a low
/// risk for wash trading, and a mild positive for smart money.
pub open spec fn spec_fallback_score(kind: CheckKind) -> u8 {
    match kind {
        CheckKind::SupplyConcentration => 45,
        CheckKind::LpLock => 50,
        CheckKind::WashTrading => 25,
        CheckKind::SmartMoney => 55,
        CheckKind::HolderGrowth => 50,
    }
}

/// The fallback score of a check.
pub fn fallback_score(kind: CheckKind) -> (r: u8)
    ensures
        r == spec_fallback_score(kind),
{
    match kind {
        CheckKind::SupplyConcentration => 45,
        CheckKind::LpLock => 50,
        CheckKind::WashTrading => 25,
        CheckKind::SmartMoney => 55,
        CheckKind::HolderGrowth => 50,
    }
}

/// Wash trading risk above which a token is passed whatever its score.
pub const WASH_TRADING_RED_FLAG: u8 = 80;
/// Supply concentration above which a token is passed whatever its score.
pub const CONCENTRATION_RED_FLAG: u8 = 85;

/// Which rule decided.
pub enum DecisionRule {
    HighWashTrading,
    ExtremeConcentration,
    SmartMoneyAlert,
    StrongFundamentals,
    GoodSignals,
    BelowPassThreshold,
    InsufficientSignals,
}

/// The rule that decides: red flags first, then the smart-money alert (two or more smart wallets
/// with a smart-money score of at least 60), then the buy threshold, then good smart-money and
/// holder-growth signals above the pass threshold; otherwise a pass.
pub open spec fn decision_rule(buy_threshold: u8, pass_threshold: u8, score: u8, r: CheckResults) -> DecisionRule {
    if r.wash_trading_risk > WASH_TRADING_RED_FLAG {
        DecisionRule::HighWashTrading
    } else if r.supply_concentration > CONCENTRATION_RED_FLAG {
        DecisionRule::ExtremeConcentration
    } else if r.smart_money_wallet_count >= 2 && r.smart_money >= 60 {
        DecisionRule::SmartMoneyAlert
    } else if score >= buy_threshold {
        DecisionRule::StrongFundamentals
    } else if score >= pass_threshold && r.smart_money >= 70 && r.holder_growth >= 60 {
        DecisionRule::GoodSignals
    } else if score < pass_threshold {
        DecisionRule::BelowPassThreshold
    } else {
        DecisionRule::InsufficientSignals
    }
}

/// Whether a rule buys.
pub open spec fn rule_buys(rule: DecisionRule) -> bool {
    match rule {
        DecisionRule::SmartMoneyAlert | DecisionRule::StrongFundamentals | DecisionRule::GoodSignals => true,
        _ => false,
    }
}

/// The reason text given for a decision.
pub open spec fn rule_reason(rule: DecisionRule, r: CheckResults) -> Seq<char> {
    match rule {
        DecisionRule::HighWashTrading => "High wash trading risk detected"@,
        DecisionRule::ExtremeConcentration => "Extreme supply concentration detected"@,
        DecisionRule::SmartMoneyAlert => "\u{1F6A8} SMART MONEY ALERT: "@ + spec_decimal(r.smart_money_wallet_count as nat)
            + " smart wallets detected! LP lock="@ + spec_decimal(r.lp_lock as nat) + ", score="@
            + spec_decimal(r.smart_money as nat),
        DecisionRule::StrongFundamentals => "Strong fundamentals: LP lock="@ + spec_decimal(r.lp_lock as nat)
            + ", smart money="@ + spec_decimal(r.smart_money as nat) + " ("@
            + spec_decimal(r.smart_money_wallet_count as nat) + " wallets), holder growth="@
            + spec_decimal(r.holder_growth as nat),
        DecisionRule::GoodSignals => "Good smart money ("@ + spec_decimal(r.smart_money_wallet_count as nat)
            + " wallets) and holder growth signals"@,
        DecisionRule::BelowPassThreshold => "Score below pass threshold"@,
        DecisionRule::InsufficientSignals => "Insufficient positive signals"@,
    }
}

/// The decision's score and reason match the rule that decided.
pub open spec fn decision_matches(d: PumpDecision, buy: bool, score: u8, reason: Seq<char>) -> bool {
    match d {
        PumpDecision::Buy { score: s, reason: t } => buy && s == score && t@ == reason,
        PumpDecision::Pass { score: s, reason: t } => !buy && s == score && t@ == reason,
    }
}

/// Make the BUY/PASS decision for a token from its overall score and its check results.
pub fn make_decision(config: &EarlyPumpConfig, score: u8, results: &CheckResults) -> (d: PumpDecision)
    ensures
        decision_matches(
            d,
            rule_buys(decision_rule(config.buy_threshold, config.pass_threshold, score, *results)),
            score,
            rule_reason(decision_rule(config.buy_threshold, config.pass_threshold, score, *results), *results),
        ),
{
    if results.wash_trading_risk > WASH_TRADING_RED_FLAG {
        return PumpDecision::Pass { score, reason: String::from_str("High wash trading risk detected") };
    }
    if results.supply_concentration > CONCENTRATION_RED_FLAG {
        return PumpDecision::Pass { score, reason: String::from_str("Extreme supply concentration detected") };
    }
    let wallets = decimal_string(results.smart_money_wallet_count as u64);
    let lp = decimal_string(results.lp_lock as u64);
    let smart = decimal_string(results.smart_money as u64);
    if results.smart_money_wallet_count >= 2 && results.smart_money >= 60 {
        let reason = String::from_str("\u{1F6A8} SMART MONEY ALERT: ")
            .concat(wallets.as_str())
            .concat(" smart wallets detected! LP lock=")
            .concat(lp.as_str())
            .concat(", score=")
            .concat(smart.as_str());
        return PumpDecision::Buy { score, reason };
    }
    if score >= config.buy_threshold {
        let growth = decimal_string(results.holder_growth as u64);
        let reason = String::from_str("Strong fundamentals: LP lock=")
            .concat(lp.as_str())
            .concat(", smart money=")
            .concat(smart.as_str())
            .concat(" (")
            .concat(wallets.as_str())
            .concat(" wallets), holder growth=")
            .concat(growth.as_str());
        return PumpDecision::Buy { score, reason };
    }
    if score >= config.pass_threshold {
        if results.smart_money >= 70 && results.holder_growth >= 60 {
            let reason = String::from_str("Good smart money (")
                .concat(wallets.as_str())
                .concat(" wallets) and holder growth signals");
            return PumpDecision::Buy { score, reason };
        }
    }
    if score < config.pass_threshold {
        PumpDecision::Pass { score, reason: String::from_str("Score below pass threshold") }
    } else {
        PumpDecision::Pass { score, reason: String::from_str("Insufficient positive signals") }
    }
}

/// Red flags override any score: heavy wash trading or extreme concentration always passes,
/// and a passing decision never comes from a buy rule.
pub proof fn lemma_red_flags_pass(buy_threshold: u8, pass_threshold: u8, score: u8, r: CheckResults)
    requires
        r.wash_trading_risk > WASH_TRADING_RED_FLAG || r.supply_concentration > CONCENTRATION_RED_FLAG,
    ensures
        !rule_buys(decision_rule(buy_threshold, pass_threshold, score, r)),
{
}

/// Without red flags, a score at or above the buy threshold always buys.
pub proof fn lemma_buy_threshold_buys(buy_threshold: u8, pass_threshold: u8, score: u8, r: CheckResults)
    requires
        r.wash_trading_risk <= WASH_TRADING_RED_FLAG,
        r.supply_concentration <= CONCENTRATION_RED_FLAG,
        score >= buy_threshold,
    ensures
        rule_buys(decision_rule(buy_threshold, pass_threshold, score, r)),
{
}

/// A score below the pass threshold buys only on the smart-money alert.
pub proof fn lemma_low_score_needs_smart_money(buy_threshold: u8, pass_threshold: u8, score: u8, r: CheckResults)
    requires
        score < pass_threshold,
        score < buy_threshold,
        rule_buys(decision_rule(buy_threshold, pass_threshold, score, r)),
    ensures
        r.smart_money_wallet_count >= 2 && r.smart_money >= 60,
{
}

/// Smart money overrides the score: without red flags (wash trading risk at most 80, supply
/// concentration at most 85), two or more smart wallets with a smart-money score of at least 60
/// always buy, whatever the overall score and thresholds, with the smart-money alert as reason;
/// with fewer than two such wallets or a lower smart-money score the alert never decides.
pub proof fn lemma_smart_money_alert_buys(buy_threshold: u8, pass_threshold: u8, score: u8, r: CheckResults)
    ensures
        r.wash_trading_risk <= 80 && r.supply_concentration <= 85 && r.smart_money_wallet_count >= 2 && r.smart_money >= 60 ==> {
            &&& decision_rule(buy_threshold, pass_threshold, score, r) == DecisionRule::SmartMoneyAlert
            &&& rule_buys(decision_rule(buy_threshold, pass_threshold, score, r))
        },
        (r.smart_money_wallet_count < 2 || r.smart_money < 60)
            ==> decision_rule(buy_threshold, pass_threshold, score, r) != DecisionRule::SmartMoneyAlert,
        r.wash_trading_risk > 80 || r.supply_concentration > 85
            ==> !rule_buys(decision_rule(buy_threshold, pass_threshold, score, r)),
{
}

/// Milliseconds from deployment to detection (both in unix seconds); zero when the detection
/// clock reads no later than the deployment.
pub fn deploy_to_detection_ms(deploy_timestamp: u64, detection_timestamp: u64) -> (r: u64)
    requires
        detection_timestamp > deploy_timestamp ==> (detection_timestamp - deploy_timestamp) * 1000 <= u64::MAX,
    ensures
        r == if detection_timestamp > deploy_timestamp { (detection_timestamp - deploy_timestamp) * 1000 } else { 0 },
{
    if detection_timestamp > deploy_timestamp {
        (detection_timestamp - deploy_timestamp) * 1000
    } else {
        0
    }
}

/// The timing record of an analysis from its three timestamps (unix seconds), the measured
/// total time and the individual check timings.
pub fn decision_timings(
    deploy_timestamp: u64,
    detection_timestamp: u64,
    decision_timestamp: u64,
    total_decision_time_ms: u64,
    check_timings: CheckTimings,
) -> (r: DecisionTimings)
    requires
        detection_timestamp > deploy_timestamp ==> (detection_timestamp - deploy_timestamp) * 1000 <= u64::MAX,
        detection_timestamp <= decision_timestamp,
        (decision_timestamp - detection_timestamp) * 1000 <= u64::MAX,
    ensures
        r.deploy_to_detection_ms == if detection_timestamp > deploy_timestamp { (detection_timestamp - deploy_timestamp) * 1000 } else { 0 },
        r.detection_to_decision_ms == (decision_timestamp - detection_timestamp) * 1000,
        r.total_decision_time_ms == total_decision_time_ms,
        r.check_timings == check_timings,
{
    DecisionTimings {
        deploy_to_detection_ms: deploy_to_detection_ms(deploy_timestamp, detection_timestamp),
        detection_to_decision_ms: (decision_timestamp - detection_timestamp) * 1000,
        total_decision_time_ms,
        check_timings,
    }
}

/// Hit, miss and update counts of the analysis cache.
pub struct CacheCounters {
    pub hits: u64,
    pub misses: u64,
    pub updates: u64,
    pub invalidations: u64,
    pub force_refreshes: u64,
}

impl CacheCounters {
    /// All counts at zero.
    pub fn new() -> (r: Self)
        ensures
            r.hits == 0 && r.misses == 0 && r.updates == 0 && r.invalidations == 0 && r.force_refreshes == 0,
    {
        CacheCounters { hits: 0, misses: 0, updates: 0, invalidations: 0, force_refreshes: 0 }
    }

    /// Count a lookup: a hit when something was found, a miss otherwise.
    pub fn record_lookup(&mut self, found: bool)
        requires
            old(self).hits < u64::MAX,
            old(self).misses < u64::MAX,
        ensures
            final(self).hits == old(self).hits + if found { 1int } else { 0int },
            final(self).misses == old(self).misses + if found { 0int } else { 1int },
            final(self).updates == old(self).updates,
            final(self).invalidations == old(self).invalidations,
            final(self).force_refreshes == old(self).force_refreshes,
    {
        if found {
            self.hits = self.hits + 1;
        } else {
            self.misses = self.misses + 1;
        }
    }

    /// Count a stored analysis.
    pub fn record_update(&mut self)
        requires
            old(self).updates < u64::MAX,
        ensures
            final(self).updates == old(self).updates + 1,
            final(self).hits == old(self).hits,
            final(self).misses == old(self).misses,
            final(self).invalidations == old(self).invalidations,
            final(self).force_refreshes == old(self).force_refreshes,
    {
        self.updates = self.updates + 1;
    }

    /// Count an invalidation triggered by new data.
    pub fn record_invalidation(&mut self)
        requires
            old(self).invalidations < u64::MAX,
        ensures
            final(self).invalidations == old(self).invalidations + 1,
            final(self).hits == old(self).hits,
            final(self).misses == old(self).misses,
            final(self).updates == old(self).updates,
            final(self).force_refreshes == old(self).force_refreshes,
    {
        self.invalidations = self.invalidations + 1;
    }

    /// Count a manual refresh.
    pub fn record_force_refresh(&mut self)
        requires
            old(self).force_refreshes < u64::MAX,
        ensures
            final(self).force_refreshes == old(self).force_refreshes + 1,
            final(self).hits == old(self).hits,
            final(self).misses == old(self).misses,
            final(self).updates == old(self).updates,
            final(self).invalidations == old(self).invalidations,
    {
        self.force_refreshes = self.force_refreshes + 1;
    }

    /// Number of lookups: hits plus misses.
    pub fn total_requests(&self) -> (r: u64)
        requires
            self.hits + self.misses <= u64::MAX,
        ensures
            r == self.hits + self.misses,
    {
        self.hits + self.misses
    }
}

} // verus!
