use vstd::prelude::*;

verus! {

/// Classification of a token based on bot/organic analysis.
#[derive(Debug, Clone, Copy, PartialEq, Eq, Structural)]
pub enum TokenClassification {
    /// Organic trading dominates (>30% organic)
    Organic,
    /// Mixed activity (30%-70% organic)
    Mixed,
    /// Bot-dominated (<30% organic, but <85% bots)
    BotDominated,
    /// Heavily manipulated (>85% bots)
    HighlyManipulated,
    /// Bundle-coordinated pump detected
    BundleCoordinated,
}

/// Whether a classification triggers avoidance.
pub open spec fn spec_should_avoid(c: TokenClassification) -> bool {
    c == TokenClassification::HighlyManipulated || c == TokenClassification::BundleCoordinated
}

/// Human-readable description of a classification.
pub open spec fn spec_description(c: TokenClassification) -> Seq<char> {
    match c {
        TokenClassification::Organic => "Healthy organic trading activity"@,
        TokenClassification::Mixed => "Mixed organic and automated trading"@,
        TokenClassification::BotDominated => "Bot-dominated but not critically manipulated"@,
        TokenClassification::HighlyManipulated => "Highly manipulated, avoid"@,
        TokenClassification::BundleCoordinated => "Coordinated bundle pump detected"@,
    }
}

impl TokenClassification {
    /// Get a human-readable description.
    pub fn description(&self) -> (r: &'static str)
        ensures
            r@ == spec_description(*self),
    {
        match self {
            TokenClassification::Organic => "Healthy organic trading activity",
            TokenClassification::Mixed => "Mixed organic and automated trading",
            TokenClassification::BotDominated => "Bot-dominated but not critically manipulated",
            TokenClassification::HighlyManipulated => "Highly manipulated, avoid",
            TokenClassification::BundleCoordinated => "Coordinated bundle pump detected",
        }
    }

    /// Whether this classification should trigger avoidance.
    pub fn should_avoid(&self) -> (r: bool)
        ensures
            r == spec_should_avoid(*self),
    {
        match self {
            TokenClassification::HighlyManipulated => true,
            TokenClassification::BundleCoordinated => true,
            _ => false,
        }
    }
}

/// Detected on-chain pattern type.
#[derive(Debug, Clone, Copy, PartialEq, Eq, Structural)]
pub enum PatternType {
    /// Pump and dump scheme
    PumpAndDump,
    /// Wash trading
    WashTrading,
    /// Coordinated buying
    CoordinatedBuying,
    /// Sybil cluster
    SybilCluster,
    /// Normal trading
    Normal,
}

/// Oracle strategy types.
#[derive(Debug, Clone, Copy, PartialEq, Eq, Hash, Structural)]
pub enum OracleStrategy {
    /// Conservative strategy - risk-averse with strict thresholds
    Conservative,
    /// Aggressive strategy - opportunity-seeking with looser thresholds
    Aggressive,
    /// Ensemble voting - aggregate multiple strategies
    Ensemble,
}

/// Display name of a strategy.
pub open spec fn spec_strategy_name(s: OracleStrategy) -> Seq<char> {
    match s {
        OracleStrategy::Conservative => "Conservative"@,
        OracleStrategy::Aggressive => "Aggressive"@,
        OracleStrategy::Ensemble => "Ensemble"@,
    }
}

impl OracleStrategy {
    /// Display name of the strategy.
    pub fn name(&self) -> (r: &'static str)
        ensures
            r@ == spec_strategy_name(*self),
    {
        match self {
            OracleStrategy::Conservative => "Conservative",
            OracleStrategy::Aggressive => "Aggressive",
            OracleStrategy::Ensemble => "Ensemble",
        }
    }
}

/// Market regime as detected from macro data.
#[derive(Debug, Clone, Copy, PartialEq, Eq, Hash, Structural)]
pub enum MarketRegime {
    /// Rising market
    Bullish,
    /// Falling market
    Bearish,
    /// Sideways, noisy market
    Choppy,
    /// Congested network, high fees
    HighCongestion,
    /// Low activity
    LowActivity,
}

/// Display name of a market regime.
pub open spec fn spec_regime_name(r: MarketRegime) -> Seq<char> {
    match r {
        MarketRegime::Bullish => "Bullish"@,
        MarketRegime::Bearish => "Bearish"@,
        MarketRegime::Choppy => "Choppy"@,
        MarketRegime::HighCongestion => "HighCongestion"@,
        MarketRegime::LowActivity => "LowActivity"@,
    }
}

/// Display name of a market regime.
pub fn format_regime(regime: &MarketRegime) -> (r: &'static str)
    ensures
        r@ == spec_regime_name(*regime),
{
    match regime {
        MarketRegime::Bullish => "Bullish",
        MarketRegime::Bearish => "Bearish",
        MarketRegime::Choppy => "Choppy",
        MarketRegime::HighCongestion => "HighCongestion",
        MarketRegime::LowActivity => "LowActivity",
    }
}

/// Strategy chosen for a regime when no performance data overrides it.
pub open spec fn spec_default_strategy(r: MarketRegime) -> OracleStrategy {
    match r {
        MarketRegime::Bullish => OracleStrategy::Aggressive,
        _ => OracleStrategy::Conservative,
    }
}

/// Strategy chosen for a regime when no performance data overrides it.
pub fn default_strategy_for_regime(regime: MarketRegime) -> (r: OracleStrategy)
    ensures
        r == spec_default_strategy(regime),
{
    match regime {
        MarketRegime::Bullish => OracleStrategy::Aggressive,
        MarketRegime::Bearish => OracleStrategy::Conservative,
        MarketRegime::Choppy => OracleStrategy::Conservative,
        MarketRegime::HighCongestion => OracleStrategy::Conservative,
        MarketRegime::LowActivity => OracleStrategy::Conservative,
    }
}

/// The strategy-switching state of the meta arbiter.
#[derive(Debug, Clone, Copy, PartialEq, Eq, Structural)]
pub struct StrategySwitch {
    /// Currently selected strategy
    pub current_strategy: OracleStrategy,
    /// Timestamp (unix seconds) of the last strategy switch
    pub last_switch_timestamp: u64,
}

impl StrategySwitch {
    /// Start conservative, with no switch yet.
    pub fn new() -> (r: Self)
        ensures
            r.current_strategy == OracleStrategy::Conservative,
            r.last_switch_timestamp == 0,
    {
        StrategySwitch { current_strategy: OracleStrategy::Conservative, last_switch_timestamp: 0 }
    }

    /// Whether the switch cooldown is still running at `timestamp`.
    pub fn cooldown_active(&self, timestamp: u64, cooldown_secs: u64) -> (r: bool)
        requires
            timestamp >= self.last_switch_timestamp,
        ensures
            r == (timestamp - self.last_switch_timestamp < cooldown_secs),
    {
        timestamp - self.last_switch_timestamp < cooldown_secs
    }

    /// Adopt a decided strategy: a different single strategy is switched to and the switch time
    /// recorded; the ensemble or the current strategy leaves the state unchanged.
    pub fn update_strategy(&mut self, selected: OracleStrategy, timestamp: u64)
        ensures
            *final(self) == spec_update_strategy(*old(self), selected, timestamp),
    {
        if selected != self.current_strategy && selected != OracleStrategy::Ensemble {
            self.current_strategy = selected;
            self.last_switch_timestamp = timestamp;
        }
    }
}

/// The switching state after adopting a decided strategy at `timestamp`.
pub open spec fn spec_update_strategy(s: StrategySwitch, selected: OracleStrategy, timestamp: u64) -> StrategySwitch {
    if selected != s.current_strategy && selected != OracleStrategy::Ensemble {
        StrategySwitch { current_strategy: selected, last_switch_timestamp: timestamp }
    } else {
        s
    }
}

/// The arbiter never records the ensemble as its current single strategy.
pub proof fn lemma_switch_never_to_ensemble(before: StrategySwitch, selected: OracleStrategy, timestamp: u64)
    requires
        before.current_strategy != OracleStrategy::Ensemble,
    ensures
        spec_update_strategy(before, selected, timestamp).current_strategy != OracleStrategy::Ensemble,
{
}

/// Adopting the strategy that is already current changes nothing.
pub proof fn lemma_update_same_is_noop(before: StrategySwitch, timestamp: u64)
    ensures
        spec_update_strategy(before, before.current_strategy, timestamp) == before,
{
}

/// Risk-off by default: a bullish market defaults to the aggressive strategy and every other
/// regime to the conservative one.
pub proof fn lemma_default_is_risk_off(regime: MarketRegime)
    ensures
        regime != MarketRegime::Bullish ==> spec_default_strategy(regime) == OracleStrategy::Conservative,
        regime == MarketRegime::Bullish ==> spec_default_strategy(regime) == OracleStrategy::Aggressive,
        spec_default_strategy(regime) != OracleStrategy::Ensemble,
{
}

/// How the performance of the two single strategies in a regime compares.
#[derive(Debug, Clone, Copy, PartialEq, Eq, Structural)]
pub enum PerformanceComparison {
    /// Too few trades of one of them
    Insufficient,
    /// Aggressive scores more than 20% above conservative
    AggressiveBetter,
    /// Conservative scores more than 20% above aggressive
    ConservativeBetter,
    /// Neither is clearly better
    Similar,
}

/// The strategy for a regime: the clearly better-performing one, else the regime's default.
pub open spec fn spec_select_strategy(regime: MarketRegime, comparison: PerformanceComparison) -> OracleStrategy {
    match comparison {
        PerformanceComparison::AggressiveBetter => OracleStrategy::Aggressive,
        PerformanceComparison::ConservativeBetter => OracleStrategy::Conservative,
        _ => spec_default_strategy(regime),
    }
}

/// Select the best strategy for a market regime.
pub fn select_strategy_for_regime(regime: MarketRegime, comparison: PerformanceComparison) -> (r: OracleStrategy)
    ensures
        r == spec_select_strategy(regime, comparison),
{
    match comparison {
        PerformanceComparison::AggressiveBetter => OracleStrategy::Aggressive,
        PerformanceComparison::ConservativeBetter => OracleStrategy::Conservative,
        _ => default_strategy_for_regime(regime),
    }
}

/// Without performance data that overrides it (too few trades, or neither strategy clearly
/// better), every regime other than bullish selects the conservative strategy and a bullish one
/// the aggressive; a strategy clearly better than the other is selected in any regime.
pub proof fn lemma_selection_by_regime(regime: MarketRegime, comparison: PerformanceComparison)
    ensures
        (comparison == PerformanceComparison::Insufficient || comparison == PerformanceComparison::Similar) ==> {
            &&& regime != MarketRegime::Bullish ==> spec_select_strategy(regime, comparison) == OracleStrategy::Conservative
            &&& regime == MarketRegime::Bullish ==> spec_select_strategy(regime, comparison) == OracleStrategy::Aggressive
        },
        comparison == PerformanceComparison::AggressiveBetter ==> spec_select_strategy(regime, comparison) == OracleStrategy::Aggressive,
        comparison == PerformanceComparison::ConservativeBetter ==> spec_select_strategy(regime, comparison) == OracleStrategy::Conservative,
{
}

/// Whether to vote with the ensemble: always in a choppy market, otherwise when both strategies
/// have enough trades and perform within 20% of each other.
pub fn should_use_ensemble(regime: MarketRegime, performance_close: bool) -> (r: bool)
    ensures
        r == (regime == MarketRegime::Choppy || performance_close),
{
    match regime {
        MarketRegime::Choppy => true,
        _ => performance_close,
    }
}

/// Which branch of the arbiter decided.
#[derive(Debug, Clone, Copy, PartialEq, Eq, Structural)]
pub enum ArbiterBranch {
    Ensemble,
    Cooldown,
    Continue,
    Switch,
}

/// The arbiter's recommendation.
pub struct ArbiterVerdict {
    pub selected_strategy: OracleStrategy,
    pub branch: ArbiterBranch,
    pub reason: String,
}

/// The arbiter's branch: the ensemble when preferred, the current strategy while the switch
/// cooldown runs, otherwise the strategy selected for the regime (a continuation when it is the
/// current one, a switch otherwise).
pub open spec fn spec_arbiter_branch(
    use_ensemble: bool,
    current: OracleStrategy,
    cooldown_active: bool,
    selected: OracleStrategy,
) -> (OracleStrategy, ArbiterBranch) {
    if use_ensemble {
        (OracleStrategy::Ensemble, ArbiterBranch::Ensemble)
    } else if cooldown_active {
        (current, ArbiterBranch::Cooldown)
    } else if selected == current {
        (selected, ArbiterBranch::Continue)
    } else {
        (selected, ArbiterBranch::Switch)
    }
}

/// The reason text of an arbiter decision.
pub open spec fn spec_arbiter_reason(branch: ArbiterBranch, strategy: OracleStrategy, regime: MarketRegime) -> Seq<char> {
    match branch {
        ArbiterBranch::Ensemble => "Using ensemble voting for "@ + spec_regime_name(regime) + " regime"@,
        ArbiterBranch::Cooldown => "Cooldown period active, keeping "@ + spec_strategy_name(strategy),
        ArbiterBranch::Continue => "Continuing with "@ + spec_strategy_name(strategy) + " for "@
            + spec_regime_name(regime) + " regime"@,
        ArbiterBranch::Switch => "Switching to "@ + spec_strategy_name(strategy) + " for "@
            + spec_regime_name(regime) + " regime"@,
    }
}

/// Recommend a strategy at `timestamp` for `regime`, given the switching state, whether the two
/// strategies perform within 20% of each other, and how their performance compares.
pub fn get_strategy(
    switch: &StrategySwitch,
    regime: MarketRegime,
    timestamp: u64,
    cooldown_secs: u64,
    performance_close: bool,
    comparison: PerformanceComparison,
) -> (r: ArbiterVerdict)
    requires
        timestamp >= switch.last_switch_timestamp,
    ensures
        ({
            let (strategy, branch) = spec_arbiter_branch(
                regime == MarketRegime::Choppy || performance_close,
                switch.current_strategy,
                timestamp - switch.last_switch_timestamp < cooldown_secs,
                spec_select_strategy(regime, comparison),
            );
            &&& r.selected_strategy == strategy
            &&& r.branch == branch
            &&& r.reason@ == spec_arbiter_reason(branch, strategy, regime)
        }),
{
    if should_use_ensemble(regime, performance_close) {
        let reason = String::from_str("Using ensemble voting for ")
            .concat(format_regime(&regime))
            .concat(" regime");
        return ArbiterVerdict { selected_strategy: OracleStrategy::Ensemble, branch: ArbiterBranch::Ensemble, reason };
    }
    if switch.cooldown_active(timestamp, cooldown_secs) {
        let current = switch.current_strategy;
        let reason = String::from_str("Cooldown period active, keeping ").concat(current.name());
        return ArbiterVerdict { selected_strategy: current, branch: ArbiterBranch::Cooldown, reason };
    }
    let selected = select_strategy_for_regime(regime, comparison);
    if selected == switch.current_strategy {
        let reason = String::from_str("Continuing with ")
            .concat(selected.name())
            .concat(" for ")
            .concat(format_regime(&regime))
            .concat(" regime");
        ArbiterVerdict { selected_strategy: selected, branch: ArbiterBranch::Continue, reason }
    } else {
        let reason = String::from_str("Switching to ")
            .concat(selected.name())
            .concat(" for ")
            .concat(format_regime(&regime))
            .concat(" regime");
        ArbiterVerdict { selected_strategy: selected, branch: ArbiterBranch::Switch, reason }
    }
}

/// A choppy market always goes to the ensemble, and outside the ensemble no strategy switch
/// happens while the cooldown runs.
pub proof fn lemma_arbiter_choppy_and_cooldown(current: OracleStrategy, selected: OracleStrategy, cooldown_active: bool, use_ensemble: bool)
    ensures
        spec_arbiter_branch(true, current, cooldown_active, selected).0 == OracleStrategy::Ensemble,
        !use_ensemble && cooldown_active ==> spec_arbiter_branch(use_ensemble, current, cooldown_active, selected).0 == current,
{
}

/// Number of successful trades among the first `n` outcomes.
pub open spec fn win_count(outcomes: Seq<bool>, n: int) -> int
    decreases n,
{
    if n <= 0 { 0 } else { win_count(outcomes, n - 1) + if outcomes[n - 1] { 1int } else { 0int } }
}

/// Trade count and wins over a strategy's recent outcomes.
pub fn trade_tally(outcomes: &Vec<bool>) -> (r: (usize, usize))
    ensures
        r.0 == outcomes@.len(),
        r.1 == win_count(outcomes@, outcomes@.len() as int),
        r.1 <= r.0,
{
    let mut wins: usize = 0;
    let mut i: usize = 0;
    while i < outcomes.len()
        invariant
            i <= outcomes@.len(),
            wins == win_count(outcomes@, i as int),
            wins <= i,
        decreases outcomes@.len() - i,
    {
        if outcomes[i] {
            wins = wins + 1;
        }
        i = i + 1;
    }
    (outcomes.len(), wins)
}

} // verus!
