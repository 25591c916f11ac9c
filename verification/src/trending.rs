//! Trending-list tracking: configuration, rank assignment, rank-change events, exits, bounded
//! histories and the polling and retry schedule.
use vstd::prelude::*;
use vstd::arithmetic::power2::pow2;
use crate::backoff::{sat_pow2, saturating_pow2};
use crate::bundles::{contains_string, string_views};
use std::collections::VecDeque;

verus! {

/// Configuration for DEX Screener trending tracking.
#[derive(Debug, Clone)]
pub struct DexScreenerConfig {
    /// DEX Screener API key (optional, for higher rate limits)
    pub api_key: Option<String>,
    /// Base URL for DEX Screener API
    pub base_url: String,
    /// Polling interval for trending data (seconds)
    pub polling_interval_secs: u64,
    /// Cache duration for trending data (seconds)
    pub cache_duration_secs: u64,
    /// API request timeout (seconds)
    pub api_timeout_secs: u64,
    /// Minimum trending rank to trigger events (1-100)
    pub min_trending_rank: u32,
    /// Time window for velocity calculation (seconds)
    pub velocity_window_secs: u64,
    /// Enable trending tracking
    pub enable_tracking: bool,
    /// Maximum history size per token (positions + events)
    pub max_history_size: usize,
    /// Rate limit: requests per minute
    pub rate_limit_per_minute: u32,
    /// Enable circuit breaker for API failures
    pub enable_circuit_breaker: bool,
    /// Circuit breaker failure threshold
    pub circuit_breaker_failure_threshold: u32,
    /// Circuit breaker cooldown duration (seconds)
    pub circuit_breaker_cooldown_secs: u64,
    /// Maximum retries on API failure
    pub max_retries: u32,
    /// Use stale cache data on API failure
    pub fallback_to_stale_cache: bool,
    /// Maximum age of stale cache data to use (seconds)
    pub max_stale_cache_age_secs: u64,
}

impl Default for DexScreenerConfig {
    fn default() -> (r: Self)
        ensures
            r.api_key is None,
            r.base_url@ == "https://api.dexscreener.com/latest"@,
            r.polling_interval_secs == 3,
            r.cache_duration_secs == 2,
            r.api_timeout_secs == 2,
            r.min_trending_rank == 100,
            r.velocity_window_secs == 300,
            r.enable_tracking,
            r.max_history_size == 100,
            r.rate_limit_per_minute == 20,
            r.enable_circuit_breaker,
            r.circuit_breaker_failure_threshold == 5,
            r.circuit_breaker_cooldown_secs == 60,
            r.max_retries == 3,
            r.fallback_to_stale_cache,
            r.max_stale_cache_age_secs == 60,
    {
        DexScreenerConfig {
            api_key: None,
            base_url: String::from_str("https://api.dexscreener.com/latest"),
            polling_interval_secs: 3,
            cache_duration_secs: 2,
            api_timeout_secs: 2,
            min_trending_rank: 100,
            velocity_window_secs: 300,
            enable_tracking: true,
            max_history_size: 100,
            rate_limit_per_minute: 20,
            enable_circuit_breaker: true,
            circuit_breaker_failure_threshold: 5,
            circuit_breaker_cooldown_secs: 60,
            max_retries: 3,
            fallback_to_stale_cache: true,
            max_stale_cache_age_secs: 60,
        }
    }
}

/// Number of Solana pairs among the first `n` pairs of a response.
pub open spec fn solana_count(is_solana: Seq<bool>, n: int) -> int
    decreases n,
{
    if n <= 0 { 0 } else { solana_count(is_solana, n - 1) + if is_solana[n - 1] { 1int } else { 0int } }
}

/// The ranked pairs among the first `n` of a response: each Solana pair is ranked by its place
/// among the Solana pairs (from 1); those ranked beyond `min_trending_rank` are left out.
pub open spec fn spec_ranked(is_solana: Seq<bool>, n: int, min_trending_rank: u32) -> Seq<(usize, u32)>
    decreases n,
{
    if n <= 0 {
        Seq::empty()
    } else {
        let prev = spec_ranked(is_solana, n - 1, min_trending_rank);
        let rank = solana_count(is_solana, n);
        if is_solana[n - 1] && rank <= min_trending_rank { prev.push(((n - 1) as usize, rank as u32)) } else { prev }
    }
}

proof fn lemma_solana_count_bounded(is_solana: Seq<bool>, n: int)
    requires
        0 <= n,
    ensures
        0 <= solana_count(is_solana, n) <= n,
    decreases n,
{
    if n > 0 {
        lemma_solana_count_bounded(is_solana, n - 1);
    }
}

/// Rank the pairs of a trending response: `is_solana[i]` tells whether pair `i` is on Solana.
/// Gives each kept pair's position in the response and its trending rank.
pub fn rank_trending_pairs(is_solana: &Vec<bool>, min_trending_rank: u32) -> (r: Vec<(usize, u32)>)
    requires
        is_solana@.len() < u32::MAX,
    ensures
        r@ == spec_ranked(is_solana@, is_solana@.len() as int, min_trending_rank),
{
    let mut out: Vec<(usize, u32)> = Vec::new();
    let mut count: u32 = 0;
    let mut i: usize = 0;
    while i < is_solana.len()
        invariant
            is_solana@.len() < u32::MAX,
            i <= is_solana@.len(),
            count == solana_count(is_solana@, i as int),
            out@ == spec_ranked(is_solana@, i as int, min_trending_rank),
        decreases is_solana@.len() - i,
    {
        proof {
            lemma_solana_count_bounded(is_solana@, i as int);
        }
        if is_solana[i] {
            count = count + 1;
            if count <= min_trending_rank {
                out.push((i, count));
            }
        }
        i = i + 1;
    }
    out
}

/// Ranks in one poll are distinct and increasing, start at 1 and never exceed the threshold.
pub proof fn lemma_ranks_increasing(is_solana: Seq<bool>, n: int, min_trending_rank: u32)
    requires
        0 <= n <= is_solana.len(),
    ensures
        forall|k: int| 0 <= k < spec_ranked(is_solana, n, min_trending_rank).len() ==>
            1 <= (#[trigger] spec_ranked(is_solana, n, min_trending_rank)[k]).1 <= min_trending_rank
            && spec_ranked(is_solana, n, min_trending_rank)[k].0 < n
            && spec_ranked(is_solana, n, min_trending_rank)[k].1 <= solana_count(is_solana, n),
        forall|a: int, b: int| 0 <= a < b < spec_ranked(is_solana, n, min_trending_rank).len() ==>
            (#[trigger] spec_ranked(is_solana, n, min_trending_rank)[a]).1 < (#[trigger] spec_ranked(is_solana, n, min_trending_rank)[b]).1,
    decreases n,
{
    if n > 0 {
        lemma_ranks_increasing(is_solana, n - 1, min_trending_rank);
        lemma_solana_count_bounded(is_solana, n - 1);
        let prev = spec_ranked(is_solana, n - 1, min_trending_rank);
        let cur = spec_ranked(is_solana, n, min_trending_rank);
        if is_solana[n - 1] && solana_count(is_solana, n) <= min_trending_rank {
            assert(cur == prev.push(((n - 1) as usize, solana_count(is_solana, n) as u32)));
            assert forall|a: int, b: int| 0 <= a < b < cur.len() implies (#[trigger] cur[a]).1 < (#[trigger] cur[b]).1 by {
                assert(cur[a] == prev[a]);
                if b < prev.len() {
                    assert(cur[b] == prev[b]);
                }
            }
            assert forall|k: int| 0 <= k < cur.len() implies
                1 <= (#[trigger] cur[k]).1 <= min_trending_rank && cur[k].0 < n && cur[k].1 <= solana_count(is_solana, n) by {
                if k < prev.len() {
                    assert(cur[k] == prev[k]);
                }
            }
        } else {
            assert(cur == prev);
        }
    }
}

/// What a poll says about one trending token's rank.
#[derive(Debug, Clone, Copy, PartialEq, Eq, Structural)]
pub enum RankEvent {
    /// Token entered trending (rank)
    Entry { rank: u32 },
    /// Significant rank improvement (old_rank -> new_rank)
    RankUp { old_rank: u32, new_rank: u32 },
    /// Significant rank decline (old_rank -> new_rank)
    RankDown { old_rank: u32, new_rank: u32 },
    /// High velocity momentum
    HighMomentum,
}

/// Smallest rank change that counts as significant.
pub const SIGNIFICANT_RANK_CHANGE: i64 = 5;

/// Whether a rank change over `elapsed_secs` is faster than two places per minute.
pub open spec fn spec_high_velocity(rank_change: int, elapsed_secs: int) -> bool {
    elapsed_secs > 0 && (if rank_change < 0 { -rank_change } else { rank_change }) * 60 > 2 * elapsed_secs
}

/// Whether a rank change over `elapsed_secs` is faster than two places per minute.
pub fn is_high_velocity(rank_change: i64, elapsed_secs: u64) -> (r: bool)
    requires
        -1_000_000_000_000 <= rank_change <= 1_000_000_000_000,
    ensures
        r == spec_high_velocity(rank_change as int, elapsed_secs as int),
{
    if elapsed_secs == 0 {
        return false;
    }
    let magnitude: i128 = if rank_change < 0 { -(rank_change as i128) } else { rank_change as i128 };
    magnitude * 60 > 2 * (elapsed_secs as i128)
}

/// The event for a token ranked `rank` in this poll: an entry when it was not trending before; a
/// rank change of at least five places up or down; otherwise a high-momentum event when the rank
/// moved faster than two places per minute; nothing else.
pub open spec fn spec_rank_event(previous_rank: Option<u32>, rank: u32, elapsed_secs: u64) -> Option<RankEvent> {
    match previous_rank {
        None => Some(RankEvent::Entry { rank }),
        Some(prev) => {
            let diff = prev as int - rank as int;
            if diff >= SIGNIFICANT_RANK_CHANGE || -diff >= SIGNIFICANT_RANK_CHANGE {
                if rank < prev {
                    Some(RankEvent::RankUp { old_rank: prev, new_rank: rank })
                } else {
                    Some(RankEvent::RankDown { old_rank: prev, new_rank: rank })
                }
            } else if spec_high_velocity(diff, elapsed_secs as int) {
                Some(RankEvent::HighMomentum)
            } else {
                None
            }
        },
    }
}

/// Classify the rank movement of a token between two polls `elapsed_secs` apart.
pub fn classify_rank_change(previous_rank: Option<u32>, rank: u32, elapsed_secs: u64) -> (r: Option<RankEvent>)
    ensures
        r == spec_rank_event(previous_rank, rank, elapsed_secs),
{
    match previous_rank {
        None => Some(RankEvent::Entry { rank }),
        Some(prev) => {
            let diff: i64 = prev as i64 - rank as i64;
            if diff >= SIGNIFICANT_RANK_CHANGE || -diff >= SIGNIFICANT_RANK_CHANGE {
                if rank < prev {
                    Some(RankEvent::RankUp { old_rank: prev, new_rank: rank })
                } else {
                    Some(RankEvent::RankDown { old_rank: prev, new_rank: rank })
                }
            } else if is_high_velocity(diff, elapsed_secs) {
                Some(RankEvent::HighMomentum)
            } else {
                None
            }
        },
    }
}

/// A token whose rank improved by five or more places yields a rank-up event, one whose rank
/// worsened by five or more a rank-down event, and a token new to the list an entry event.
pub proof fn lemma_rank_event_direction(previous_rank: Option<u32>, rank: u32, elapsed_secs: u64)
    ensures
        previous_rank is None ==> spec_rank_event(previous_rank, rank, elapsed_secs) == Some(RankEvent::Entry { rank }),
        forall|p: u32| previous_rank == Some(p) && p >= rank + 5 ==> spec_rank_event(previous_rank, rank, elapsed_secs)
            == Some(RankEvent::RankUp { old_rank: p, new_rank: rank }),
        forall|p: u32| previous_rank == Some(p) && rank >= p + 5 ==> spec_rank_event(previous_rank, rank, elapsed_secs)
            == Some(RankEvent::RankDown { old_rank: p, new_rank: rank }),
        previous_rank == Some(rank) ==> spec_rank_event(previous_rank, rank, elapsed_secs) is None,
{
}

/// Momentum in either direction: a token whose rank moved by fewer than five places, up or down,
/// yields a high-momentum event exactly when it moved more than two places per minute (some time
/// having passed), and no event otherwise; moving up or down the same number of places in the
/// same time gives the same answer.
pub proof fn lemma_momentum_either_direction(prev: u32, rank: u32, elapsed_secs: u64)
    ensures
        rank < prev + 5 && prev < rank + 5 ==> {
            let places: int = if prev >= rank { prev - rank } else { rank - prev };
            &&& (spec_rank_event(Some(prev), rank, elapsed_secs) == Some(RankEvent::HighMomentum)
                <==> (elapsed_secs > 0 && places * 60 > 2 * elapsed_secs))
            &&& (spec_rank_event(Some(prev), rank, elapsed_secs) is None
                <==> !(elapsed_secs > 0 && places * 60 > 2 * elapsed_secs))
        },
        forall|d: u32| #![trigger spec_rank_event(Some(prev), (prev + d) as u32, elapsed_secs)]
            d < 5 && prev >= d && prev + d <= u32::MAX ==>
            spec_rank_event(Some(prev), (prev + d) as u32, elapsed_secs)
                == spec_rank_event(Some(prev), (prev - d) as u32, elapsed_secs),
{
}

/// Timing fields of a trending position.
#[derive(Debug, Clone, Copy, PartialEq, Eq, Structural)]
pub struct PositionTiming {
    /// Current trending rank (1 = top trending)
    pub rank: u32,
    /// Previous rank
    pub previous_rank: Option<u32>,
    /// Timestamp when entered trending (seconds)
    pub entry_timestamp: u64,
    /// Timestamp of current position (seconds)
    pub timestamp: u64,
}

/// The timing of a token's position in this poll: a token already trending keeps its entry time
/// and remembers its previous rank; a new one enters now.
pub fn next_position_timing(previous: Option<PositionTiming>, rank: u32, now_secs: u64) -> (r: PositionTiming)
    ensures
        r.rank == rank,
        r.timestamp == now_secs,
        match previous {
            Some(p) => r.previous_rank == Some(p.rank) && r.entry_timestamp == p.entry_timestamp,
            None => r.previous_rank is None && r.entry_timestamp == now_secs,
        },
{
    match previous {
        Some(p) => PositionTiming { rank, previous_rank: Some(p.rank), entry_timestamp: p.entry_timestamp, timestamp: now_secs },
        None => PositionTiming { rank, previous_rank: None, entry_timestamp: now_secs, timestamp: now_secs },
    }
}

/// Time spent trending, zero when the clock reads earlier than the entry.
pub fn trending_duration_secs(now_secs: u64, entry_timestamp: u64) -> (r: u64)
    ensures
        r == if now_secs >= entry_timestamp { now_secs - entry_timestamp } else { 0 },
{
    if now_secs >= entry_timestamp { now_secs - entry_timestamp } else { 0 }
}

/// The tokens trending before a poll that the poll no longer lists, with their final rank, in
/// their previous order.
pub open spec fn spec_exited(previous: Seq<(String, u32)>, current: Seq<Seq<char>>) -> Seq<(Seq<char>, u32)>
    decreases previous.len(),
{
    if previous.len() == 0 {
        Seq::empty()
    } else {
        let prev = spec_exited(previous.drop_last(), current);
        let (token, rank) = previous.last();
        if current.contains(token@) { prev } else { prev.push((token@, rank)) }
    }
}

/// Views of a list of (token, rank) pairs.
pub open spec fn ranked_views(v: Seq<(String, u32)>) -> Seq<(Seq<char>, u32)> {
    v.map_values(|e: (String, u32)| (e.0@, e.1))
}

/// The tokens trending before a poll (with their rank) that the poll no longer lists.
pub fn exited_tokens(previous: &Vec<(String, u32)>, current: &Vec<String>) -> (r: Vec<(String, u32)>)
    ensures
        ranked_views(r@) == spec_exited(previous@, string_views(current@)),
{
    let mut out: Vec<(String, u32)> = Vec::new();
    let mut i: usize = 0;
    while i < previous.len()
        invariant
            i <= previous@.len(),
            ranked_views(out@) == spec_exited(previous@.take(i as int), string_views(current@)),
        decreases previous@.len() - i,
    {
        proof {
            assert(previous@.take(i as int + 1).drop_last() =~= previous@.take(i as int));
            assert(previous@.take(i as int + 1).last() == previous@[i as int]);
        }
        let token = &previous[i].0;
        let rank = previous[i].1;
        if !contains_string(current, token) {
            let ghost before = out@;
            out.push((token.clone(), rank));
            proof {
                assert(ranked_views(out@) =~= ranked_views(before).push((token@, rank)));
            }
        }
        i = i + 1;
    }
    proof {
        assert(previous@.take(i as int) =~= previous@);
    }
    out
}

/// A history that keeps only its most recent entries.
pub struct BoundedHistory<T> {
    items: VecDeque<T>,
    max_history: usize,
}

impl<T> BoundedHistory<T> {
    /// The entries kept, oldest first.
    pub closed spec fn view_items(&self) -> Seq<T> {
        self.items@
    }

    /// The most entries kept.
    pub closed spec fn capacity(&self) -> usize {
        self.max_history
    }

    /// Never more entries than the capacity.
    pub closed spec fn wf(&self) -> bool {
        self.items@.len() <= self.max_history
    }

    /// An empty history keeping at most `max_history` entries.
    pub fn new(max_history: usize) -> (r: Self)
        ensures
            r.wf(),
            r.view_items() == Seq::<T>::empty(),
            r.capacity() == max_history,
    {
        BoundedHistory { items: VecDeque::new(), max_history }
    }

    /// Append an entry, then drop the oldest ones beyond the capacity.
    pub fn add(&mut self, item: T)
        requires
            old(self).wf(),
        ensures
            final(self).wf(),
            final(self).capacity() == old(self).capacity(),
            old(self).view_items().len() < old(self).capacity() ==> final(self).view_items() == old(self).view_items().push(item),
            old(self).view_items().len() >= old(self).capacity() ==> final(self).view_items()
                == old(self).view_items().push(item).skip(old(self).view_items().len() + 1 - old(self).capacity()),
    {
        let ghost all = self.items@.push(item);
        self.items.push_back(item);
        let ghost mut dropped: int = 0;
        while self.items.len() > self.max_history
            invariant
                self.items@ == all.skip(dropped),
                0 <= dropped <= all.len(),
                self.max_history == old(self).max_history,
                all.len() == old(self).items@.len() + 1,
                old(self).items@.len() <= self.max_history,
                dropped <= all.len() - self.max_history || dropped == 0,
            decreases self.items@.len(),
        {
            let _ = self.items.pop_front();
            proof {
                assert(self.items@ =~= all.skip(dropped + 1));
                dropped = dropped + 1;
            }
        }
        proof {
            if old(self).items@.len() < self.max_history {
                assert(dropped == 0);
                assert(all.skip(0) =~= all);
            } else {
                assert(dropped == all.len() - self.max_history);
            }
        }
    }

    /// The entries kept, oldest first.
    pub fn items(&self) -> (r: &VecDeque<T>)
        ensures
            r@ == self.view_items(),
    {
        &self.items
    }

    /// Number of entries kept.
    pub fn len(&self) -> (r: usize)
        ensures
            r == self.view_items().len(),
    {
        self.items.len()
    }
}

/// Whether it is time to poll again: never polled, or more than the polling interval ago.
pub fn should_poll(last_poll_ms: Option<u64>, now_ms: u64, polling_interval_secs: u64) -> (r: bool)
    ensures
        r == match last_poll_ms {
            None => true,
            Some(last) => now_ms >= last && now_ms - last > polling_interval_secs * 1000,
        },
{
    match last_poll_ms {
        None => true,
        Some(last) => {
            if now_ms < last {
                false
            } else {
                let elapsed: u128 = (now_ms - last) as u128;
                elapsed > (polling_interval_secs as u128) * 1000
            }
        },
    }
}

/// Delay before retry `attempt` of an API request: 100 ms doubled per attempt.
pub fn retry_delay_ms(attempt: u32) -> (r: u64)
    requires
        100 * pow2(attempt as nat) <= u64::MAX,
    ensures
        r == 100 * pow2(attempt as nat),
{
    let p = saturating_pow2(attempt);
    proof {
        assert(sat_pow2(attempt) == pow2(attempt as nat));
    }
    100 * p
}

/// Consecutive failures of the trending API.
pub struct FailureCounter {
    pub consecutive_failures: u32,
}

impl FailureCounter {
    /// No failure yet.
    pub fn new() -> (r: Self)
        ensures
            r.consecutive_failures == 0,
    {
        FailureCounter { consecutive_failures: 0 }
    }

    /// A successful poll resets the count.
    pub fn record_success(&mut self)
        ensures
            final(self).consecutive_failures == 0,
    {
        self.consecutive_failures = 0;
    }

    /// A failed poll adds one (saturating) and gives the new count.
    pub fn record_failure(&mut self) -> (r: u32)
        ensures
            final(self).consecutive_failures == if old(self).consecutive_failures < u32::MAX {
                old(self).consecutive_failures + 1
            } else {
                u32::MAX as int
            },
            r == final(self).consecutive_failures,
    {
        if self.consecutive_failures < u32::MAX {
            self.consecutive_failures = self.consecutive_failures + 1;
        }
        self.consecutive_failures
    }
}

/// Rank change and elapsed time of the positions within the velocity window: the window ends at
/// the last position and reaches back `window_secs`; none when fewer than two positions fall in it.
pub open spec fn spec_velocity_span(positions: Seq<(u64, u32)>, window_secs: u64) -> Option<(int, int)> {
    if positions.len() < 2 {
        None
    } else {
        let now = positions.last().0;
        let cutoff = if now >= window_secs { now - window_secs } else { 0 };
        let recent = positions.filter(|p: (u64, u32)| p.0 >= cutoff);
        if recent.len() < 2 {
            None
        } else {
            Some((recent[0].1 as int - recent.last().1 as int, recent.last().0 as int - recent[0].0 as int))
        }
    }
}

/// The rank change and elapsed seconds over the velocity window of a token's position history
/// (timestamp, rank), oldest first.
pub fn velocity_span(positions: &Vec<(u64, u32)>, window_secs: u64) -> (r: Option<(i64, u64)>)
    requires
        forall|i: int, j: int| 0 <= i < j < positions@.len() ==> (#[trigger] positions@[i]).0 <= (#[trigger] positions@[j]).0,
    ensures
        match spec_velocity_span(positions@, window_secs) {
            Some((change, elapsed)) => r matches Some(v) && v.0 == change && v.1 == elapsed,
            None => r is None,
        },
{
    let n = positions.len();
    if n < 2 {
        return None;
    }
    let now = positions[n - 1].0;
    let cutoff = if now >= window_secs { now - window_secs } else { 0 };
    let ghost recent = positions@.filter(|p: (u64, u32)| p.0 >= cutoff);
    // positions are in time order, so the recent ones are a suffix
    let mut first: usize = n - 1;
    while first > 0 && positions[first - 1].0 >= cutoff
        invariant
            0 <= first < n,
            n == positions@.len(),
            positions@[n - 1].0 == now,
            forall|k: int| first <= k < n ==> (#[trigger] positions@[k]).0 >= cutoff,
        decreases first,
    {
        first = first - 1;
    }
    proof {
        assert forall|k: int| 0 <= k < first implies (#[trigger] positions@[k]).0 < cutoff by {
            assert(positions@[k].0 <= positions@[first - 1].0);
        }
        lemma_filter_suffix(positions@, cutoff, first as int);
    }
    if n - first < 2 {
        return None;
    }
    let change: i64 = positions[first].1 as i64 - positions[n - 1].1 as i64;
    let elapsed: u64 = positions[n - 1].0 - positions[first].0;
    proof {
        assert(recent =~= positions@.skip(first as int));
    }
    Some((change, elapsed))
}

proof fn lemma_filter_suffix(positions: Seq<(u64, u32)>, cutoff: u64, first: int)
    requires
        0 <= first <= positions.len(),
        forall|k: int| 0 <= k < first ==> (#[trigger] positions[k]).0 < cutoff,
        forall|k: int| first <= k < positions.len() ==> (#[trigger] positions[k]).0 >= cutoff,
    ensures
        positions.filter(|p: (u64, u32)| p.0 >= cutoff) == positions.skip(first),
    decreases positions.len(),
{
    reveal(Seq::filter);
    let f = |p: (u64, u32)| p.0 >= cutoff;
    if positions.len() == 0 {
        assert(positions.skip(first) =~= Seq::<(u64, u32)>::empty());
    } else {
        let init = positions.drop_last();
        if first == positions.len() {
            lemma_filter_suffix(init, cutoff, first - 1);
            assert(init.skip(first - 1) =~= Seq::<(u64, u32)>::empty());
            assert(positions.skip(first) =~= Seq::<(u64, u32)>::empty());
        } else {
            lemma_filter_suffix(init, cutoff, first);
            assert(positions.skip(first) =~= init.skip(first).push(positions.last()));
        }
    }
}

} // verus!
