//! Holder growth tracking: when to take a snapshot, the growth between snapshots, and periods
//! where the holder count stays flat.
use vstd::prelude::*;

verus! {

/// Single snapshot of holder count at a point in time.
#[derive(Debug, Clone, Copy, PartialEq, Eq, Structural)]
pub struct HolderSnapshot {
    /// Timestamp (unix seconds)
    pub timestamp: u64,
    /// Number of unique holders at this time
    pub holder_count: usize,
    /// Time since token deploy (seconds)
    pub age_seconds: u64,
}

/// Whether a new snapshot is due: there is none yet, or the last one is at least
/// `snapshot_interval_secs` old.
pub fn should_record_snapshot(last_timestamp: Option<u64>, now: u64, snapshot_interval_secs: u64) -> (r: bool)
    requires
        last_timestamp matches Some(t) ==> t <= now,
    ensures
        r == match last_timestamp {
            None => true,
            Some(t) => now - t >= snapshot_interval_secs,
        },
{
    match last_timestamp {
        None => true,
        Some(t) => now - t >= snapshot_interval_secs,
    }
}

/// The snapshot taken at `now` of a token deployed at `deploy_timestamp`.
pub fn take_snapshot(now: u64, holder_count: usize, deploy_timestamp: u64) -> (r: HolderSnapshot)
    ensures
        r.timestamp == now,
        r.holder_count == holder_count,
        r.age_seconds == if now >= deploy_timestamp { now - deploy_timestamp } else { 0 },
{
    HolderSnapshot {
        timestamp: now,
        holder_count,
        age_seconds: if now >= deploy_timestamp { now - deploy_timestamp } else { 0 },
    }
}

/// Timestamps never go backwards.
pub open spec fn timestamps_ordered(s: Seq<HolderSnapshot>) -> bool {
    forall|i: int, j: int| 0 <= i < j < s.len() ==> (#[trigger] s[i]).timestamp <= (#[trigger] s[j]).timestamp
}

/// Timestamps never go backwards and holder counts fit in an `i64`.
pub open spec fn snapshots_ok(s: Seq<HolderSnapshot>) -> bool {
    &&& timestamps_ordered(s)
    &&& forall|i: int| 0 <= i < s.len() ==> (#[trigger] s[i]).holder_count <= i64::MAX
}

/// Holder change and elapsed seconds from the first to the last snapshot; none for fewer than
/// two snapshots or no elapsed time.
pub open spec fn spec_growth_span(s: Seq<HolderSnapshot>) -> Option<(int, int)> {
    if s.len() < 2 {
        None
    } else {
        let dt = if s.last().timestamp >= s[0].timestamp { s.last().timestamp - s[0].timestamp } else { 0 };
        if dt == 0 { None } else { Some((s.last().holder_count - s[0].holder_count, dt)) }
    }
}

/// The holder change and elapsed time over which the average growth rate is taken.
pub fn growth_span(snapshots: &Vec<HolderSnapshot>) -> (r: Option<(i64, u64)>)
    requires
        forall|i: int| 0 <= i < snapshots@.len() ==> (#[trigger] snapshots@[i]).holder_count <= i64::MAX,
    ensures
        match spec_growth_span(snapshots@) {
            Some((dh, dt)) => r matches Some(v) && v.0 == dh && v.1 == dt,
            None => r is None,
        },
{
    let n = snapshots.len();
    if n < 2 {
        return None;
    }
    let first = snapshots[0];
    let last = snapshots[n - 1];
    let dt = if last.timestamp >= first.timestamp { last.timestamp - first.timestamp } else { 0 };
    if dt == 0 {
        return None;
    }
    Some((last.holder_count as i64 - first.holder_count as i64, dt))
}

/// A change of the holder count between two consecutive snapshots.
#[derive(Debug, Clone, Copy, PartialEq, Eq, Structural)]
pub struct GrowthStep {
    pub start_holders: usize,
    pub end_holders: usize,
    /// Signed holder change
    pub holder_diff: i64,
    /// Elapsed seconds (positive)
    pub duration_secs: u64,
}

/// The steps between consecutive snapshots among the first `n`, leaving out those with no
/// elapsed time.
pub open spec fn spec_steps(s: Seq<HolderSnapshot>, n: int) -> Seq<GrowthStep>
    decreases n,
{
    if n < 2 {
        Seq::empty()
    } else {
        let prev = spec_steps(s, n - 1);
        let a = s[n - 2];
        let b = s[n - 1];
        let dt = if b.timestamp >= a.timestamp { b.timestamp - a.timestamp } else { 0 };
        if dt == 0 {
            prev
        } else {
            prev.push(GrowthStep {
                start_holders: a.holder_count,
                end_holders: b.holder_count,
                holder_diff: (b.holder_count - a.holder_count) as i64,
                duration_secs: dt as u64,
            })
        }
    }
}

/// The steps between consecutive snapshots, from which sudden jumps and rapid drops are judged.
pub fn growth_steps(snapshots: &Vec<HolderSnapshot>) -> (r: Vec<GrowthStep>)
    requires
        forall|i: int| 0 <= i < snapshots@.len() ==> (#[trigger] snapshots@[i]).holder_count <= i64::MAX,
    ensures
        r@ == spec_steps(snapshots@, snapshots@.len() as int),
{
    let mut out: Vec<GrowthStep> = Vec::new();
    let n = snapshots.len();
    if n < 2 {
        return out;
    }
    let mut i: usize = 1;
    while i < n
        invariant
            n == snapshots@.len(),
            1 <= i <= n,
            forall|k: int| 0 <= k < snapshots@.len() ==> (#[trigger] snapshots@[k]).holder_count <= i64::MAX,
            out@ == spec_steps(snapshots@, i as int),
        decreases n - i,
    {
        let a = snapshots[i - 1];
        let b = snapshots[i];
        let dt = if b.timestamp >= a.timestamp { b.timestamp - a.timestamp } else { 0 };
        if dt != 0 {
            out.push(GrowthStep {
                start_holders: a.holder_count,
                end_holders: b.holder_count,
                holder_diff: b.holder_count as i64 - a.holder_count as i64,
                duration_secs: dt,
            });
        }
        i = i + 1;
    }
    out
}

/// Step `st` joins snapshots `i - 1` and `i`: its counts are theirs, its holder change the
/// difference of their counts, and its duration their positive time difference.
pub open spec fn step_joins(s: Seq<HolderSnapshot>, st: GrowthStep, i: int) -> bool {
    &&& st.start_holders == s[i - 1].holder_count
    &&& st.end_holders == s[i].holder_count
    &&& st.holder_diff == s[i].holder_count - s[i - 1].holder_count
    &&& st.duration_secs > 0
    &&& s[i].timestamp == s[i - 1].timestamp + st.duration_secs
}

/// Step `st` joins two consecutive snapshots among the first `n`.
pub open spec fn step_from_consecutive(s: Seq<HolderSnapshot>, n: int, st: GrowthStep) -> bool {
    exists|i: int| 1 <= i < n && #[trigger] step_joins(s, st, i)
}

/// Every growth step joins two consecutive snapshots that are some seconds apart.
pub proof fn lemma_steps_consecutive(s: Seq<HolderSnapshot>, n: int)
    requires
        0 <= n <= s.len(),
        forall|i: int| 0 <= i < s.len() ==> (#[trigger] s[i]).holder_count <= i64::MAX,
    ensures
        forall|k: int| 0 <= k < spec_steps(s, n).len() ==> step_from_consecutive(s, n, #[trigger] spec_steps(s, n)[k]),
    decreases n,
{
    if n >= 2 {
        lemma_steps_consecutive(s, n - 1);
        let prev = spec_steps(s, n - 1);
        assert forall|k: int| 0 <= k < spec_steps(s, n).len() implies step_from_consecutive(s, n, #[trigger] spec_steps(s, n)[k]) by {
            if k < prev.len() {
                assert(spec_steps(s, n)[k] == prev[k]);
                assert(step_from_consecutive(s, n - 1, prev[k]));
                let i = choose|i: int| 1 <= i < n - 1 && #[trigger] step_joins(s, prev[k], i);
                assert(step_joins(s, spec_steps(s, n)[k], i));
            } else {
                assert(step_joins(s, spec_steps(s, n)[k], n - 1));
            }
        }
    }
}

/// A period in which the holder count stayed flat.
#[derive(Debug, Clone, Copy, PartialEq, Eq, Structural)]
pub struct Flattening {
    /// Holder count at the end of the period
    pub holder_count: usize,
    /// Length of the period (seconds)
    pub duration_secs: u64,
    /// Start of the period (unix seconds)
    pub timestamp: u64,
}

/// Absolute difference of two holder counts.
pub open spec fn count_diff(a: usize, b: usize) -> int {
    if a >= b { a - b } else { b - a }
}

/// The flattening reported for a flat run from snapshot `start` to snapshot `end`, if it lasted
/// long enough.
pub open spec fn run_report(s: Seq<HolderSnapshot>, start: int, end: int, duration_threshold: u64) -> Seq<Flattening> {
    let d = s[end].timestamp - s[start].timestamp;
    if d >= duration_threshold {
        seq![Flattening { holder_count: s[end].holder_count, duration_secs: d as u64, timestamp: s[start].timestamp }]
    } else {
        Seq::empty()
    }
}

/// Scan of the steps up to snapshot `i`: the flattenings reported so far and the start of the
/// flat run in progress. A step changing the count by at most `threshold` extends (or starts) a
/// run; a larger step closes the run in progress.
pub open spec fn flat_scan(s: Seq<HolderSnapshot>, i: int, threshold: usize, duration_threshold: u64) -> (Seq<Flattening>, Option<int>)
    decreases i,
{
    if i < 1 {
        (Seq::empty(), None)
    } else {
        let (found, start) = flat_scan(s, i - 1, threshold, duration_threshold);
        if count_diff(s[i].holder_count, s[i - 1].holder_count) <= threshold {
            (found, if start is Some { start } else { Some(i - 1) })
        } else {
            match start {
                Some(st) => (found + run_report(s, st, i - 1, duration_threshold), None),
                None => (found, None),
            }
        }
    }
}

/// All flattenings of a snapshot list, a run reaching the last snapshot included.
pub open spec fn spec_flattenings(s: Seq<HolderSnapshot>, threshold: usize, duration_threshold: u64) -> Seq<Flattening> {
    if s.len() < 2 {
        Seq::empty()
    } else {
        let (found, start) = flat_scan(s, s.len() - 1, threshold, duration_threshold);
        match start {
            Some(st) => found + run_report(s, st, s.len() - 1, duration_threshold),
            None => found,
        }
    }
}

proof fn lemma_flat_scan_start(s: Seq<HolderSnapshot>, i: int, threshold: usize, duration_threshold: u64)
    requires
        0 <= i,
    ensures
        flat_scan(s, i, threshold, duration_threshold).1 matches Some(st) ==> 0 <= st < i,
    decreases i,
{
    if i >= 1 {
        lemma_flat_scan_start(s, i - 1, threshold, duration_threshold);
    }
}

/// Detect suspicious flattening: runs of consecutive snapshots whose holder count changes by at
/// most `flattening_threshold` per step and that last at least `flattening_duration_threshold`
/// seconds.
pub fn detect_flattening(snapshots: &Vec<HolderSnapshot>, flattening_threshold: usize, flattening_duration_threshold: u64) -> (r: Vec<Flattening>)
    requires
        snapshots_ok(snapshots@),
    ensures
        r@ == spec_flattenings(snapshots@, flattening_threshold, flattening_duration_threshold),
{
    let mut out: Vec<Flattening> = Vec::new();
    let n = snapshots.len();
    if n < 2 {
        return out;
    }
    let mut flat_start: Option<usize> = None;
    let mut i: usize = 1;
    while i < n
        invariant
            n == snapshots@.len(),
            1 <= i <= n,
            snapshots_ok(snapshots@),
            flat_scan(snapshots@, i as int - 1, flattening_threshold, flattening_duration_threshold)
                == (out@, match flat_start { Some(st) => Some(st as int), None => None::<int> }),
        decreases n - i,
    {
        proof {
            lemma_flat_scan_start(snapshots@, i as int - 1, flattening_threshold, flattening_duration_threshold);
        }
        let prev = snapshots[i - 1].holder_count;
        let curr = snapshots[i].holder_count;
        let diff = if curr >= prev { curr - prev } else { prev - curr };
        if diff <= flattening_threshold {
            if flat_start.is_none() {
                flat_start = Some(i - 1);
            }
        } else {
            match flat_start {
                Some(start_idx) => {
                    let duration = snapshots[i - 1].timestamp - snapshots[start_idx].timestamp;
                    let ghost before = out@;
                    if duration >= flattening_duration_threshold {
                        out.push(Flattening {
                            holder_count: snapshots[i - 1].holder_count,
                            duration_secs: duration,
                            timestamp: snapshots[start_idx].timestamp,
                        });
                    }
                    proof {
                        assert(out@ =~= before + run_report(snapshots@, start_idx as int, i - 1, flattening_duration_threshold));
                    }
                    flat_start = None;
                },
                None => {},
            }
        }
        i = i + 1;
    }
    proof {
        lemma_flat_scan_start(snapshots@, n as int - 1, flattening_threshold, flattening_duration_threshold);
    }
    match flat_start {
        Some(start_idx) => {
            let duration = snapshots[n - 1].timestamp - snapshots[start_idx].timestamp;
            let ghost before = out@;
            if duration >= flattening_duration_threshold {
                out.push(Flattening {
                    holder_count: snapshots[n - 1].holder_count,
                    duration_secs: duration,
                    timestamp: snapshots[start_idx].timestamp,
                });
            }
            proof {
                assert(out@ =~= before + run_report(snapshots@, start_idx as int, n - 1, flattening_duration_threshold));
            }
        },
        None => {},
    }
    out
}

proof fn lemma_flat_scan_long(s: Seq<HolderSnapshot>, i: int, threshold: usize, duration_threshold: u64)
    requires
        0 <= i < s.len(),
        timestamps_ordered(s),
    ensures
        forall|k: int| 0 <= k < flat_scan(s, i, threshold, duration_threshold).0.len() ==>
            (#[trigger] flat_scan(s, i, threshold, duration_threshold).0[k]).duration_secs >= duration_threshold,
    decreases i,
{
    if i >= 1 {
        lemma_flat_scan_long(s, i - 1, threshold, duration_threshold);
        lemma_flat_scan_start(s, i - 1, threshold, duration_threshold);
        let (found, start) = flat_scan(s, i - 1, threshold, duration_threshold);
        if count_diff(s[i].holder_count, s[i - 1].holder_count) > threshold {
            if let Some(st) = start {
                let all = found + run_report(s, st, i - 1, duration_threshold);
                assert(s[st].timestamp <= s[i - 1].timestamp);
                assert forall|k: int| 0 <= k < all.len() implies (#[trigger] all[k]).duration_secs >= duration_threshold by {
                    if k >= found.len() {
                        assert(all[k] == run_report(s, st, i - 1, duration_threshold)[k - found.len()]);
                    }
                }
            }
        }
    }
}

/// Every flattening reported lasted at least the duration threshold, and fewer than two
/// snapshots give neither steps nor flattenings.
pub proof fn lemma_flattenings_long_enough(s: Seq<HolderSnapshot>, threshold: usize, duration_threshold: u64)
    requires
        timestamps_ordered(s),
    ensures
        forall|k: int| 0 <= k < spec_flattenings(s, threshold, duration_threshold).len() ==>
            (#[trigger] spec_flattenings(s, threshold, duration_threshold)[k]).duration_secs >= duration_threshold,
        s.len() < 2 ==> spec_flattenings(s, threshold, duration_threshold).len() == 0
            && spec_steps(s, s.len() as int).len() == 0,
{
    if s.len() >= 2 {
        lemma_flat_scan_long(s, s.len() - 1, threshold, duration_threshold);
        lemma_flat_scan_start(s, s.len() - 1, threshold, duration_threshold);
        let (found, start) = flat_scan(s, s.len() - 1, threshold, duration_threshold);
        if let Some(st) = start {
            let all = found + run_report(s, st, s.len() - 1, duration_threshold);
            assert(s[st].timestamp <= s[s.len() - 1].timestamp);
            assert forall|k: int| 0 <= k < all.len() implies (#[trigger] all[k]).duration_secs >= duration_threshold by {
                if k >= found.len() {
                    assert(all[k] == run_report(s, st, s.len() - 1, duration_threshold)[k - found.len()]);
                }
            }
        }
    }
}

} // verus!
