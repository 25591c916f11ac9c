use vstd::prelude::*;
use vstd::set_lib::{set_int_range, lemma_int_range, lemma_subset_equality};

verus! {

/// Transaction timing data for bot and bundle analysis.
#[derive(Debug, Clone)]
pub struct TransactionTiming {
    /// Transaction signature
    pub signature: String,
    /// Wallet address
    pub address: String,
    /// Transaction time (milliseconds since the Unix epoch)
    pub timestamp_ms: i64,
    /// Time since token deployment (milliseconds)
    pub time_since_deploy_ms: u64,
    /// Transaction slot
    pub slot: u64,
    /// Whether part of a bundle
    pub in_bundle: bool,
    /// Bundle ID if in bundle
    pub bundle_id: Option<usize>,
}

/// `a` comes before `b` in the stable time order of `txs`.
pub open spec fn time_before(txs: Seq<TransactionTiming>, a: int, b: int) -> bool {
    txs[a].timestamp_ms < txs[b].timestamp_ms
        || (txs[a].timestamp_ms == txs[b].timestamp_ms && a < b)
}

/// `order` lists indices of `txs` strictly increasing in (timestamp, index).
pub open spec fn time_ordered(txs: Seq<TransactionTiming>, order: Seq<usize>) -> bool {
    &&& forall|i: int| 0 <= i < order.len() ==> (#[trigger] order[i]) < txs.len()
    &&& forall|i: int, j: int|
        0 <= i < j < order.len() ==> time_before(txs, #[trigger] order[i] as int, #[trigger] order[j] as int)
}

/// `order` is the stable sort of `txs` by timestamp: every index once, in time order.
pub open spec fn is_time_order(txs: Seq<TransactionTiming>, order: Seq<usize>) -> bool {
    &&& order.len() == txs.len()
    &&& time_ordered(txs, order)
}

/// A time order lists every index of `txs`.
pub proof fn lemma_time_order_covers(txs: Seq<TransactionTiming>, order: Seq<usize>, a: int)
    requires
        is_time_order(txs, order),
        0 <= a < txs.len(),
    ensures
        exists|j: int| 0 <= j < order.len() && order[j] == a,
{
    let ints = order.map_values(|x: usize| x as int);
    assert(ints.no_duplicates()) by {
        assert forall|i: int, j: int| 0 <= i < ints.len() && 0 <= j < ints.len() && i != j implies ints[i] != ints[j] by {
            if i < j {
                assert(time_before(txs, order[i] as int, order[j] as int));
            } else {
                assert(time_before(txs, order[j] as int, order[i] as int));
            }
        }
    }
    ints.unique_seq_to_set();
    lemma_int_range(0, txs.len() as int);
    assert(ints.to_set().subset_of(set_int_range(0, txs.len() as int))) by {
        assert forall|x: int| ints.to_set().contains(x) implies set_int_range(0, txs.len() as int).contains(x) by {
            let j = choose|j: int| 0 <= j < ints.len() && ints[j] == x;
            assert(order[j] < txs.len());
        }
    }
    lemma_subset_equality(ints.to_set(), set_int_range(0, txs.len() as int));
    assert(set_int_range(0, txs.len() as int).contains(a));
    assert(ints.to_set().contains(a));
    let j = choose|j: int| 0 <= j < ints.len() && ints[j] == a;
    assert(order[j] == a);
}

/// Two time orders agree on every position up to `i`.
proof fn lemma_time_order_prefix(txs: Seq<TransactionTiming>, o1: Seq<usize>, o2: Seq<usize>, i: int)
    requires
        is_time_order(txs, o1),
        is_time_order(txs, o2),
        0 <= i < o1.len(),
    ensures
        forall|m: int| 0 <= m <= i ==> o1[m] == o2[m],
    decreases i,
{
    if i > 0 {
        lemma_time_order_prefix(txs, o1, o2, i - 1);
    }
    let a = o1[i];
    let b = o2[i];
    if a != b {
        lemma_time_order_covers(txs, o1, b as int);
        let j = choose|j: int| 0 <= j < o1.len() && o1[j] == b;
        lemma_time_order_covers(txs, o2, a as int);
        let k = choose|k: int| 0 <= k < o2.len() && o2[k] == a;
        if j < i {
            assert(o2[j] == b);
            assert(time_before(txs, o2[j] as int, o2[i] as int));
        }
        if k < i {
            assert(o1[k] == a);
            assert(time_before(txs, o1[k] as int, o1[i] as int));
        }
        assert(j > i && k > i);
        assert(time_before(txs, o1[i] as int, o1[j] as int));
        assert(time_before(txs, o2[i] as int, o2[k] as int));
    }
}

/// The stable time order of a transaction list is unique.
pub proof fn lemma_time_order_unique(txs: Seq<TransactionTiming>, o1: Seq<usize>, o2: Seq<usize>)
    requires
        is_time_order(txs, o1),
        is_time_order(txs, o2),
    ensures
        o1 == o2,
{
    if o1.len() > 0 {
        lemma_time_order_prefix(txs, o1, o2, o1.len() - 1);
    }
    assert(o1 =~= o2);
}

/// The stable time order of a transaction list.
pub open spec fn time_order(txs: Seq<TransactionTiming>) -> Seq<usize> {
    choose|o: Seq<usize>| is_time_order(txs, o)
}

/// The indices of `txs` in stable timestamp order (what `sort_by_key(|tx| tx.timestamp)` yields).
pub fn order_by_time(txs: &Vec<TransactionTiming>) -> (order: Vec<usize>)
    ensures
        is_time_order(txs@, order@),
        order@ == time_order(txs@),
{
    let n = txs.len();
    let mut order: Vec<usize> = Vec::new();
    let mut k: usize = 0;
    while k < n
        invariant
            k <= n,
            n == txs@.len(),
            order@.len() == k,
            time_ordered(txs@, order@),
            forall|i: int| 0 <= i < order@.len() ==> (#[trigger] order@[i]) < k,
        decreases n - k,
    {
        let t = txs[k].timestamp_ms;
        let mut pos: usize = 0;
        while pos < order.len() && txs[order[pos]].timestamp_ms <= t
            invariant
                pos <= order@.len(),
                n == txs@.len(),
                k < n,
                t == txs@[k as int].timestamp_ms,
                time_ordered(txs@, order@),
                forall|i: int| 0 <= i < order@.len() ==> (#[trigger] order@[i]) < k,
                forall|i: int| 0 <= i < pos ==> txs@[(#[trigger] order@[i]) as int].timestamp_ms <= t,
            decreases order@.len() - pos,
        {
            pos = pos + 1;
        }
        let ghost before = order@;
        proof {
            // everything from `pos` on is strictly later than `t`
            assert forall|i: int| pos <= i < before.len() implies txs@[(#[trigger] before[i]) as int].timestamp_ms > t by {
                if pos < before.len() {
                    assert(txs@[before[pos as int] as int].timestamp_ms > t);
                    if i > pos {
                        assert(time_before(txs@, before[pos as int] as int, before[i] as int));
                    }
                }
            }
        }
        order.insert(pos, k);
        proof {
            let after = order@;
            assert forall|i: int| 0 <= i < after.len() implies (#[trigger] after[i]) < k + 1 by {
                if i < pos {
                    assert(after[i] == before[i]);
                } else if i > pos {
                    assert(after[i] == before[i - 1]);
                }
            }
            assert forall|i: int, j: int| 0 <= i < j < after.len() implies time_before(txs@, #[trigger] after[i] as int, #[trigger] after[j] as int) by {
                if j < pos {
                    assert(after[i] == before[i] && after[j] == before[j]);
                } else if j == pos {
                    assert(after[i] == before[i]);
                } else if i < pos {
                    assert(after[i] == before[i] && after[j] == before[j - 1]);
                } else if i == pos {
                    assert(after[j] == before[j - 1]);
                } else {
                    assert(after[i] == before[i - 1] && after[j] == before[j - 1]);
                }
            }
        }
        k = k + 1;
    }
    proof {
        assert(is_time_order(txs@, order@));
        lemma_time_order_unique(txs@, order@, time_order(txs@));
    }
    order
}


/// Timestamp of the transaction at position `i` of the time order.
pub open spec fn ts_at(txs: Seq<TransactionTiming>, order: Seq<usize>, i: int) -> int {
    txs[order[i] as int].timestamp_ms as int
}

/// The first position from `from` on whose transaction is more than `window_ms` after the one at
/// position `start`; the end of the order if there is none.
pub open spec fn window_end(txs: Seq<TransactionTiming>, order: Seq<usize>, start: int, from: int, window_ms: u64) -> int
    decreases order.len() - from,
{
    if from >= order.len() {
        order.len() as int
    } else if ts_at(txs, order, from) - ts_at(txs, order, start) <= window_ms {
        window_end(txs, order, start, from + 1, window_ms)
    } else {
        from
    }
}

/// `window_end` never moves backwards.
pub proof fn lemma_window_end_bounds(txs: Seq<TransactionTiming>, order: Seq<usize>, start: int, from: int, window_ms: u64)
    requires
        0 <= from,
    ensures
        from <= window_end(txs, order, start, from, window_ms) || from > order.len(),
        window_end(txs, order, start, from, window_ms) <= order.len() || from > order.len(),
    decreases order.len() - from,
{
    if from < order.len() && ts_at(txs, order, from) - ts_at(txs, order, start) <= window_ms {
        lemma_window_end_bounds(txs, order, start, from + 1, window_ms);
    }
}

/// Greedy time windows of at least `min_size` transactions, scanning positions from `i`:
/// each window starts at a transaction and takes every later one within `window_ms` of it;
/// a large enough window is kept and the scan resumes after it, otherwise the scan moves on by one.
/// Windows are half-open position ranges `(start, end)` of the time order.
pub open spec fn window_ranges(txs: Seq<TransactionTiming>, order: Seq<usize>, i: int, window_ms: u64, min_size: usize) -> Seq<(int, int)>
    decreases order.len() - i,
{
    if i < 0 || i >= order.len() {
        Seq::empty()
    } else {
        let j = window_end(txs, order, i, i + 1, window_ms);
        proof {
            lemma_window_end_bounds(txs, order, i, i + 1, window_ms);
        }
        if j - i >= min_size {
            seq![(i, j)] + window_ranges(txs, order, j, window_ms, min_size)
        } else {
            window_ranges(txs, order, i + 1, window_ms, min_size)
        }
    }
}

/// The window ranges of the whole time order, as found by the bundle and cluster detectors.
pub open spec fn spec_windows(txs: Seq<TransactionTiming>, order: Seq<usize>, window_ms: u64, min_size: usize) -> Seq<(int, int)> {
    if txs.len() < min_size { Seq::empty() } else { window_ranges(txs, order, 0, window_ms, min_size) }
}

/// The difference of two timestamps, which the caller knows to be non-negative.
fn ms_between(earlier: i64, later: i64) -> (r: u64)
    requires
        earlier <= later,
    ensures
        r == later - earlier,
{
    let d: i128 = later as i128 - earlier as i128;
    d as u64
}

/// End of the window starting at position `start`.
fn find_window_end(txs: &Vec<TransactionTiming>, order: &Vec<usize>, start: usize, window_ms: u64) -> (j: usize)
    requires
        is_time_order(txs@, order@),
        start < order@.len(),
    ensures
        j as int == window_end(txs@, order@, start as int, start as int + 1, window_ms),
{
    let t0 = txs[order[start]].timestamp_ms;
    let n = order.len();
    let mut j: usize = start + 1;
    proof {
        lemma_window_end_bounds(txs@, order@, start as int, start as int + 1, window_ms);
    }
    while j < n
        invariant
            is_time_order(txs@, order@),
            n == order@.len(),
            start < j <= order@.len(),
            t0 == ts_at(txs@, order@, start as int),
            window_end(txs@, order@, start as int, j as int, window_ms)
                == window_end(txs@, order@, start as int, start as int + 1, window_ms),
        decreases order@.len() - j,
    {
        let tj = txs[order[j]].timestamp_ms;
        proof {
            assert(time_before(txs@, order@[start as int] as int, order@[j as int] as int));
        }
        if ms_between(t0, tj) <= window_ms {
            j = j + 1;
        } else {
            return j;
        }
    }
    j
}

/// The greedy windows of at least `min_size` transactions spanning at most `window_ms`.
pub fn find_windows(txs: &Vec<TransactionTiming>, order: &Vec<usize>, window_ms: u64, min_size: usize) -> (r: Vec<(usize, usize)>)
    requires
        is_time_order(txs@, order@),
    ensures
        r@.len() == spec_windows(txs@, order@, window_ms, min_size).len(),
        forall|k: int| 0 <= k < r@.len() ==> (#[trigger] r@[k]).0 as int == spec_windows(txs@, order@, window_ms, min_size)[k].0
            && r@[k].1 as int == spec_windows(txs@, order@, window_ms, min_size)[k].1,
{
    let mut out: Vec<(usize, usize)> = Vec::new();
    if txs.len() < min_size {
        return out;
    }
    let n = order.len();
    let mut i: usize = 0;
    let ghost whole = window_ranges(txs@, order@, 0, window_ms, min_size);
    while i < n
        invariant
            is_time_order(txs@, order@),
            n == order@.len(),
            i <= n,
            whole == window_ranges(txs@, order@, 0, window_ms, min_size),
            whole =~= out@.map_values(|p: (usize, usize)| (p.0 as int, p.1 as int)) + window_ranges(txs@, order@, i as int, window_ms, min_size),
        decreases n - i,
    {
        let j = find_window_end(txs, order, i, window_ms);
        proof {
            lemma_window_end_bounds(txs@, order@, i as int, i as int + 1, window_ms);
        }
        if j - i >= min_size {
            let ghost prev = out@;
            out.push((i, j));
            proof {
                assert(out@.map_values(|p: (usize, usize)| (p.0 as int, p.1 as int))
                    =~= prev.map_values(|p: (usize, usize)| (p.0 as int, p.1 as int)).push((i as int, j as int)));
            }
            i = j;
        } else {
            i = i + 1;
        }
    }
    proof {
        assert(window_ranges(txs@, order@, i as int, window_ms, min_size) =~= Seq::<(int, int)>::empty());
        assert forall|k: int| 0 <= k < out@.len() implies (#[trigger] out@[k]).0 as int == whole[k].0 && out@[k].1 as int == whole[k].1 by {
            assert(whole[k] == out@.map_values(|p: (usize, usize)| (p.0 as int, p.1 as int))[k]);
        }
    }
    out
}


/// Distinct addresses of the transactions at positions `start..end` of the time order,
/// in order of first appearance.
pub open spec fn distinct_addresses(txs: Seq<TransactionTiming>, order: Seq<usize>, start: int, end: int) -> Seq<Seq<char>>
    decreases end - start,
{
    if end <= start {
        Seq::empty()
    } else {
        let prev = distinct_addresses(txs, order, start, end - 1);
        let a = txs[order[end - 1] as int].address@;
        if prev.contains(a) { prev } else { prev.push(a) }
    }
}

/// Views of a list of strings.
pub open spec fn string_views(v: Seq<String>) -> Seq<Seq<char>> {
    v.map_values(|s: String| s@)
}

/// Whether `v` holds a string equal to `target`.
pub(crate) fn contains_string(v: &Vec<String>, target: &String) -> (r: bool)
    ensures
        r == string_views(v@).contains(target@),
{
    let mut i: usize = 0;
    while i < v.len()
        invariant
            i <= v@.len(),
            forall|k: int| 0 <= k < i ==> v@[k]@ != target@,
        decreases v@.len() - i,
    {
        if v[i] == *target {
            proof {
                assert(string_views(v@)[i as int] == target@);
            }
            return true;
        }
        i = i + 1;
    }
    proof {
        if string_views(v@).contains(target@) {
            let k = choose|k: int| 0 <= k < string_views(v@).len() && string_views(v@)[k] == target@;
            assert(v@[k]@ == target@);
        }
    }
    false
}

/// The distinct addresses of the transactions at positions `start..end` of the time order.
pub fn collect_addresses(txs: &Vec<TransactionTiming>, order: &Vec<usize>, start: usize, end: usize) -> (r: Vec<String>)
    requires
        is_time_order(txs@, order@),
        start <= end <= order@.len(),
    ensures
        string_views(r@) == distinct_addresses(txs@, order@, start as int, end as int),
{
    let mut out: Vec<String> = Vec::new();
    let mut p: usize = start;
    while p < end
        invariant
            is_time_order(txs@, order@),
            start <= p <= end <= order@.len(),
            string_views(out@) == distinct_addresses(txs@, order@, start as int, p as int),
        decreases end - p,
    {
        let addr = &txs[order[p]].address;
        if !contains_string(&out, addr) {
            let ghost prev = out@;
            out.push(addr.clone());
            proof {
                assert(string_views(out@) =~= string_views(prev).push(addr@));
            }
        }
        p = p + 1;
    }
    out
}

/// Distinct addresses hold no address twice.
pub proof fn lemma_distinct_addresses_unique(txs: Seq<TransactionTiming>, order: Seq<usize>, start: int, end: int)
    ensures
        distinct_addresses(txs, order, start, end).no_duplicates(),
        distinct_addresses(txs, order, start, end).len() <= if end >= start { end - start } else { 0 },
    decreases end - start,
{
    if end > start {
        lemma_distinct_addresses_unique(txs, order, start, end - 1);
    }
}

/// Bundle of coordinated transactions.
#[derive(Debug, Clone)]
pub struct TransactionBundle {
    /// Bundle ID
    pub id: usize,
    /// Indices (into the analysed list) of the transactions in the bundle, in time order
    pub transaction_indices: Vec<usize>,
    /// Unique addresses in bundle
    pub unique_addresses: Vec<String>,
    /// Time window of bundle (milliseconds)
    pub time_window_ms: u64,
    /// Whether bundle is coordinated (multiple unique addresses)
    pub is_coordinated: bool,
}

/// The bundle described by the `k`-th window of `windows`.
pub open spec fn bundle_matches(
    txs: Seq<TransactionTiming>,
    order: Seq<usize>,
    window: (int, int),
    k: int,
    b: TransactionBundle,
) -> bool {
    let (s, e) = window;
    &&& b.id == k
    &&& b.transaction_indices@ == order.subrange(s, e)
    &&& string_views(b.unique_addresses@) == distinct_addresses(txs, order, s, e)
    &&& b.time_window_ms == ts_at(txs, order, e - 1) - ts_at(txs, order, s)
    &&& b.is_coordinated == (distinct_addresses(txs, order, s, e).len() > 1)
}

/// Copy of a slice of the time order.
fn copy_range(order: &Vec<usize>, start: usize, end: usize) -> (r: Vec<usize>)
    requires
        start <= end <= order@.len(),
    ensures
        r@ == order@.subrange(start as int, end as int),
{
    let mut out: Vec<usize> = Vec::new();
    let mut p = start;
    while p < end
        invariant
            start <= p <= end <= order@.len(),
            out@ == order@.subrange(start as int, p as int),
        decreases end - p,
    {
        out.push(order[p]);
        proof {
            assert(out@ =~= order@.subrange(start as int, p as int + 1));
        }
        p = p + 1;
    }
    out
}

/// Every window found covers at least `min_size` transactions, at least one, and lies within the order.
pub proof fn lemma_window_ranges_wf(txs: Seq<TransactionTiming>, order: Seq<usize>, i: int, window_ms: u64, min_size: usize)
    requires
        0 <= i,
    ensures
        forall|k: int| 0 <= k < window_ranges(txs, order, i, window_ms, min_size).len() ==> {
            let w = #[trigger] window_ranges(txs, order, i, window_ms, min_size)[k];
            &&& i <= w.0 < w.1 <= order.len()
            &&& w.1 - w.0 >= min_size
        },
    decreases order.len() - i,
{
    if i < order.len() {
        let j = window_end(txs, order, i, i + 1, window_ms);
        lemma_window_end_bounds(txs, order, i, i + 1, window_ms);
        let whole = window_ranges(txs, order, i, window_ms, min_size);
        if j - i >= min_size {
            lemma_window_ranges_wf(txs, order, j, window_ms, min_size);
            let rest = window_ranges(txs, order, j, window_ms, min_size);
            assert(whole == seq![(i, j)] + rest);
            assert forall|k: int| 0 <= k < whole.len() implies {
                let w = #[trigger] whole[k];
                &&& i <= w.0 < w.1 <= order.len()
                &&& w.1 - w.0 >= min_size
            } by {
                if k > 0 {
                    assert(whole[k] == rest[k - 1]);
                } else {
                    assert(whole[k] == (i, j));
                }
            }
        } else {
            lemma_window_ranges_wf(txs, order, i + 1, window_ms, min_size);
            let rest = window_ranges(txs, order, i + 1, window_ms, min_size);
            assert(whole == rest);
            assert forall|k: int| 0 <= k < whole.len() implies {
                let w = #[trigger] whole[k];
                &&& i <= w.0 < w.1 <= order.len()
                &&& w.1 - w.0 >= min_size
            } by {
                assert(whole[k] == rest[k]);
            }
        }
    }
}

/// Windows found by the scan never overlap: each one ends before the next begins.
pub proof fn lemma_window_ranges_disjoint(txs: Seq<TransactionTiming>, order: Seq<usize>, i: int, window_ms: u64, min_size: usize)
    requires
        0 <= i,
    ensures
        forall|k1: int, k2: int| 0 <= k1 < k2 < window_ranges(txs, order, i, window_ms, min_size).len() ==>
            (#[trigger] window_ranges(txs, order, i, window_ms, min_size)[k1]).1
                <= (#[trigger] window_ranges(txs, order, i, window_ms, min_size)[k2]).0,
    decreases order.len() - i,
{
    if i < order.len() {
        let j = window_end(txs, order, i, i + 1, window_ms);
        lemma_window_end_bounds(txs, order, i, i + 1, window_ms);
        let whole = window_ranges(txs, order, i, window_ms, min_size);
        if j - i >= min_size {
            lemma_window_ranges_disjoint(txs, order, j, window_ms, min_size);
            lemma_window_ranges_wf(txs, order, j, window_ms, min_size);
            let rest = window_ranges(txs, order, j, window_ms, min_size);
            assert(whole == seq![(i, j)] + rest);
            assert forall|k1: int, k2: int| 0 <= k1 < k2 < whole.len() implies (#[trigger] whole[k1]).1 <= (#[trigger] whole[k2]).0 by {
                assert(whole[k2] == rest[k2 - 1]);
                if k1 > 0 {
                    assert(whole[k1] == rest[k1 - 1]);
                } else {
                    assert(whole[k1] == (i, j));
                }
            }
        } else {
            lemma_window_ranges_disjoint(txs, order, i + 1, window_ms, min_size);
            let rest = window_ranges(txs, order, i + 1, window_ms, min_size);
            assert(whole == rest);
        }
    }
}

proof fn lemma_window_end_within(txs: Seq<TransactionTiming>, order: Seq<usize>, start: int, from: int, window_ms: u64)
    requires
        0 <= from,
    ensures
        forall|p: int| from <= p < window_end(txs, order, start, from, window_ms) ==>
            ts_at(txs, order, p) - ts_at(txs, order, start) <= window_ms,
    decreases order.len() - from,
{
    if from < order.len() && ts_at(txs, order, from) - ts_at(txs, order, start) <= window_ms {
        lemma_window_end_within(txs, order, start, from + 1, window_ms);
    }
}

/// Every window found spans at most `window_ms` from its first to its last transaction.
pub proof fn lemma_window_ranges_span(txs: Seq<TransactionTiming>, order: Seq<usize>, i: int, window_ms: u64, min_size: usize)
    requires
        0 <= i,
    ensures
        forall|k: int| 0 <= k < window_ranges(txs, order, i, window_ms, min_size).len() ==> {
            let w = #[trigger] window_ranges(txs, order, i, window_ms, min_size)[k];
            ts_at(txs, order, w.1 - 1) - ts_at(txs, order, w.0) <= window_ms
        },
    decreases order.len() - i,
{
    if i < order.len() {
        let j = window_end(txs, order, i, i + 1, window_ms);
        lemma_window_end_bounds(txs, order, i, i + 1, window_ms);
        lemma_window_end_within(txs, order, i, i + 1, window_ms);
        let whole = window_ranges(txs, order, i, window_ms, min_size);
        if j - i >= min_size {
            lemma_window_ranges_span(txs, order, j, window_ms, min_size);
            let rest = window_ranges(txs, order, j, window_ms, min_size);
            assert(whole == seq![(i, j)] + rest);
            assert forall|k: int| 0 <= k < whole.len() implies {
                let w = #[trigger] whole[k];
                ts_at(txs, order, w.1 - 1) - ts_at(txs, order, w.0) <= window_ms
            } by {
                if k > 0 {
                    assert(whole[k] == rest[k - 1]);
                } else {
                    assert(whole[k] == (i, j));
                }
            }
        } else {
            lemma_window_ranges_span(txs, order, i + 1, window_ms, min_size);
            let rest = window_ranges(txs, order, i + 1, window_ms, min_size);
            assert(whole == rest);
        }
    }
}

/// Group transactions into bundles: greedy time windows of at least `min_bundle_size`
/// transactions within `bundle_time_window_ms` of the window's first transaction.
pub fn find_bundles(txs: &Vec<TransactionTiming>, bundle_time_window_ms: u64, min_bundle_size: usize) -> (r: Vec<TransactionBundle>)
    ensures
        is_time_order(txs@, time_order(txs@)),
        r@.len() == spec_windows(txs@, time_order(txs@), bundle_time_window_ms, min_bundle_size).len(),
        forall|k: int| 0 <= k < r@.len() ==> bundle_matches(
            txs@,
            time_order(txs@),
            spec_windows(txs@, time_order(txs@), bundle_time_window_ms, min_bundle_size)[k],
            k,
            #[trigger] r@[k],
        ),
{
    let order = order_by_time(txs);
    let windows = find_windows(txs, &order, bundle_time_window_ms, min_bundle_size);
    let ghost spec_w = spec_windows(txs@, order@, bundle_time_window_ms, min_bundle_size);
    proof {
        lemma_window_ranges_wf(txs@, order@, 0, bundle_time_window_ms, min_bundle_size);
    }
    let mut bundles: Vec<TransactionBundle> = Vec::new();
    let mut k: usize = 0;
    while k < windows.len()
        invariant
            is_time_order(txs@, order@),
            order@ == time_order(txs@),
            spec_w == spec_windows(txs@, order@, bundle_time_window_ms, min_bundle_size),
            windows@.len() == spec_w.len(),
            forall|m: int| 0 <= m < windows@.len() ==> (#[trigger] windows@[m]).0 as int == spec_w[m].0
                && windows@[m].1 as int == spec_w[m].1,
            forall|m: int| 0 <= m < spec_w.len() ==> {
                let w = #[trigger] spec_w[m];
                &&& 0 <= w.0 < w.1 <= order@.len()
            },
            k <= windows@.len(),
            bundles@.len() == k,
            forall|m: int| 0 <= m < k ==> bundle_matches(txs@, order@, spec_w[m], m, #[trigger] bundles@[m]),
        decreases windows@.len() - k,
    {
        let (s, e) = windows[k];
        proof {
            assert(spec_w[k as int].0 == s && spec_w[k as int].1 == e);
            if txs@.len() >= min_bundle_size {
                assert(spec_w == window_ranges(txs@, order@, 0, bundle_time_window_ms, min_bundle_size));
            }
        }
        let members = copy_range(&order, s, e);
        let addresses = collect_addresses(txs, &order, s, e);
        let first_ts = txs[order[s]].timestamp_ms;
        let last_ts = txs[order[e - 1]].timestamp_ms;
        proof {
            if s < e - 1 {
                assert(time_before(txs@, order@[s as int] as int, order@[e - 1] as int));
            }
        }
        let span = ms_between(first_ts, last_ts);
        let coordinated = addresses.len() > 1;
        let bundle = TransactionBundle {
            id: k,
            transaction_indices: members,
            unique_addresses: addresses,
            time_window_ms: span,
            is_coordinated: coordinated,
        };
        proof {
            assert(string_views(bundle.unique_addresses@).len() == bundle.unique_addresses@.len());
        }
        bundles.push(bundle);
        k = k + 1;
    }
    bundles
}


/// Total number of positions covered by a list of windows.
pub open spec fn window_total(ws: Seq<(int, int)>) -> int
    decreases ws.len(),
{
    if ws.len() == 0 { 0 } else { window_total(ws.drop_last()) + (ws.last().1 - ws.last().0) }
}

/// Size of the largest window, 0 for no window.
pub open spec fn window_max(ws: Seq<(int, int)>) -> int
    decreases ws.len(),
{
    if ws.len() == 0 {
        0
    } else {
        let m = window_max(ws.drop_last());
        let s = ws.last().1 - ws.last().0;
        if s > m { s } else { m }
    }
}

/// Number of windows whose transactions come from more than one address.
pub open spec fn coordinated_windows(txs: Seq<TransactionTiming>, order: Seq<usize>, ws: Seq<(int, int)>) -> int
    decreases ws.len(),
{
    if ws.len() == 0 {
        0
    } else {
        coordinated_windows(txs, order, ws.drop_last())
            + if distinct_addresses(txs, order, ws.last().0, ws.last().1).len() > 1 { 1int } else { 0int }
    }
}

proof fn lemma_window_total_concat(a: Seq<(int, int)>, b: Seq<(int, int)>)
    ensures
        window_total(a + b) == window_total(a) + window_total(b),
    decreases b.len(),
{
    if b.len() == 0 {
        assert(a + b =~= a);
    } else {
        lemma_window_total_concat(a, b.drop_last());
        assert((a + b).drop_last() =~= a + b.drop_last());
        assert((a + b).last() == b.last());
    }
}

/// The windows found from position `i` on cover at most the `order.len() - i` remaining positions.
pub proof fn lemma_window_ranges_total(txs: Seq<TransactionTiming>, order: Seq<usize>, i: int, window_ms: u64, min_size: usize)
    requires
        0 <= i <= order.len(),
    ensures
        window_total(window_ranges(txs, order, i, window_ms, min_size)) <= order.len() - i,
    decreases order.len() - i,
{
    if i < order.len() {
        let j = window_end(txs, order, i, i + 1, window_ms);
        lemma_window_end_bounds(txs, order, i, i + 1, window_ms);
        if j - i >= min_size {
            lemma_window_ranges_total(txs, order, j, window_ms, min_size);
            let rest = window_ranges(txs, order, j, window_ms, min_size);
            lemma_window_total_concat(seq![(i, j)], rest);
            assert(seq![(i, j)].drop_last() =~= Seq::<(int, int)>::empty());
            assert(window_total(seq![(i, j)]) == j - i) by {
                reveal_with_fuel(window_total, 2);
            }
        } else {
            lemma_window_ranges_total(txs, order, i + 1, window_ms, min_size);
        }
    } else {
        assert(window_ranges(txs, order, i, window_ms, min_size) =~= Seq::<(int, int)>::empty());
    }
}

proof fn lemma_window_total_prefix(ws: Seq<(int, int)>, k: int)
    requires
        0 <= k <= ws.len(),
        forall|m: int| 0 <= m < ws.len() ==> (#[trigger] ws[m]).0 <= ws[m].1,
    ensures
        0 <= window_total(ws.take(k)) <= window_total(ws),
        window_max(ws.take(k)) <= window_total(ws.take(k)),
    decreases ws.len(),
{
    if ws.len() > 0 {
        if k == ws.len() {
            assert(ws.take(k) =~= ws);
            lemma_window_total_prefix(ws.drop_last(), k - 1);
            assert(ws.drop_last().take(k - 1) =~= ws.drop_last());
        } else {
            lemma_window_total_prefix(ws.drop_last(), k);
            assert(ws.drop_last().take(k) =~= ws.take(k));
        }
    } else {
        assert(ws.take(k) =~= ws);
    }
}

proof fn lemma_coordinated_prefix(txs: Seq<TransactionTiming>, order: Seq<usize>, ws: Seq<(int, int)>)
    ensures
        0 <= coordinated_windows(txs, order, ws) <= ws.len(),
    decreases ws.len(),
{
    if ws.len() > 0 {
        lemma_coordinated_prefix(txs, order, ws.drop_last());
    }
}

/// Integer summary of the bundles found in a transaction list.
#[derive(Debug, Clone)]
pub struct BundleCounts {
    /// Number of bundles detected
    pub bundle_count: usize,
    /// Total transactions in bundles
    pub bundled_transaction_count: usize,
    /// Largest bundle size
    pub max_bundle_size: usize,
    /// Coordinated bundles (multiple addresses in tight timing)
    pub coordinated_bundle_count: usize,
}

/// The bundle counts of `txs`, as the bundle detector reports them.
pub open spec fn spec_bundle_counts(txs: Seq<TransactionTiming>, window_ms: u64, min_size: usize) -> BundleCounts {
    let ws = spec_windows(txs, time_order(txs), window_ms, min_size);
    BundleCounts {
        bundle_count: ws.len() as usize,
        bundled_transaction_count: window_total(ws) as usize,
        max_bundle_size: window_max(ws) as usize,
        coordinated_bundle_count: coordinated_windows(txs, time_order(txs), ws) as usize,
    }
}

/// Detect transaction bundles and count them: how many, how many transactions they hold,
/// the largest, and how many come from more than one address.
pub fn detect_bundles(txs: &Vec<TransactionTiming>, bundle_time_window_ms: u64, min_bundle_size: usize) -> (r: BundleCounts)
    ensures
        r == spec_bundle_counts(txs@, bundle_time_window_ms, min_bundle_size),
        r.bundled_transaction_count <= txs@.len(),
        r.max_bundle_size <= r.bundled_transaction_count,
        r.coordinated_bundle_count <= r.bundle_count,
{
    let bundles = find_bundles(txs, bundle_time_window_ms, min_bundle_size);
    let ghost order = time_order(txs@);
    let ghost ws = spec_windows(txs@, order, bundle_time_window_ms, min_bundle_size);
    proof {
        lemma_window_ranges_wf(txs@, order, 0, bundle_time_window_ms, min_bundle_size);
        lemma_window_ranges_total(txs@, order, 0, bundle_time_window_ms, min_bundle_size);
        if txs@.len() >= min_bundle_size {
            assert(ws == window_ranges(txs@, order, 0, bundle_time_window_ms, min_bundle_size));
        } else {
            assert(ws =~= Seq::<(int, int)>::empty());
        }
        assert(window_total(ws) <= txs@.len());
    }
    let n = txs.len();
    let mut total: usize = 0;
    let mut largest: usize = 0;
    let mut coordinated: usize = 0;
    let mut k: usize = 0;
    while k < bundles.len()
        invariant
            bundles@.len() == ws.len(),
            forall|m: int| 0 <= m < bundles@.len() ==> bundle_matches(txs@, order, ws[m], m, #[trigger] bundles@[m]),
            forall|m: int| 0 <= m < ws.len() ==> (#[trigger] ws[m]).0 <= ws[m].1,
            forall|m: int| 0 <= m < ws.len() ==> 0 <= (#[trigger] ws[m]).0 && ws[m].1 <= order.len(),
            order.len() == txs@.len(),
            n == txs@.len(),
            window_total(ws) <= txs@.len(),
            k <= bundles@.len(),
            total == window_total(ws.take(k as int)),
            largest == window_max(ws.take(k as int)),
            coordinated == coordinated_windows(txs@, order, ws.take(k as int)),
        decreases bundles@.len() - k,
    {
        let size = bundles[k].transaction_indices.len();
        proof {
            assert(bundle_matches(txs@, order, ws[k as int], k as int, bundles@[k as int]));
            assert(ws.take(k as int + 1).drop_last() =~= ws.take(k as int));
            assert(ws.take(k as int + 1).last() == ws[k as int]);
            lemma_window_total_prefix(ws, k as int + 1);
            lemma_coordinated_prefix(txs@, order, ws.take(k as int));
            assert(bundles@[k as int].transaction_indices@ == order.subrange(ws[k as int].0, ws[k as int].1));
            assert(size == ws[k as int].1 - ws[k as int].0);
            assert(total + size == window_total(ws.take(k as int + 1)));
            assert(window_total(ws.take(k as int + 1)) <= window_total(ws));
            assert(total + size <= txs@.len());
        }
        total = total + size;
        if size > largest {
            largest = size;
        }
        if bundles[k].is_coordinated {
            coordinated = coordinated + 1;
        }
        k = k + 1;
    }
    proof {
        assert(ws.take(k as int) =~= ws);
        lemma_window_total_prefix(ws, k as int);
        lemma_coordinated_prefix(txs@, order, ws);
    }
    BundleCounts {
        bundle_count: bundles.len(),
        bundled_transaction_count: total,
        max_bundle_size: largest,
        coordinated_bundle_count: coordinated,
    }
}


/// Whether a transaction came in faster after deployment than a human could act.
pub open spec fn is_bot_tx(tx: TransactionTiming, bot_timing_threshold_ms: u64) -> bool {
    tx.time_since_deploy_ms < bot_timing_threshold_ms
}

/// Number of bot transactions among the first `n`.
pub open spec fn bot_count(txs: Seq<TransactionTiming>, thr: u64, n: int) -> int
    decreases n,
{
    if n <= 0 {
        0
    } else {
        bot_count(txs, thr, n - 1) + if is_bot_tx(txs[n - 1], thr) { 1int } else { 0int }
    }
}

/// Sum of the response times of the bot transactions among the first `n`.
pub open spec fn bot_response_total(txs: Seq<TransactionTiming>, thr: u64, n: int) -> int
    decreases n,
{
    if n <= 0 {
        0
    } else {
        bot_response_total(txs, thr, n - 1) + if is_bot_tx(txs[n - 1], thr) {
            txs[n - 1].time_since_deploy_ms as int
        } else {
            0int
        }
    }
}

/// Distinct addresses of the bot transactions among the first `n`, in order of first appearance.
pub open spec fn bot_addresses(txs: Seq<TransactionTiming>, thr: u64, n: int) -> Seq<Seq<char>>
    decreases n,
{
    if n <= 0 {
        Seq::empty()
    } else {
        let prev = bot_addresses(txs, thr, n - 1);
        let a = txs[n - 1].address@;
        if is_bot_tx(txs[n - 1], thr) && !prev.contains(a) { prev.push(a) } else { prev }
    }
}

/// Bot counts never exceed what they count from.
pub proof fn lemma_bot_counts_bounded(txs: Seq<TransactionTiming>, thr: u64, n: int)
    requires
        0 <= n,
    ensures
        0 <= bot_addresses(txs, thr, n).len() <= bot_count(txs, thr, n) <= n,
        bot_addresses(txs, thr, n).no_duplicates(),
        0 <= bot_response_total(txs, thr, n),
    decreases n,
{
    if n > 0 {
        lemma_bot_counts_bounded(txs, thr, n - 1);
    }
}

/// Integer part of the bot activity of a transaction list.
#[derive(Debug, Clone)]
pub struct BotCounts {
    /// Number of transactions classified as bot activity
    pub bot_transaction_count: usize,
    /// Number of unique bot addresses detected
    pub unique_bot_addresses: usize,
    /// Sum of the deploy-to-transaction times of the bot transactions (milliseconds)
    pub total_bot_response_ms: u64,
}

/// Count the transactions that came within `bot_timing_threshold_ms` of deployment, their
/// distinct addresses and their summed response time.
pub fn analyze_bot_activity(txs: &Vec<TransactionTiming>, bot_timing_threshold_ms: u64) -> (r: BotCounts)
    requires
        bot_response_total(txs@, bot_timing_threshold_ms, txs@.len() as int) <= u64::MAX,
    ensures
        r.bot_transaction_count == bot_count(txs@, bot_timing_threshold_ms, txs@.len() as int),
        r.unique_bot_addresses == bot_addresses(txs@, bot_timing_threshold_ms, txs@.len() as int).len(),
        r.total_bot_response_ms == bot_response_total(txs@, bot_timing_threshold_ms, txs@.len() as int),
        r.unique_bot_addresses <= r.bot_transaction_count <= txs@.len(),
{
    let n = txs.len();
    let ghost thr = bot_timing_threshold_ms;
    let mut count: usize = 0;
    let mut total: u64 = 0;
    let mut seen: Vec<String> = Vec::new();
    let mut i: usize = 0;
    proof {
        lemma_bot_counts_bounded(txs@, thr, n as int);
    }
    while i < n
        invariant
            n == txs@.len(),
            i <= n,
            thr == bot_timing_threshold_ms,
            count == bot_count(txs@, thr, i as int),
            total == bot_response_total(txs@, thr, i as int),
            string_views(seen@) == bot_addresses(txs@, thr, i as int),
            bot_response_total(txs@, thr, n as int) <= u64::MAX,
        decreases n - i,
    {
        proof {
            lemma_bot_counts_bounded(txs@, thr, i as int + 1);
            lemma_bot_total_monotone(txs@, thr, i as int + 1, n as int);
        }
        let tx = &txs[i];
        if tx.time_since_deploy_ms < bot_timing_threshold_ms {
            count = count + 1;
            total = total + tx.time_since_deploy_ms;
            if !contains_string(&seen, &tx.address) {
                let ghost prev = seen@;
                seen.push(tx.address.clone());
                proof {
                    assert(string_views(seen@) =~= string_views(prev).push(tx.address@));
                }
            }
        }
        i = i + 1;
    }
    proof {
        lemma_bot_counts_bounded(txs@, thr, n as int);
    }
    BotCounts { bot_transaction_count: count, unique_bot_addresses: seen.len(), total_bot_response_ms: total }
}

proof fn lemma_bot_total_monotone(txs: Seq<TransactionTiming>, thr: u64, m: int, n: int)
    requires
        0 <= m <= n,
    ensures
        bot_response_total(txs, thr, m) <= bot_response_total(txs, thr, n),
    decreases n - m,
{
    if m < n {
        lemma_bot_total_monotone(txs, thr, m, n - 1);
    }
}

/// Suspicion of a cluster in tenths (0 to 10): its size, whether several addresses take part,
/// and how tight its timing is.
pub open spec fn spec_cluster_suspicion_tenths(
    tx_count: int,
    unique_addresses: int,
    time_window_ms: int,
    min_bundle_size: usize,
    bundle_time_window_ms: u64,
) -> int {
    let size = if tx_count >= 10 { 4int } else if tx_count >= min_bundle_size { 2int } else { 0int };
    let coordinated = if unique_addresses > 1 { 3int } else { 0int };
    let timing = if time_window_ms < 100 { 5int } else if time_window_ms < bundle_time_window_ms { 3int } else { 0int };
    let sum = size + coordinated + timing;
    if sum > 10 { 10 } else { sum }
}

/// Cluster suspicion score in tenths.
pub fn cluster_suspicion_tenths(
    tx_count: usize,
    unique_addresses: usize,
    time_window_ms: u64,
    min_bundle_size: usize,
    bundle_time_window_ms: u64,
) -> (r: u32)
    ensures
        r == spec_cluster_suspicion_tenths(tx_count as int, unique_addresses as int, time_window_ms as int, min_bundle_size, bundle_time_window_ms),
        r <= 10,
{
    let mut sum: u32 = 0;
    if tx_count >= 10 {
        sum = sum + 4;
    } else if tx_count >= min_bundle_size {
        sum = sum + 2;
    }
    if unique_addresses > 1 {
        sum = sum + 3;
    }
    if time_window_ms < 100 {
        sum = sum + 5;
    } else if time_window_ms < bundle_time_window_ms {
        sum = sum + 3;
    }
    if sum > 10 { 10 } else { sum }
}

/// Very tight timing counts most: the same cluster spanning under 100 ms scores two tenths more
/// (up to the cap of ten) than when it spans 100 ms or more but still under the bundle window,
/// and five tenths more than when it spans the whole window or longer. So a cluster of at least
/// `min_bundle_size` (and fewer than ten) transactions from one address, spanning under 100 ms,
/// scores seven tenths and counts as suspicious.
pub proof fn lemma_tight_timing_suspicion(
    tx_count: int,
    unique_addresses: int,
    tight_ms: int,
    loose_ms: int,
    slow_ms: int,
    min_bundle_size: usize,
    bundle_time_window_ms: u64,
)
    requires
        tight_ms < 100,
        100 <= loose_ms < bundle_time_window_ms,
        slow_ms >= 100,
        slow_ms >= bundle_time_window_ms,
    ensures
        ({
            let tight = spec_cluster_suspicion_tenths(tx_count, unique_addresses, tight_ms, min_bundle_size, bundle_time_window_ms);
            let loose = spec_cluster_suspicion_tenths(tx_count, unique_addresses, loose_ms, min_bundle_size, bundle_time_window_ms);
            let slow = spec_cluster_suspicion_tenths(tx_count, unique_addresses, slow_ms, min_bundle_size, bundle_time_window_ms);
            &&& tight == if loose + 2 > 10 { 10 } else { loose + 2 }
            &&& tight == if slow + 5 > 10 { 10 } else { slow + 5 }
            &&& loose < 10 ==> tight > loose
        }),
        min_bundle_size <= tx_count < 10 && unique_addresses <= 1 ==>
            spec_cluster_suspicion_tenths(tx_count, unique_addresses, tight_ms, min_bundle_size, bundle_time_window_ms) == 7,
{
}

/// A window is a suspicious cluster when its suspicion is above one half.
pub open spec fn window_suspicious(txs: Seq<TransactionTiming>, order: Seq<usize>, w: (int, int), window_ms: u64, min_size: usize) -> bool {
    spec_cluster_suspicion_tenths(
        w.1 - w.0,
        distinct_addresses(txs, order, w.0, w.1).len() as int,
        ts_at(txs, order, w.1 - 1) - ts_at(txs, order, w.0),
        min_size,
        window_ms,
    ) > 5
}

/// The suspicious windows among `ws`, in order.
pub open spec fn suspicious_windows(txs: Seq<TransactionTiming>, order: Seq<usize>, ws: Seq<(int, int)>, window_ms: u64, min_size: usize) -> Seq<(int, int)>
    decreases ws.len(),
{
    if ws.len() == 0 {
        Seq::empty()
    } else {
        let prev = suspicious_windows(txs, order, ws.drop_last(), window_ms, min_size);
        if window_suspicious(txs, order, ws.last(), window_ms, min_size) { prev.push(ws.last()) } else { prev }
    }
}

/// The suspicious windows are windows of `ws` whose suspicion is above one half, in order.
pub proof fn lemma_suspicious_windows_kept(txs: Seq<TransactionTiming>, order: Seq<usize>, ws: Seq<(int, int)>, window_ms: u64, min_size: usize)
    ensures
        suspicious_windows(txs, order, ws, window_ms, min_size).len() <= ws.len(),
        forall|k: int| 0 <= k < suspicious_windows(txs, order, ws, window_ms, min_size).len() ==>
            window_suspicious(txs, order, #[trigger] suspicious_windows(txs, order, ws, window_ms, min_size)[k], window_ms, min_size)
            && ws.contains(suspicious_windows(txs, order, ws, window_ms, min_size)[k]),
    decreases ws.len(),
{
    if ws.len() > 0 {
        let prev = suspicious_windows(txs, order, ws.drop_last(), window_ms, min_size);
        lemma_suspicious_windows_kept(txs, order, ws.drop_last(), window_ms, min_size);
        let sw = suspicious_windows(txs, order, ws, window_ms, min_size);
        assert forall|k: int| 0 <= k < sw.len() implies
            window_suspicious(txs, order, #[trigger] sw[k], window_ms, min_size) && ws.contains(sw[k]) by {
            if k < prev.len() {
                assert(sw[k] == prev[k]);
                let j = choose|j: int| 0 <= j < ws.drop_last().len() && ws.drop_last()[j] == prev[k];
                assert(ws[j] == prev[k]);
            } else {
                assert(sw[k] == ws.last());
                assert(ws[ws.len() - 1] == ws.last());
            }
        }
    }
}

/// Suspicious cluster of related transactions.
#[derive(Debug, Clone)]
pub struct SuspiciousCluster {
    /// Cluster ID
    pub id: usize,
    /// Addresses involved in cluster
    pub addresses: Vec<String>,
    /// Number of transactions in cluster
    pub transaction_count: usize,
    /// Time window of cluster (milliseconds)
    pub time_window_ms: u64,
    /// Cluster suspicion score in tenths (0 to 10)
    pub suspicion_tenths: u32,
}

/// The cluster described by window `w` with id `k`.
pub open spec fn cluster_matches(
    txs: Seq<TransactionTiming>,
    order: Seq<usize>,
    w: (int, int),
    k: int,
    window_ms: u64,
    min_size: usize,
    c: SuspiciousCluster,
) -> bool {
    &&& c.id == k
    &&& string_views(c.addresses@) == distinct_addresses(txs, order, w.0, w.1)
    &&& c.transaction_count == w.1 - w.0
    &&& c.time_window_ms == ts_at(txs, order, w.1 - 1) - ts_at(txs, order, w.0)
    &&& c.suspicion_tenths == spec_cluster_suspicion_tenths(
        w.1 - w.0,
        distinct_addresses(txs, order, w.0, w.1).len() as int,
        ts_at(txs, order, w.1 - 1) - ts_at(txs, order, w.0),
        min_size,
        window_ms,
    )
}

/// Detect suspicious clusters of coordinated activity: the greedy time windows of at least
/// `min_bundle_size` transactions whose suspicion is above one half, numbered in order.
pub fn detect_suspicious_clusters(txs: &Vec<TransactionTiming>, bundle_time_window_ms: u64, min_bundle_size: usize) -> (r: Vec<SuspiciousCluster>)
    ensures
        r@.len() == suspicious_windows(
            txs@,
            time_order(txs@),
            spec_windows(txs@, time_order(txs@), bundle_time_window_ms, min_bundle_size),
            bundle_time_window_ms,
            min_bundle_size,
        ).len(),
        forall|k: int| 0 <= k < r@.len() ==> cluster_matches(
            txs@,
            time_order(txs@),
            suspicious_windows(
                txs@,
                time_order(txs@),
                spec_windows(txs@, time_order(txs@), bundle_time_window_ms, min_bundle_size),
                bundle_time_window_ms,
                min_bundle_size,
            )[k],
            k,
            bundle_time_window_ms,
            min_bundle_size,
            #[trigger] r@[k],
        ),
{
    let order = order_by_time(txs);
    let windows = find_windows(txs, &order, bundle_time_window_ms, min_bundle_size);
    let ghost ws = spec_windows(txs@, order@, bundle_time_window_ms, min_bundle_size);
    proof {
        lemma_window_ranges_wf(txs@, order@, 0, bundle_time_window_ms, min_bundle_size);
        if txs@.len() >= min_bundle_size {
            assert(ws == window_ranges(txs@, order@, 0, bundle_time_window_ms, min_bundle_size));
        } else {
            assert(ws =~= Seq::<(int, int)>::empty());
        }
    }
    let mut clusters: Vec<SuspiciousCluster> = Vec::new();
    let mut k: usize = 0;
    while k < windows.len()
        invariant
            is_time_order(txs@, order@),
            order@ == time_order(txs@),
            ws == spec_windows(txs@, order@, bundle_time_window_ms, min_bundle_size),
            windows@.len() == ws.len(),
            forall|m: int| 0 <= m < windows@.len() ==> (#[trigger] windows@[m]).0 as int == ws[m].0
                && windows@[m].1 as int == ws[m].1,
            forall|m: int| 0 <= m < ws.len() ==> {
                let w = #[trigger] ws[m];
                &&& 0 <= w.0 < w.1 <= order@.len()
            },
            k <= windows@.len(),
            clusters@.len() == suspicious_windows(txs@, order@, ws.take(k as int), bundle_time_window_ms, min_bundle_size).len(),
            forall|m: int| 0 <= m < clusters@.len() ==> cluster_matches(
                txs@,
                order@,
                suspicious_windows(txs@, order@, ws.take(k as int), bundle_time_window_ms, min_bundle_size)[m],
                m,
                bundle_time_window_ms,
                min_bundle_size,
                #[trigger] clusters@[m],
            ),
        decreases windows@.len() - k,
    {
        let (s, e) = windows[k];
        let ghost before = suspicious_windows(txs@, order@, ws.take(k as int), bundle_time_window_ms, min_bundle_size);
        proof {
            assert(ws.take(k as int + 1).drop_last() =~= ws.take(k as int));
            assert(ws.take(k as int + 1).last() == ws[k as int]);
        }
        let addresses = collect_addresses(txs, &order, s, e);
        let first_ts = txs[order[s]].timestamp_ms;
        let last_ts = txs[order[e - 1]].timestamp_ms;
        proof {
            if s < e - 1 {
                assert(time_before(txs@, order@[s as int] as int, order@[e - 1] as int));
            }
        }
        let span = ms_between(first_ts, last_ts);
        let tenths = cluster_suspicion_tenths(e - s, addresses.len(), span, min_bundle_size, bundle_time_window_ms);
        proof {
            assert(string_views(addresses@).len() == addresses@.len());
        }
        if tenths > 5 {
            let id = clusters.len();
            let cluster = SuspiciousCluster {
                id,
                addresses,
                transaction_count: e - s,
                time_window_ms: span,
                suspicion_tenths: tenths,
            };
            clusters.push(cluster);
            proof {
                let after = suspicious_windows(txs@, order@, ws.take(k as int + 1), bundle_time_window_ms, min_bundle_size);
                assert(after == before.push(ws[k as int]));
                assert forall|m: int| 0 <= m < clusters@.len() implies cluster_matches(
                    txs@, order@, after[m], m, bundle_time_window_ms, min_bundle_size, #[trigger] clusters@[m],
                ) by {
                    if m < before.len() {
                        assert(after[m] == before[m]);
                    }
                }
            }
        } else {
            proof {
                let after = suspicious_windows(txs@, order@, ws.take(k as int + 1), bundle_time_window_ms, min_bundle_size);
                assert(after == before);
            }
        }
        k = k + 1;
    }
    proof {
        assert(ws.take(k as int) =~= ws);
    }
    clusters
}


/// Number of transactions from address `a` among the first `n`.
pub open spec fn addr_count(txs: Seq<TransactionTiming>, a: Seq<char>, n: int) -> int
    decreases n,
{
    if n <= 0 {
        0
    } else {
        addr_count(txs, a, n - 1) + if txs[n - 1].address@ == a { 1int } else { 0int }
    }
}

/// Earliest timestamp of a transaction from `a` among the first `n` (`i64::MAX` if none).
pub open spec fn first_seen_ms(txs: Seq<TransactionTiming>, a: Seq<char>, n: int) -> int
    decreases n,
{
    if n <= 0 {
        i64::MAX as int
    } else {
        let prev = first_seen_ms(txs, a, n - 1);
        if txs[n - 1].address@ == a && txs[n - 1].timestamp_ms < prev { txs[n - 1].timestamp_ms as int } else { prev }
    }
}

/// Latest timestamp of a transaction from `a` among the first `n` (`i64::MIN` if none).
pub open spec fn last_seen_ms(txs: Seq<TransactionTiming>, a: Seq<char>, n: int) -> int
    decreases n,
{
    if n <= 0 {
        i64::MIN as int
    } else {
        let prev = last_seen_ms(txs, a, n - 1);
        if txs[n - 1].address@ == a && txs[n - 1].timestamp_ms > prev { txs[n - 1].timestamp_ms as int } else { prev }
    }
}

/// Distinct addresses of the first `n` transactions, in order of first appearance.
pub open spec fn all_addresses(txs: Seq<TransactionTiming>, n: int) -> Seq<Seq<char>>
    decreases n,
{
    if n <= 0 {
        Seq::empty()
    } else {
        let prev = all_addresses(txs, n - 1);
        let a = txs[n - 1].address@;
        if prev.contains(a) { prev } else { prev.push(a) }
    }
}

proof fn lemma_all_addresses(txs: Seq<TransactionTiming>, n: int)
    requires
        0 <= n <= txs.len(),
    ensures
        all_addresses(txs, n).no_duplicates(),
        forall|i: int| 0 <= i < n ==> all_addresses(txs, n).contains(#[trigger] txs[i].address@),
    decreases n,
{
    if n > 0 {
        lemma_all_addresses(txs, n - 1);
        let prev = all_addresses(txs, n - 1);
        assert forall|i: int| 0 <= i < n implies all_addresses(txs, n).contains(#[trigger] txs[i].address@) by {
            if i < n - 1 {
                let k = choose|k: int| 0 <= k < prev.len() && prev[k] == txs[i].address@;
                assert(all_addresses(txs, n)[k] == prev[k]);
            } else if !prev.contains(txs[i].address@) {
                assert(all_addresses(txs, n)[prev.len() as int] == txs[i].address@);
            }
        }
    }
}

proof fn lemma_addr_stats_bounds(txs: Seq<TransactionTiming>, a: Seq<char>, n: int)
    requires
        0 <= n <= txs.len(),
    ensures
        0 <= addr_count(txs, a, n) <= n,
        i64::MIN <= first_seen_ms(txs, a, n) <= i64::MAX,
        i64::MIN <= last_seen_ms(txs, a, n) <= i64::MAX,
    decreases n,
{
    if n > 0 {
        lemma_addr_stats_bounds(txs, a, n - 1);
    }
}

/// Activity of one address that sent several transactions.
#[derive(Debug, Clone)]
pub struct AddressActivity {
    /// Wallet address
    pub address: String,
    /// Number of transactions from this address
    pub transaction_count: usize,
    /// First transaction timestamp (milliseconds)
    pub first_timestamp_ms: i64,
    /// Last transaction timestamp (milliseconds)
    pub last_timestamp_ms: i64,
}

/// `e` is the true activity record of an address seen at least twice in `txs`.
pub open spec fn activity_ok(txs: Seq<TransactionTiming>, e: AddressActivity) -> bool {
    &&& e.transaction_count == addr_count(txs, e.address@, txs.len() as int)
    &&& e.transaction_count >= 2
    &&& e.first_timestamp_ms == first_seen_ms(txs, e.address@, txs.len() as int)
    &&& e.last_timestamp_ms == last_seen_ms(txs, e.address@, txs.len() as int)
}

/// The addresses of a list of activity records.
pub open spec fn activity_addresses(v: Seq<AddressActivity>) -> Seq<Seq<char>> {
    v.map_values(|e: AddressActivity| e.address@)
}

/// Count, first and last timestamp of the transactions from `addr`.
fn address_stats(txs: &Vec<TransactionTiming>, addr: &String) -> (r: (usize, i64, i64))
    ensures
        r.0 == addr_count(txs@, addr@, txs@.len() as int),
        r.1 == first_seen_ms(txs@, addr@, txs@.len() as int),
        r.2 == last_seen_ms(txs@, addr@, txs@.len() as int),
{
    let n = txs.len();
    let mut count: usize = 0;
    let mut first: i64 = i64::MAX;
    let mut last: i64 = i64::MIN;
    let mut i: usize = 0;
    while i < n
        invariant
            n == txs@.len(),
            i <= n,
            count == addr_count(txs@, addr@, i as int),
            first == first_seen_ms(txs@, addr@, i as int),
            last == last_seen_ms(txs@, addr@, i as int),
        decreases n - i,
    {
        proof {
            lemma_addr_stats_bounds(txs@, addr@, i as int);
        }
        let tx = &txs[i];
        if tx.address == *addr {
            count = count + 1;
            if tx.timestamp_ms < first {
                first = tx.timestamp_ms;
            }
            if tx.timestamp_ms > last {
                last = tx.timestamp_ms;
            }
        }
        i = i + 1;
    }
    (count, first, last)
}

/// The distinct addresses of all transactions, in order of first appearance.
fn distinct_tx_addresses(txs: &Vec<TransactionTiming>) -> (r: Vec<String>)
    ensures
        string_views(r@) == all_addresses(txs@, txs@.len() as int),
{
    let n = txs.len();
    let mut out: Vec<String> = Vec::new();
    let mut i: usize = 0;
    while i < n
        invariant
            n == txs@.len(),
            i <= n,
            string_views(out@) == all_addresses(txs@, i as int),
        decreases n - i,
    {
        let addr = &txs[i].address;
        if !contains_string(&out, addr) {
            let ghost prev = out@;
            out.push(addr.clone());
            proof {
                assert(string_views(out@) =~= string_views(prev).push(addr@));
            }
        }
        i = i + 1;
    }
    out
}

/// Detect repeated addresses (potential bots): every address with at least two transactions,
/// with its transaction count and first and last timestamp, by transaction count descending.
pub fn detect_repeated_addresses(txs: &Vec<TransactionTiming>) -> (r: Vec<AddressActivity>)
    ensures
        forall|k: int| 0 <= k < r@.len() ==> activity_ok(txs@, #[trigger] r@[k]),
        activity_addresses(r@).no_duplicates(),
        forall|i: int|
            0 <= i < txs@.len() && addr_count(txs@, (#[trigger] txs@[i]).address@, txs@.len() as int) >= 2
                ==> activity_addresses(r@).contains(txs@[i].address@),
        forall|i: int, j: int|
            0 <= i < j < r@.len() ==> (#[trigger] r@[i]).transaction_count >= (#[trigger] r@[j]).transaction_count,
{
    let addrs = distinct_tx_addresses(txs);
    let ghost av = string_views(addrs@);
    proof {
        lemma_all_addresses(txs@, txs@.len() as int);
    }
    // the addresses seen at least twice, in order of first appearance
    let mut candidates: Vec<AddressActivity> = Vec::new();
    let mut q: usize = 0;
    while q < addrs.len()
        invariant
            av == string_views(addrs@),
            av.no_duplicates(),
            q <= addrs@.len(),
            forall|m: int| 0 <= m < candidates@.len() ==> activity_ok(txs@, #[trigger] candidates@[m]),
            activity_addresses(candidates@).no_duplicates(),
            forall|m: int| 0 <= m < candidates@.len() ==> exists|p: int| 0 <= p < q && av[p] == (#[trigger] candidates@[m]).address@,
            forall|p: int| 0 <= p < q && addr_count(txs@, #[trigger] av[p], txs@.len() as int) >= 2
                ==> activity_addresses(candidates@).contains(av[p]),
        decreases addrs@.len() - q,
    {
        let (count, first, last) = address_stats(txs, &addrs[q]);
        let ghost a = addrs@[q as int]@;
        proof {
            assert(av[q as int] == a);
        }
        if count >= 2 {
            let ghost prev = candidates@;
            candidates.push(AddressActivity {
                address: addrs[q].clone(),
                transaction_count: count,
                first_timestamp_ms: first,
                last_timestamp_ms: last,
            });
            proof {
                assert(activity_addresses(candidates@) =~= activity_addresses(prev).push(a));
                assert(!activity_addresses(prev).contains(a)) by {
                    if activity_addresses(prev).contains(a) {
                        let m = choose|m: int| 0 <= m < prev.len() && activity_addresses(prev)[m] == a;
                        assert(prev[m].address@ == a);
                        let p = choose|p: int| 0 <= p < q && av[p] == prev[m].address@;
                        assert(av[p] == av[q as int]);
                    }
                }
                assert forall|m: int| 0 <= m < candidates@.len() implies exists|p: int| 0 <= p < q + 1 && av[p] == (#[trigger] candidates@[m]).address@ by {
                    if m < prev.len() {
                        assert(candidates@[m] == prev[m]);
                    } else {
                        assert(av[q as int] == candidates@[m].address@);
                    }
                }
                assert forall|p: int| 0 <= p < q + 1 && addr_count(txs@, #[trigger] av[p], txs@.len() as int) >= 2
                    implies activity_addresses(candidates@).contains(av[p]) by {
                    if p < q {
                        let m = choose|m: int| 0 <= m < prev.len() && activity_addresses(prev)[m] == av[p];
                        assert(activity_addresses(candidates@)[m] == av[p]);
                    } else {
                        assert(activity_addresses(candidates@)[prev.len() as int] == av[p]);
                    }
                }
            }
        }
        q = q + 1;
    }
    let ghost cv = activity_addresses(candidates@);
    // stable sort by transaction count, descending
    let mut sorted: Vec<AddressActivity> = Vec::new();
    let mut c: usize = 0;
    while c < candidates.len()
        invariant
            cv == activity_addresses(candidates@),
            cv.no_duplicates(),
            forall|m: int| 0 <= m < candidates@.len() ==> activity_ok(txs@, #[trigger] candidates@[m]),
            c <= candidates@.len(),
            forall|m: int| 0 <= m < sorted@.len() ==> activity_ok(txs@, #[trigger] sorted@[m]),
            activity_addresses(sorted@).no_duplicates(),
            forall|m: int| 0 <= m < sorted@.len() ==> exists|p: int| 0 <= p < c && cv[p] == (#[trigger] sorted@[m]).address@,
            forall|p: int| 0 <= p < c ==> activity_addresses(sorted@).contains(#[trigger] cv[p]),
            forall|i: int, j: int|
                0 <= i < j < sorted@.len() ==> (#[trigger] sorted@[i]).transaction_count >= (#[trigger] sorted@[j]).transaction_count,
        decreases candidates@.len() - c,
    {
        let item_count = candidates[c].transaction_count;
        let mut pos: usize = 0;
        while pos < sorted.len() && sorted[pos].transaction_count >= item_count
            invariant
                pos <= sorted@.len(),
                forall|i: int| 0 <= i < pos ==> (#[trigger] sorted@[i]).transaction_count >= item_count,
            decreases sorted@.len() - pos,
        {
            pos = pos + 1;
        }
        let ghost before = sorted@;
        let ghost a = cv[c as int];
        proof {
            assert(candidates@[c as int].address@ == a);
            assert forall|i: int| pos <= i < before.len() implies (#[trigger] before[i]).transaction_count < item_count by {
                if pos < before.len() && i > pos {
                    assert(before[pos as int].transaction_count >= before[i].transaction_count);
                }
            }
            assert(!activity_addresses(before).contains(a)) by {
                if activity_addresses(before).contains(a) {
                    let m = choose|m: int| 0 <= m < before.len() && activity_addresses(before)[m] == a;
                    assert(before[m].address@ == a);
                    let p = choose|p: int| 0 <= p < c && cv[p] == before[m].address@;
                    assert(cv[p] == cv[c as int]);
                }
            }
        }
        let item = AddressActivity {
            address: candidates[c].address.clone(),
            transaction_count: candidates[c].transaction_count,
            first_timestamp_ms: candidates[c].first_timestamp_ms,
            last_timestamp_ms: candidates[c].last_timestamp_ms,
        };
        sorted.insert(pos, item);
        proof {
            let after = sorted@;
            assert(after.len() == before.len() + 1);
            assert forall|i: int| 0 <= i < after.len() implies
                (#[trigger] after[i]) == (if i < pos { before[i] } else if i == pos { item } else { before[i - 1] }) by {
            }
            assert(activity_addresses(after) =~= activity_addresses(before).insert(pos as int, a));
            assert forall|m: int| 0 <= m < after.len() implies activity_ok(txs@, #[trigger] after[m]) by {
                if m < pos {
                    assert(after[m] == before[m]);
                } else if m > pos {
                    assert(after[m] == before[m - 1]);
                }
            }
            assert(activity_addresses(after).no_duplicates()) by {
                assert forall|i: int, j: int| 0 <= i < after.len() && 0 <= j < after.len() && i != j
                    implies activity_addresses(after)[i] != activity_addresses(after)[j] by {
                    let bi = if i < pos { i } else { i - 1 };
                    let bj = if j < pos { j } else { j - 1 };
                    if i == pos {
                        assert(activity_addresses(before)[bj] == activity_addresses(after)[j]);
                    } else if j == pos {
                        assert(activity_addresses(before)[bi] == activity_addresses(after)[i]);
                    } else {
                        assert(activity_addresses(before)[bi] == activity_addresses(after)[i]);
                        assert(activity_addresses(before)[bj] == activity_addresses(after)[j]);
                    }
                }
            }
            assert forall|m: int| 0 <= m < after.len() implies exists|p: int| 0 <= p < c + 1 && cv[p] == (#[trigger] after[m]).address@ by {
                if m < pos {
                    assert(after[m] == before[m]);
                } else if m > pos {
                    assert(after[m] == before[m - 1]);
                } else {
                    assert(cv[c as int] == after[m].address@);
                }
            }
            assert forall|p: int| 0 <= p < c + 1 implies activity_addresses(after).contains(#[trigger] cv[p]) by {
                if p < c {
                    let m = choose|m: int| 0 <= m < before.len() && activity_addresses(before)[m] == cv[p];
                    let m2 = if m < pos { m } else { m + 1 };
                    assert(activity_addresses(after)[m2] == cv[p]);
                } else {
                    assert(activity_addresses(after)[pos as int] == cv[p]);
                }
            }
            assert forall|i: int, j: int| 0 <= i < j < after.len() implies
                (#[trigger] after[i]).transaction_count >= (#[trigger] after[j]).transaction_count by {
                if j < pos {
                    assert(after[i] == before[i] && after[j] == before[j]);
                } else if j == pos {
                    assert(after[i] == before[i]);
                } else if i < pos {
                    assert(after[i] == before[i] && after[j] == before[j - 1]);
                } else if i == pos {
                    assert(after[j] == before[j - 1]);
                } else {
                    assert(after[i] == before[i - 1] && after[j] == before[j - 1]);
                }
            }
        }
        c = c + 1;
    }
    proof {
        assert forall|i: int|
            0 <= i < txs@.len() && addr_count(txs@, (#[trigger] txs@[i]).address@, txs@.len() as int) >= 2
                implies activity_addresses(sorted@).contains(txs@[i].address@) by {
            let a = txs@[i].address@;
            assert(av.contains(a));
            let p = choose|p: int| 0 <= p < av.len() && av[p] == a;
            assert(cv.contains(a));
            let p2 = choose|p2: int| 0 <= p2 < cv.len() && cv[p2] == a;
            assert(activity_addresses(sorted@).contains(cv[p2]));
        }
    }
    sorted
}


/// Bot probability of a repeated address in tenths (0 to 10): many transactions, a high rate
/// (above five per second over the whole seconds of its activity, at least one; and above the
/// configured high-frequency rate, which the caller judges), and very regular timing (under
/// 200 ms between transactions on average, with more than five transactions).
pub open spec fn spec_bot_probability_tenths(transaction_count: int, span_ms: int, high_frequency: bool) -> int {
    let secs = if span_ms / 1000 > 1 { span_ms / 1000 } else { 1 };
    let count_part = (if transaction_count > 10 { 3int } else { 0int }) + (if transaction_count > 20 { 2int } else { 0int });
    let rate_part = (if transaction_count > 5 * secs { 3int } else { 0int }) + (if high_frequency { 2int } else { 0int });
    let timing_part = if transaction_count > 5 && span_ms < 200 * (transaction_count - 1) { 3int } else { 0int };
    let sum = count_part + rate_part + timing_part;
    if sum > 10 { 10 } else { sum }
}

/// Bot probability of a repeated address in tenths, from its transaction count and the
/// milliseconds between its first and last transaction.
pub fn bot_probability_tenths(transaction_count: usize, span_ms: u64, high_frequency: bool) -> (r: u32)
    ensures
        r == spec_bot_probability_tenths(transaction_count as int, span_ms as int, high_frequency),
        r <= 10,
{
    let secs: u128 = if span_ms / 1000 > 1 { (span_ms / 1000) as u128 } else { 1 };
    let count = transaction_count as u128;
    let mut sum: u32 = 0;
    if transaction_count > 10 {
        sum = sum + 3;
    }
    if transaction_count > 20 {
        sum = sum + 2;
    }
    if count > 5 * secs {
        sum = sum + 3;
    }
    if high_frequency {
        sum = sum + 2;
    }
    if transaction_count > 5 && (span_ms as u128) < 200 * (count - 1) {
        sum = sum + 3;
    }
    if sum > 10 { 10 } else { sum }
}

} // verus!
