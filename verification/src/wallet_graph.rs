//! The wallet transaction graph: wallets as nodes, transfers as directed edges, per-wallet
//! statistics, weakly connected components and circular transfer paths.
use vstd::prelude::*;
use petgraph::graph::{Graph, NodeIndex};
use petgraph::visit::EdgeRef;
use petgraph::{Directed, Direction};
use crate::classification::PatternType;
use crate::bundles::{contains_string, string_views};
use crate::scoring::chars_of;

verus! {

#[verifier::external_type_specification]
#[verifier::external_body]
#[verifier::reject_recursive_types(N)]
#[verifier::reject_recursive_types(E)]
#[verifier::reject_recursive_types(Ty)]
#[verifier::reject_recursive_types(Ix)]
pub struct ExPetGraph<N, E, Ty, Ix>(Graph<N, E, Ty, Ix>);

#[verifier::external_type_specification]
#[verifier::external_body]
pub struct ExDirected(Directed);

/// The directed graph of wallet indices: node weights are wallet positions, edge weights are
/// positions in the list of transfers.
pub type WalletDiGraph = Graph<usize, usize, Directed, u32>;

/// The node weights of a graph, by node index.
pub uninterp spec fn graph_nodes(g: Graph<usize, usize, Directed, u32>) -> Seq<usize>;

/// The edges of a graph as (source, target, weight), by edge index.
pub uninterp spec fn graph_edges(g: Graph<usize, usize, Directed, u32>) -> Seq<(usize, usize, usize)>;

/// `Graph::new`: an empty graph.
#[verifier::external_body]
fn graph_new() -> (g: WalletDiGraph)
    ensures
        graph_nodes(g) == Seq::<usize>::empty(),
        graph_edges(g) == Seq::<(usize, usize, usize)>::empty(),
{
    Graph::new()
}

/// `Graph::add_node`: appends a node and returns its index (the former node count). The source
/// asserts that a `u32` index stays below `u32::MAX`.
#[verifier::external_body]
fn graph_add_node(g: &mut WalletDiGraph, weight: usize) -> (i: usize)
    requires
        graph_nodes(*old(g)).len() < u32::MAX,
    ensures
        i == graph_nodes(*old(g)).len(),
        graph_nodes(*final(g)) == graph_nodes(*old(g)).push(weight),
        graph_edges(*final(g)) == graph_edges(*old(g)),
{
    g.add_node(weight).index()
}

/// `Graph::add_edge`: appends an edge from `a` to `b`. The source panics on node indices out of
/// bounds and asserts that a `u32` edge index stays below `u32::MAX`.
#[verifier::external_body]
fn graph_add_edge(g: &mut WalletDiGraph, a: usize, b: usize, weight: usize)
    requires
        a < graph_nodes(*old(g)).len(),
        b < graph_nodes(*old(g)).len(),
        graph_edges(*old(g)).len() < u32::MAX,
    ensures
        graph_edges(*final(g)) == graph_edges(*old(g)).push((a, b, weight)),
        graph_nodes(*final(g)) == graph_nodes(*old(g)),
{
    g.add_edge(NodeIndex::new(a), NodeIndex::new(b), weight);
}

/// `Graph::edge_count`.
#[verifier::external_body]
fn graph_edge_count(g: &WalletDiGraph) -> (n: usize)
    ensures
        n == graph_edges(*g).len(),
{
    g.edge_count()
}

/// The edges leaving `a` as (target, weight), most recently added first: petgraph keeps each
/// node's outgoing edges in a list that `add_edge` extends at the front.
pub open spec fn out_edges(edges: Seq<(usize, usize, usize)>, a: usize) -> Seq<(usize, usize)>
    decreases edges.len(),
{
    if edges.len() == 0 {
        Seq::empty()
    } else {
        let e = edges.last();
        let rest = out_edges(edges.drop_last(), a);
        if e.0 == a { seq![(e.1, e.2)] + rest } else { rest }
    }
}

/// The edges entering `a` as (source, weight), most recently added first.
pub open spec fn in_edges(edges: Seq<(usize, usize, usize)>, a: usize) -> Seq<(usize, usize)>
    decreases edges.len(),
{
    if edges.len() == 0 {
        Seq::empty()
    } else {
        let e = edges.last();
        let rest = in_edges(edges.drop_last(), a);
        if e.1 == a { seq![(e.0, e.2)] + rest } else { rest }
    }
}

/// `Graph::edges(a)`, each edge given as its target and weight. `NodeIndex::new` keeps only the
/// low 32 bits of `a`, so `a` must be a node.
#[verifier::external_body]
fn graph_outgoing(g: &WalletDiGraph, a: usize) -> (r: Vec<(usize, usize)>)
    requires
        a < graph_nodes(*g).len(),
    ensures
        r@ == out_edges(graph_edges(*g), a),
{
    g.edges(NodeIndex::new(a)).map(|e| (e.target().index(), *e.weight())).collect()
}

/// `Graph::edges_directed(a, Incoming)`, each edge given as its source and weight. `a` must be
/// a node (see `graph_outgoing`).
#[verifier::external_body]
fn graph_incoming(g: &WalletDiGraph, a: usize) -> (r: Vec<(usize, usize)>)
    requires
        a < graph_nodes(*g).len(),
    ensures
        r@ == in_edges(graph_edges(*g), a),
{
    g.edges_directed(NodeIndex::new(a), Direction::Incoming).map(|e| (e.source().index(), *e.weight())).collect()
}

/// Number of weakly connected components of a graph with `node_count` nodes and these edges,
/// as `petgraph::algo::connected_components` counts them.
pub uninterp spec fn weak_component_count(node_count: nat, edges: Seq<(usize, usize, usize)>) -> nat;

/// `petgraph::algo::connected_components`: the number of weakly connected components, as its
/// documentation says: of any split of the nodes into connected, edge-closed components it is
/// the number of components.
#[verifier::external_body]
fn graph_component_count(g: &WalletDiGraph) -> (n: usize)
    ensures
        n == weak_component_count(graph_nodes(*g).len(), graph_edges(*g)),
        forall|comps: Seq<Vec<usize>>, labels: Seq<usize>|
            #[trigger] is_component_split(graph_nodes(*g).len() as int, graph_edges(*g), comps, labels) ==> n == comps.len(),
{
    petgraph::algo::connected_components(g)
}

/// A transfer between two wallets.
pub struct TransactionEdge {
    /// Transaction signature
    pub signature: String,
    /// Amount transferred (in token units)
    pub amount: u64,
    /// Timestamp (milliseconds since the Unix epoch)
    pub timestamp_ms: i64,
    /// Slot number
    pub slot: u64,
    /// Token mint (if SPL token transfer)
    pub token_mint: Option<String>,
}

/// Statistics of one wallet.
#[derive(Debug, Clone, Copy, PartialEq, Eq, Structural)]
pub struct NodeStats {
    /// Number of incoming transactions
    pub in_degree: usize,
    /// Number of outgoing transactions
    pub out_degree: usize,
    /// Total amount received
    pub total_received: u64,
    /// Total amount sent
    pub total_sent: u64,
    /// First transaction timestamp (milliseconds)
    pub first_seen: Option<i64>,
    /// Last transaction timestamp (milliseconds)
    pub last_seen: Option<i64>,
    /// Number of unique counterparties
    pub unique_counterparties: usize,
}

/// Statistics of a wallet with no transaction yet.
pub open spec fn empty_stats() -> NodeStats {
    NodeStats {
        in_degree: 0,
        out_degree: 0,
        total_received: 0,
        total_sent: 0,
        first_seen: None,
        last_seen: None,
        unique_counterparties: 0,
    }
}

impl NodeStats {
    /// A wallet with no transaction yet.
    pub fn new() -> (r: Self)
        ensures
            r == empty_stats(),
    {
        NodeStats {
            in_degree: 0,
            out_degree: 0,
            total_received: 0,
            total_sent: 0,
            first_seen: None,
            last_seen: None,
            unique_counterparties: 0,
        }
    }
}

/// A wallet's statistics after it sent `amount` at `ts`.
pub open spec fn after_send(s: NodeStats, amount: u64, ts: i64) -> NodeStats {
    NodeStats {
        out_degree: (s.out_degree + 1) as usize,
        total_sent: (s.total_sent + amount) as u64,
        last_seen: Some(ts),
        first_seen: if s.first_seen is None { Some(ts) } else { s.first_seen },
        ..s
    }
}

/// A wallet's statistics after it received `amount` at `ts`.
pub open spec fn after_receive(s: NodeStats, amount: u64, ts: i64) -> NodeStats {
    NodeStats {
        in_degree: (s.in_degree + 1) as usize,
        total_received: (s.total_received + amount) as u64,
        last_seen: Some(ts),
        first_seen: if s.first_seen is None { Some(ts) } else { s.first_seen },
        ..s
    }
}

/// A wallet's statistics after a transfer that it sent and/or received.
pub open spec fn updated_stats(s: NodeStats, sent: bool, received: bool, amount: u64, ts: i64) -> NodeStats {
    let s1 = if sent { after_send(s, amount, ts) } else { s };
    if received { after_receive(s1, amount, ts) } else { s1 }
}

/// The node a wallet maps to: its own, or the fallback node 0 when the graph had no room for it.
pub open spec fn node_for(wallets: Seq<Seq<char>>, w: Seq<char>) -> int {
    match wallet_position(wallets, w) {
        Some(i) => i,
        None => 0,
    }
}

proof fn lemma_position_stable(a: Seq<Seq<char>>, b: Seq<Seq<char>>, w: Seq<char>)
    requires
        a.len() <= b.len(),
        forall|i: int| 0 <= i < a.len() ==> #[trigger] b[i] == a[i],
        b.no_duplicates(),
    ensures
        a.contains(w) ==> wallet_position(b, w) == wallet_position(a, w),
        b == a.push(w) ==> wallet_position(b, w) == Some(a.len() as int),
{
    if a.contains(w) {
        a.index_of_first_ensures(w);
        let j = a.index_of(w);
        assert(b[j] == w);
        assert(b.contains(w));
        b.index_of_first_ensures(w);
        let k = b.index_of(w);
        if k != j {
            assert(b[k] == b[j]);
        }
    }
    if b == a.push(w) {
        assert(b[a.len() as int] == w);
        assert(b.contains(w));
        b.index_of_first_ensures(w);
        let k = b.index_of(w);
        if k != a.len() {
            assert(b[k] == b[a.len() as int]);
        }
    }
}

/// Transaction graph of wallets.
pub struct TransactionGraph {
    /// The underlying directed graph: node `i` is wallet `i`, edge `k` is transfer `k`
    graph: WalletDiGraph,
    /// Wallet addresses by node index
    wallets: Vec<String>,
    /// Transfers by edge index, with their endpoints
    transfers: Vec<(usize, usize, TransactionEdge)>,
    /// Statistics by node index
    node_stats: Vec<NodeStats>,
    /// Most wallets the graph takes in
    max_wallets: usize,
    /// Edges added
    edge_count: usize,
}

/// The position of wallet `w` in `wallets`, if present.
pub open spec fn wallet_position(wallets: Seq<Seq<char>>, w: Seq<char>) -> Option<int> {
    if wallets.contains(w) { Some(wallets.index_of(w)) } else { None }
}

impl TransactionGraph {
    /// Addresses of the wallets, by node index.
    pub closed spec fn wallet_views(&self) -> Seq<Seq<char>> {
        self.wallets@.map_values(|w: String| w@)
    }

    /// Statistics of the wallets, by node index.
    pub closed spec fn stats(&self) -> Seq<NodeStats> {
        self.node_stats@
    }

    /// The transfers as (from, to, amount, timestamp), by edge index.
    pub closed spec fn transfer_views(&self) -> Seq<(usize, usize, u64, i64)> {
        self.transfers@.map_values(|t: (usize, usize, TransactionEdge)| (t.0, t.1, t.2.amount, t.2.timestamp_ms))
    }

    /// The edges of the petgraph graph.
    pub closed spec fn edge_list(&self) -> Seq<(usize, usize, usize)> {
        graph_edges(self.graph)
    }

    /// The most wallets taken in.
    pub closed spec fn wallet_limit(&self) -> usize {
        self.max_wallets
    }

    /// Edges counted so far.
    pub closed spec fn counted_edges(&self) -> usize {
        self.edge_count
    }

    /// The graph, the wallet list, the transfers and the statistics agree; wallets are distinct
    /// and never more than the limit.
    pub closed spec fn wf(&self) -> bool {
        let n = self.wallets@.len();
        &&& graph_nodes(self.graph).len() == n
        &&& forall|i: int| 0 <= i < n ==> #[trigger] graph_nodes(self.graph)[i] == i
        &&& graph_edges(self.graph).len() == self.transfers@.len()
        &&& forall|k: int| 0 <= k < self.transfers@.len() ==> #[trigger] graph_edges(self.graph)[k]
            == (self.transfers@[k].0, self.transfers@[k].1, k as usize)
        &&& forall|k: int| 0 <= k < self.transfers@.len() ==> (#[trigger] self.transfers@[k]).0 < n && self.transfers@[k].1 < n
        &&& self.node_stats@.len() == n
        &&& self.wallet_views().no_duplicates()
        &&& n <= self.max_wallets || n == 0
        &&& n < u32::MAX
        &&& self.transfers@.len() < u32::MAX
    }

    /// An empty graph taking in at most `max_wallets` wallets.
    pub fn new(max_wallets: usize) -> (r: Self)
        ensures
            r.wf(),
            r.wallet_views() == Seq::<Seq<char>>::empty(),
            r.transfer_views() == Seq::<(usize, usize, u64, i64)>::empty(),
            r.wallet_limit() == max_wallets,
            r.counted_edges() == 0,
    {
        let r = TransactionGraph {
            graph: graph_new(),
            wallets: Vec::new(),
            transfers: Vec::new(),
            node_stats: Vec::new(),
            max_wallets,
            edge_count: 0,
        };
        proof {
            assert(r.wallet_views() =~= Seq::<Seq<char>>::empty());
            assert(r.transfer_views() =~= Seq::<(usize, usize, u64, i64)>::empty());
        }
        r
    }

    /// Number of wallets.
    pub fn node_count(&self) -> (r: usize)
        ensures
            r == self.wallet_views().len(),
    {
        self.wallets.len()
    }

    /// Number of edges in the graph.
    pub fn edge_count(&self) -> (r: usize)
        requires
            self.wf(),
        ensures
            r == self.transfer_views().len(),
    {
        graph_edge_count(&self.graph)
    }

    fn find_wallet(&self, wallet: &String) -> (r: Option<usize>)
        requires
            self.wf(),
        ensures
            r == match wallet_position(self.wallet_views(), wallet@) { Some(i) => Some(i as usize), None => None::<usize> },
    {
        let mut i: usize = 0;
        while i < self.wallets.len()
            invariant
                i <= self.wallets@.len(),
                self.wf(),
                forall|k: int| 0 <= k < i ==> self.wallet_views()[k] != wallet@,
            decreases self.wallets@.len() - i,
        {
            if self.wallets[i] == *wallet {
                proof {
                    assert(self.wallet_views()[i as int] == wallet@);
                    self.wallet_views().index_of_first_ensures(wallet@);
                    assert(self.wallet_views().contains(wallet@));
                    let j = self.wallet_views().index_of(wallet@);
                    if j != i {
                        assert(self.wallet_views()[j] == self.wallet_views()[i as int]);
                    }
                }
                return Some(i);
            }
            i = i + 1;
        }
        proof {
            assert(!self.wallet_views().contains(wallet@));
        }
        None
    }

    /// Statistics of a wallet, if the graph holds it.
    pub fn get_node_stats(&self, wallet: &String) -> (r: Option<NodeStats>)
        requires
            self.wf(),
        ensures
            r == match wallet_position(self.wallet_views(), wallet@) { Some(i) => Some(self.stats()[i]), None => None::<NodeStats> },
    {
        match self.find_wallet(wallet) {
            Some(i) => Some(self.node_stats[i]),
            None => None,
        }
    }

    /// The node of `wallet`, created if new and room is left; when the graph is full a new
    /// wallet is mapped to an existing node.
    fn get_or_create_node(&mut self, wallet: &String) -> (r: usize)
        requires
            old(self).wf(),
            old(self).max_wallets > 0,
            old(self).wallets@.len() + 1 < u32::MAX,
        ensures
            final(self).wf(),
            r < final(self).wallet_views().len(),
            final(self).transfers@ == old(self).transfers@,
            final(self).max_wallets == old(self).max_wallets,
            final(self).edge_count == old(self).edge_count,
            old(self).wallets@.len() <= final(self).wallets@.len() <= old(self).wallets@.len() + 1,
            r == node_for(final(self).wallet_views(), wallet@),
            forall|i: int| 0 <= i < old(self).wallets@.len() ==> #[trigger] final(self).wallet_views()[i] == old(self).wallet_views()[i]
                && final(self).node_stats@[i] == old(self).node_stats@[i],
            forall|i: int| old(self).wallets@.len() <= i < final(self).wallets@.len() ==> #[trigger] final(self).node_stats@[i] == empty_stats(),
            match wallet_position(old(self).wallet_views(), wallet@) {
                Some(i) => r == i && final(self).wallet_views() == old(self).wallet_views()
                    && final(self).node_stats@ == old(self).node_stats@,
                None => if old(self).wallet_views().len() >= old(self).max_wallets {
                    final(self).wallet_views() == old(self).wallet_views() && final(self).node_stats@ == old(self).node_stats@
                } else {
                    r == old(self).wallet_views().len()
                        && final(self).wallet_views() == old(self).wallet_views().push(wallet@)
                        && final(self).node_stats@ == old(self).node_stats@.push(empty_stats())
                },
            },
    {
        match self.find_wallet(wallet) {
            Some(i) => i,
            None => {
                if self.wallets.len() >= self.max_wallets {
                    // the graph is full: fall back on an existing node
                    proof {
                        assert(wallet_position(self.wallet_views(), wallet@) is None);
                    }
                    0
                } else {
                    let ghost before = self.wallet_views();
                    let n = self.wallets.len();
                    let idx = graph_add_node(&mut self.graph, n);
                    self.wallets.push(wallet.clone());
                    self.node_stats.push(NodeStats::new());
                    proof {
                        assert(self.wallet_views() =~= before.push(wallet@));
                        assert forall|i: int, j: int| 0 <= i < self.wallet_views().len() && 0 <= j < self.wallet_views().len() && i != j
                            implies self.wallet_views()[i] != self.wallet_views()[j] by {
                            if i < n && j < n {
                                assert(before[i] != before[j]);
                            } else if i < n {
                                assert(before[i] != wallet@);
                            } else {
                                assert(before[j] != wallet@);
                            }
                        }
                        assert forall|i: int| 0 <= i < n + 1 implies #[trigger] graph_nodes(self.graph)[i] == i by {
                        }
                        lemma_position_stable(before, self.wallet_views(), wallet@);
                    }
                    idx
                }
            },
        }
    }

    /// Add a transfer from `from` to `to`: both wallets get nodes (or the fallback node when the
    /// graph is full), the edge is added, and the statistics of each wallet the graph holds are
    /// updated.
    pub fn add_transaction(&mut self, from: &String, to: &String, edge_data: TransactionEdge)
        requires
            old(self).wf(),
            old(self).wallet_limit() > 0,
            old(self).wallet_views().len() + 2 < u32::MAX,
            old(self).transfer_views().len() + 1 < u32::MAX,
            old(self).counted_edges() < usize::MAX,
            forall|i: int| 0 <= i < old(self).stats().len() && (wallet_position(old(self).wallet_views(), from@) == Some(i)
                || wallet_position(old(self).wallet_views(), to@) == Some(i))
                ==> (#[trigger] old(self).stats()[i]).out_degree < usize::MAX
                && old(self).stats()[i].in_degree < usize::MAX
                && old(self).stats()[i].total_sent + edge_data.amount <= u64::MAX
                && old(self).stats()[i].total_received + edge_data.amount <= u64::MAX,
        ensures
            final(self).wf(),
            final(self).transfer_views().len() == old(self).transfer_views().len() + 1,
            final(self).counted_edges() == old(self).counted_edges() + 1,
            final(self).wallet_limit() == old(self).wallet_limit(),
            forall|w: Seq<char>| old(self).wallet_views().contains(w) ==> final(self).wallet_views().contains(w),
            final(self).wallet_views().len() <= old(self).wallet_views().len() + 2,
            final(self).transfer_views() == old(self).transfer_views().push((
                node_for(final(self).wallet_views(), from@) as usize,
                node_for(final(self).wallet_views(), to@) as usize,
                edge_data.amount,
                edge_data.timestamp_ms,
            )),
            final(self).stats().len() == final(self).wallet_views().len(),
            forall|i: int| 0 <= i < final(self).stats().len() ==> #[trigger] final(self).stats()[i] == updated_stats(
                if i < old(self).stats().len() { old(self).stats()[i] } else { empty_stats() },
                wallet_position(final(self).wallet_views(), from@) == Some(i),
                wallet_position(final(self).wallet_views(), to@) == Some(i),
                edge_data.amount,
                edge_data.timestamp_ms,
            ),
    {
        let ghost stats0 = self.node_stats@;
        let ghost views0 = self.wallet_views();
        let from_idx = self.get_or_create_node(from);
        let ghost stats1 = self.node_stats@;
        let ghost views1 = self.wallet_views();
        let to_idx = self.get_or_create_node(to);
        proof {
            let views2 = self.wallet_views();
            lemma_position_stable(views1, views2, from@);
            lemma_position_stable(views0, views1, from@);
            if !views0.contains(from@) && views0.len() < self.max_wallets {
                assert(views1 == views0.push(from@));
                assert(views1.contains(from@));
            }
            if !views0.contains(from@) && views0.len() >= self.max_wallets {
                assert(views1 == views0);
                if views2.contains(from@) {
                    let j = choose|j: int| 0 <= j < views2.len() && views2[j] == from@;
                    if j < views1.len() {
                        assert(views1[j] == from@);
                    }
                    assert(views2.len() == views1.len());
                }
            }
            assert(from_idx == node_for(views2, from@));
            assert forall|w: Seq<char>| views0.contains(w) implies self.wallet_views().contains(w) by {
                let j = choose|j: int| 0 <= j < views0.len() && views0[j] == w;
                assert(views1[j] == views0[j]);
                assert(self.wallet_views()[j] == views1[j]);
            }
            lemma_position_stable(views0, views2, from@);
            lemma_position_stable(views0, views2, to@);
            assert forall|i: int| 0 <= i < self.node_stats@.len() && (wallet_position(self.wallet_views(), from@) == Some(i)
                || wallet_position(self.wallet_views(), to@) == Some(i)) implies
                (#[trigger] self.node_stats@[i]).out_degree < usize::MAX
                && self.node_stats@[i].in_degree < usize::MAX
                && self.node_stats@[i].total_sent + edge_data.amount <= u64::MAX
                && self.node_stats@[i].total_received + edge_data.amount <= u64::MAX by {
                if i < stats1.len() {
                    assert(self.node_stats@[i] == stats1[i]);
                    if i < stats0.len() {
                        assert(stats1[i] == stats0[i]);
                        assert(old(self).stats()[i] == stats0[i]);
                        assert(self.wallet_views()[i] == views0[i]);
                        if wallet_position(self.wallet_views(), from@) == Some(i) {
                            assert(views0[i] == from@);
                            assert(views0.contains(from@));
                        } else {
                            assert(views0[i] == to@);
                            assert(views0.contains(to@));
                        }
                    } else {
                        assert(stats1[i] == empty_stats());
                    }
                } else {
                    assert(self.node_stats@[i] == empty_stats());
                }
            }
        }
        let k = self.transfers.len();
        graph_add_edge(&mut self.graph, from_idx, to_idx, k);
        let amount = edge_data.amount;
        let ts = edge_data.timestamp_ms;
        let ghost before_t = self.transfers@;
        self.transfers.push((from_idx, to_idx, edge_data));
        proof {
            assert forall|j: int| 0 <= j < self.transfers@.len() implies #[trigger] graph_edges(self.graph)[j]
                == (self.transfers@[j].0, self.transfers@[j].1, j as usize) by {
                if j < k {
                    assert(self.transfers@[j] == before_t[j]);
                }
            }
            assert forall|j: int| 0 <= j < self.transfers@.len() implies (#[trigger] self.transfers@[j]).0 < self.wallets@.len()
                && self.transfers@[j].1 < self.wallets@.len() by {
                if j < k {
                    assert(self.transfers@[j] == before_t[j]);
                }
            }
            assert(self.transfer_views().len() == before_t.len() + 1);
        }
        match self.find_wallet(from) {
            Some(i) => {
                let s = self.node_stats[i];
                self.node_stats.set(i, NodeStats {
                    out_degree: s.out_degree + 1,
                    total_sent: s.total_sent + amount,
                    last_seen: Some(ts),
                    first_seen: if s.first_seen.is_none() { Some(ts) } else { s.first_seen },
                    ..s
                });
            },
            None => {},
        }
        match self.find_wallet(to) {
            Some(i) => {
                let s = self.node_stats[i];
                self.node_stats.set(i, NodeStats {
                    in_degree: s.in_degree + 1,
                    total_received: s.total_received + amount,
                    last_seen: Some(ts),
                    first_seen: if s.first_seen.is_none() { Some(ts) } else { s.first_seen },
                    ..s
                });
            },
            None => {},
        }
        self.edge_count = self.edge_count + 1;
    }
}


/// Every edge from `a` is listed among `a`'s outgoing edges.
proof fn lemma_out_edges_complete(edges: Seq<(usize, usize, usize)>, a: usize, k: int)
    requires
        0 <= k < edges.len(),
        edges[k].0 == a,
    ensures
        out_edges(edges, a).contains((edges[k].1, edges[k].2)),
    decreases edges.len(),
{
    let rest = out_edges(edges.drop_last(), a);
    if k == edges.len() - 1 {
        assert(out_edges(edges, a)[0] == (edges[k].1, edges[k].2));
    } else {
        lemma_out_edges_complete(edges.drop_last(), a, k);
        let j = choose|j: int| 0 <= j < rest.len() && rest[j] == (edges[k].1, edges[k].2);
        if edges.last().0 == a {
            assert(out_edges(edges, a)[j + 1] == rest[j]);
        } else {
            assert(out_edges(edges, a)[j] == rest[j]);
        }
    }
}

/// Every edge into `a` is listed among `a`'s incoming edges.
proof fn lemma_in_edges_complete(edges: Seq<(usize, usize, usize)>, a: usize, k: int)
    requires
        0 <= k < edges.len(),
        edges[k].1 == a,
    ensures
        in_edges(edges, a).contains((edges[k].0, edges[k].2)),
    decreases edges.len(),
{
    let rest = in_edges(edges.drop_last(), a);
    if k == edges.len() - 1 {
        assert(in_edges(edges, a)[0] == (edges[k].0, edges[k].2));
    } else {
        lemma_in_edges_complete(edges.drop_last(), a, k);
        let j = choose|j: int| 0 <= j < rest.len() && rest[j] == (edges[k].0, edges[k].2);
        if edges.last().1 == a {
            assert(in_edges(edges, a)[j + 1] == rest[j]);
        } else {
            assert(in_edges(edges, a)[j] == rest[j]);
        }
    }
}

/// A wallet that no edge leaves has no outgoing edges.
proof fn lemma_out_edges_none(edges: Seq<(usize, usize, usize)>, a: usize)
    requires
        forall|k: int| 0 <= k < edges.len() ==> (#[trigger] edges[k]).0 != a,
    ensures
        out_edges(edges, a) == Seq::<(usize, usize)>::empty(),
    decreases edges.len(),
{
    if edges.len() > 0 {
        assert forall|k: int| 0 <= k < edges.drop_last().len() implies (#[trigger] edges.drop_last()[k]).0 != a by {
            assert(edges.drop_last()[k] == edges[k]);
        }
        lemma_out_edges_none(edges.drop_last(), a);
        assert(edges[edges.len() - 1] == edges.last());
    }
}

/// A wallet that no edge enters has no incoming edges.
proof fn lemma_in_edges_none(edges: Seq<(usize, usize, usize)>, a: usize)
    requires
        forall|k: int| 0 <= k < edges.len() ==> (#[trigger] edges[k]).1 != a,
    ensures
        in_edges(edges, a) == Seq::<(usize, usize)>::empty(),
    decreases edges.len(),
{
    if edges.len() > 0 {
        assert forall|k: int| 0 <= k < edges.drop_last().len() implies (#[trigger] edges.drop_last()[k]).1 != a by {
            assert(edges.drop_last()[k] == edges[k]);
        }
        lemma_in_edges_none(edges.drop_last(), a);
        assert(edges[edges.len() - 1] == edges.last());
    }
}

impl TransactionGraph {
    /// The edges leaving `a`, none when `a` is not a wallet of the graph.
    fn outgoing(&self, a: usize) -> (r: Vec<(usize, usize)>)
        requires
            self.wf(),
        ensures
            r@ == out_edges(self.edge_list(), a),
    {
        if a < self.wallets.len() {
            graph_outgoing(&self.graph, a)
        } else {
            proof {
                let edges = graph_edges(self.graph);
                assert forall|k: int| 0 <= k < edges.len() implies (#[trigger] edges[k]).0 != a by {
                    assert(edges[k] == (self.transfers@[k].0, self.transfers@[k].1, k as usize));
                }
                lemma_out_edges_none(edges, a);
            }
            Vec::new()
        }
    }

    /// The edges entering `a`, none when `a` is not a wallet of the graph.
    fn incoming(&self, a: usize) -> (r: Vec<(usize, usize)>)
        requires
            self.wf(),
        ensures
            r@ == in_edges(self.edge_list(), a),
    {
        if a < self.wallets.len() {
            graph_incoming(&self.graph, a)
        } else {
            proof {
                let edges = graph_edges(self.graph);
                assert forall|k: int| 0 <= k < edges.len() implies (#[trigger] edges[k]).1 != a by {
                    assert(edges[k] == (self.transfers@[k].0, self.transfers@[k].1, k as usize));
                }
                lemma_in_edges_none(edges, a);
            }
            Vec::new()
        }
    }
}

/// Every listed outgoing edge of `a` is an edge from `a`.
proof fn lemma_out_edges_sound(edges: Seq<(usize, usize, usize)>, a: usize, j: int)
    requires
        0 <= j < out_edges(edges, a).len(),
    ensures
        exists|k: int| 0 <= k < edges.len() && edges[k].0 == a && edges[k].1 == out_edges(edges, a)[j].0
            && edges[k].2 == out_edges(edges, a)[j].1,
    decreases edges.len(),
{
    let rest = out_edges(edges.drop_last(), a);
    if edges.last().0 == a {
        if j == 0 {
            assert(edges[edges.len() - 1] == edges.last());
        } else {
            lemma_out_edges_sound(edges.drop_last(), a, j - 1);
            let k = choose|k: int| 0 <= k < edges.drop_last().len() && edges.drop_last()[k].0 == a
                && edges.drop_last()[k].1 == rest[j - 1].0 && edges.drop_last()[k].2 == rest[j - 1].1;
            assert(edges[k] == edges.drop_last()[k]);
        }
    } else {
        lemma_out_edges_sound(edges.drop_last(), a, j);
        let k = choose|k: int| 0 <= k < edges.drop_last().len() && edges.drop_last()[k].0 == a
            && edges.drop_last()[k].1 == rest[j].0 && edges.drop_last()[k].2 == rest[j].1;
        assert(edges[k] == edges.drop_last()[k]);
    }
}

/// Every listed incoming edge of `a` is an edge into `a`.
proof fn lemma_in_edges_sound(edges: Seq<(usize, usize, usize)>, a: usize, j: int)
    requires
        0 <= j < in_edges(edges, a).len(),
    ensures
        exists|k: int| 0 <= k < edges.len() && edges[k].1 == a && edges[k].0 == in_edges(edges, a)[j].0
            && edges[k].2 == in_edges(edges, a)[j].1,
    decreases edges.len(),
{
    let rest = in_edges(edges.drop_last(), a);
    if edges.last().1 == a {
        if j == 0 {
            assert(edges[edges.len() - 1] == edges.last());
        } else {
            lemma_in_edges_sound(edges.drop_last(), a, j - 1);
            let k = choose|k: int| 0 <= k < edges.drop_last().len() && edges.drop_last()[k].1 == a
                && edges.drop_last()[k].0 == rest[j - 1].0 && edges.drop_last()[k].2 == rest[j - 1].1;
            assert(edges[k] == edges.drop_last()[k]);
        }
    } else {
        lemma_in_edges_sound(edges.drop_last(), a, j);
        let k = choose|k: int| 0 <= k < edges.drop_last().len() && edges.drop_last()[k].1 == a
            && edges.drop_last()[k].0 == rest[j].0 && edges.drop_last()[k].2 == rest[j].1;
        assert(edges[k] == edges.drop_last()[k]);
    }
}

/// Marker of a wallet not yet assigned to a component.
pub const UNLABELED: usize = usize::MAX;

/// Number of wallets not yet assigned to a component.
pub open spec fn unlabeled_count(labels: Seq<usize>) -> int
    decreases labels.len(),
{
    if labels.len() == 0 {
        0
    } else {
        unlabeled_count(labels.drop_last()) + if labels.last() == UNLABELED { 1int } else { 0int }
    }
}

proof fn lemma_unlabeled_update(labels: Seq<usize>, v: int, c: usize)
    requires
        0 <= v < labels.len(),
        labels[v] == UNLABELED,
        c != UNLABELED,
    ensures
        unlabeled_count(labels.update(v, c)) == unlabeled_count(labels) - 1,
        unlabeled_count(labels) >= 1,
    decreases labels.len(),
{
    let u = labels.update(v, c);
    if v == labels.len() - 1 {
        lemma_unlabeled_nonneg(labels.drop_last());
        assert(u.drop_last() =~= labels.drop_last());
    } else {
        lemma_unlabeled_update(labels.drop_last(), v, c);
        assert(u.drop_last() =~= labels.drop_last().update(v, c));
    }
}

proof fn lemma_unlabeled_nonneg(labels: Seq<usize>)
    ensures
        unlabeled_count(labels) >= 0,
    decreases labels.len(),
{
    if labels.len() > 0 {
        lemma_unlabeled_nonneg(labels.drop_last());
    }
}

/// `x` is the first component of some entry of `list`.
pub open spec fn listed_target(list: Seq<(usize, usize)>, x: usize) -> bool {
    exists|m: int| 0 <= m < list.len() && (#[trigger] list[m]).0 == x
}

/// An edge joins `a` and `b`, in either direction.
pub open spec fn joined(edges: Seq<(usize, usize, usize)>, a: usize, b: usize) -> bool {
    has_edge(edges, a, b) || has_edge(edges, b, a)
}

/// Some wallet among the first `upto` of `s` is joined by an edge to `x`.
pub open spec fn hangs_off(edges: Seq<(usize, usize, usize)>, s: Seq<usize>, upto: int, x: usize) -> bool {
    exists|i: int| 0 <= i < upto && #[trigger] joined(edges, s[i], x)
}

/// Every wallet of `s` after the first is joined by an edge to a wallet listed before it, so the
/// wallets of `s` are connected.
pub open spec fn linked_in_order(edges: Seq<(usize, usize, usize)>, s: Seq<usize>) -> bool {
    forall|j: int| 0 < j < s.len() ==> #[trigger] hangs_off(edges, s, j, s[j])
}

/// `labels` splits the wallets into the components `comps`: each wallet carries the index of the
/// one component that lists it, no edge joins two components, and each component is connected.
pub open spec fn is_component_split(n: int, edges: Seq<(usize, usize, usize)>, comps: Seq<Vec<usize>>, labels: Seq<usize>) -> bool {
    &&& labels.len() == n
    &&& forall|v: int| 0 <= v < n ==> (#[trigger] labels[v]) < comps.len() && comps[labels[v] as int]@.contains(v as usize)
    &&& forall|c: int, j: int| 0 <= c < comps.len() && 0 <= j < comps[c]@.len() ==>
        (#[trigger] comps[c]@[j]) < n && labels[comps[c]@[j] as int] == c
    &&& forall|c: int| 0 <= c < comps.len() ==> (#[trigger] comps[c]@).len() > 0 && comps[c]@.no_duplicates()
    &&& forall|k: int| 0 <= k < edges.len() ==> labels[(#[trigger] edges[k]).0 as int] == labels[edges[k].1 as int]
    &&& forall|c: int| 0 <= c < comps.len() ==> linked_in_order(edges, #[trigger] comps[c]@)
}

impl TransactionGraph {
    /// Push onto `stack` every listed neighbour that carries no label yet.
    fn push_unlabeled(stack: &mut Vec<usize>, neighbours: &Vec<(usize, usize)>, labels: &Vec<usize>)
        requires
            forall|j: int| 0 <= j < neighbours@.len() ==> (#[trigger] neighbours@[j]).0 < labels@.len(),
        ensures
            forall|j: int| 0 <= j < old(stack)@.len() ==> #[trigger] final(stack)@[j] == old(stack)@[j],
            final(stack)@.len() >= old(stack)@.len(),
            forall|j: int| 0 <= j < final(stack)@.len() ==> (#[trigger] final(stack)@[j] < labels@.len()) || j < old(stack)@.len(),
            forall|j: int| 0 <= j < neighbours@.len() && labels@[(#[trigger] neighbours@[j]).0 as int] == UNLABELED
                ==> final(stack)@.contains(neighbours@[j].0),
            forall|j: int| old(stack)@.len() <= j < final(stack)@.len() ==> listed_target(neighbours@, #[trigger] final(stack)@[j]),
    {
        let ghost start = stack@;
        let mut i: usize = 0;
        while i < neighbours.len()
            invariant
                i <= neighbours@.len(),
                forall|j: int| 0 <= j < neighbours@.len() ==> (#[trigger] neighbours@[j]).0 < labels@.len(),
                forall|j: int| 0 <= j < start.len() ==> #[trigger] stack@[j] == start[j],
                stack@.len() >= start.len(),
                forall|j: int| 0 <= j < stack@.len() ==> (#[trigger] stack@[j] < labels@.len()) || j < start.len(),
                forall|j: int| 0 <= j < i && labels@[(#[trigger] neighbours@[j]).0 as int] == UNLABELED
                    ==> stack@.contains(neighbours@[j].0),
                forall|j: int| start.len() <= j < stack@.len() ==> listed_target(neighbours@, #[trigger] stack@[j]),
            decreases neighbours@.len() - i,
        {
            let target = neighbours[i].0;
            if labels[target] == UNLABELED {
                let ghost before = stack@;
                stack.push(target);
                proof {
                    assert(stack@[before.len() as int] == target);
                    assert forall|j: int| start.len() <= j < stack@.len() implies listed_target(neighbours@, #[trigger] stack@[j]) by {
                        if j == before.len() {
                            assert(neighbours@[i as int].0 == stack@[j]);
                        } else {
                            assert(stack@[j] == before[j]);
                        }
                    }
                    assert forall|j: int| 0 <= j < i && labels@[(#[trigger] neighbours@[j]).0 as int] == UNLABELED
                        implies stack@.contains(neighbours@[j].0) by {
                        let m = choose|m: int| 0 <= m < before.len() && before[m] == neighbours@[j].0;
                        assert(stack@[m] == before[m]);
                    }
                }
            }
            i = i + 1;
        }
    }

    /// One step of the component search keeps its shape: the new member `node` is the start or
    /// hangs off an earlier member, and every wallet now waiting on the stack is the start or
    /// joined to a member.
    proof fn lemma_search_step(
        edges: Seq<(usize, usize, usize)>,
        start: usize,
        node: usize,
        before_stack: Seq<usize>,
        prev_members: Seq<usize>,
        members: Seq<usize>,
        mid_stack: Seq<usize>,
        mid_stack2: Seq<usize>,
        stack: Seq<usize>,
        outs: Seq<(usize, usize)>,
        ins: Seq<(usize, usize)>,
    )
        requires
            before_stack == mid_stack.push(node),
            members == prev_members.push(node),
            node == start ==> prev_members.len() == 0,
            prev_members.len() > 0 ==> prev_members[0] == start,
            linked_in_order(edges, prev_members),
            forall|j: int| 0 <= j < before_stack.len() ==> (#[trigger] before_stack[j]) == start
                || hangs_off(edges, prev_members, prev_members.len() as int, before_stack[j]),
            outs == out_edges(edges, node),
            ins == in_edges(edges, node),
            mid_stack2.len() >= mid_stack.len(),
            forall|j: int| 0 <= j < mid_stack.len() ==> #[trigger] mid_stack2[j] == mid_stack[j],
            forall|j: int| mid_stack.len() <= j < mid_stack2.len() ==> listed_target(outs, #[trigger] mid_stack2[j]),
            stack.len() >= mid_stack2.len(),
            forall|j: int| 0 <= j < mid_stack2.len() ==> #[trigger] stack[j] == mid_stack2[j],
            forall|j: int| mid_stack2.len() <= j < stack.len() ==> listed_target(ins, #[trigger] stack[j]),
        ensures
            members.len() > 0 ==> members[0] == start,
            linked_in_order(edges, members),
            forall|j: int| 0 <= j < stack.len() ==> (#[trigger] stack[j]) == start
                || hangs_off(edges, members, members.len() as int, stack[j]),
    {
        let last = before_stack.len() - 1;
        let here = prev_members.len() as int;
        assert(before_stack[last] == node);
        assert(members[here] == node);
        assert forall|j: int| 0 < j < members.len() implies #[trigger] hangs_off(edges, members, j, members[j]) by {
            if j < here {
                assert(hangs_off(edges, prev_members, j, prev_members[j]));
                let i = choose|i: int| 0 <= i < j && #[trigger] joined(edges, prev_members[i], prev_members[j]);
                assert(members[i] == prev_members[i] && members[j] == prev_members[j]);
                assert(joined(edges, members[i], members[j]));
            } else {
                assert(hangs_off(edges, prev_members, here, before_stack[last]));
                let i = choose|i: int| 0 <= i < here && #[trigger] joined(edges, prev_members[i], before_stack[last]);
                assert(members[i] == prev_members[i]);
                assert(joined(edges, members[i], members[j]));
            }
        }
        assert forall|j: int| 0 <= j < stack.len() implies (#[trigger] stack[j]) == start
            || hangs_off(edges, members, members.len() as int, stack[j]) by {
            if j < mid_stack.len() {
                assert(stack[j] == mid_stack2[j] && mid_stack2[j] == mid_stack[j] && mid_stack[j] == before_stack[j]);
                if before_stack[j] != start {
                    assert(hangs_off(edges, prev_members, here, before_stack[j]));
                    let i = choose|i: int| 0 <= i < here && #[trigger] joined(edges, prev_members[i], before_stack[j]);
                    assert(members[i] == prev_members[i]);
                    assert(joined(edges, members[i], stack[j]));
                }
            } else if j < mid_stack2.len() {
                assert(stack[j] == mid_stack2[j]);
                assert(listed_target(outs, mid_stack2[j]));
                let m = choose|m: int| 0 <= m < outs.len() && (#[trigger] outs[m]).0 == mid_stack2[j];
                lemma_out_edges_sound(edges, node, m);
                let k = choose|k: int| 0 <= k < edges.len() && edges[k].0 == node && edges[k].1 == out_edges(edges, node)[m].0
                    && edges[k].2 == out_edges(edges, node)[m].1;
                assert(has_edge(edges, node, stack[j]));
                assert(joined(edges, members[here], stack[j]));
            } else {
                assert(listed_target(ins, stack[j]));
                let m = choose|m: int| 0 <= m < ins.len() && (#[trigger] ins[m]).0 == stack[j];
                lemma_in_edges_sound(edges, node, m);
                let k = choose|k: int| 0 <= k < edges.len() && edges[k].1 == node && edges[k].0 == in_edges(edges, node)[m].0
                    && edges[k].2 == in_edges(edges, node)[m].1;
                assert(has_edge(edges, stack[j], node));
                assert(joined(edges, members[here], stack[j]));
            }
        }
    }

    /// The weakly connected components of the graph, found by depth-first search from each
    /// wallet in turn, following edges both ways; `labels[v]` is the component of wallet `v`.
    pub fn find_connected_components(&self) -> (r: (Vec<Vec<usize>>, Vec<usize>))
        requires
            self.wf(),
            self.wallet_views().len() < usize::MAX,
        ensures
            is_component_split(self.wallet_views().len() as int, self.edge_list(), r.0@, r.1@),
    {
        let n = self.wallets.len();
        let ghost edges = graph_edges(self.graph);
        let mut labels: Vec<usize> = Vec::new();
        let mut i: usize = 0;
        while i < n
            invariant
                i <= n,
                labels@.len() == i,
                forall|v: int| 0 <= v < i ==> labels@[v] == UNLABELED,
            decreases n - i,
        {
            labels.push(UNLABELED);
            i = i + 1;
        }
        let mut comps: Vec<Vec<usize>> = Vec::new();
        let mut start: usize = 0;
        while start < n
            invariant
                self.wf(),
                n == self.wallets@.len(),
                n < usize::MAX,
                edges == graph_edges(self.graph),
                start <= n,
                labels@.len() == n,
                comps@.len() < UNLABELED,
                comps@.len() <= start,
                forall|v: int| 0 <= v < start ==> labels@[v] != UNLABELED,
                forall|v: int| 0 <= v < n && labels@[v] != UNLABELED ==>
                    (#[trigger] labels@[v]) < comps@.len() && comps@[labels@[v] as int]@.contains(v as usize),
                forall|c: int, j: int| 0 <= c < comps@.len() && 0 <= j < comps@[c]@.len() ==>
                    (#[trigger] comps@[c]@[j]) < n && labels@[comps@[c]@[j] as int] == c,
                forall|c: int| 0 <= c < comps@.len() ==> (#[trigger] comps@[c]@).len() > 0 && comps@[c]@.no_duplicates(),
                forall|c: int| 0 <= c < comps@.len() ==> linked_in_order(edges, #[trigger] comps@[c]@),
                forall|k: int| 0 <= k < edges.len() && (labels@[(#[trigger] edges[k]).0 as int] != UNLABELED || labels@[edges[k].1 as int] != UNLABELED)
                    ==> labels@[edges[k].0 as int] == labels@[edges[k].1 as int],
            decreases n - start,
        {
            if labels[start] != UNLABELED {
                start = start + 1;
                continue;
            }
            let cur = comps.len();
            let mut members: Vec<usize> = Vec::new();
            let mut stack: Vec<usize> = Vec::new();
            stack.push(start);
            let ghost mut remaining: int = unlabeled_count(labels@);
            proof {
                assert(stack@[0] == start);
                lemma_unlabeled_nonneg(labels@);
            }
            while stack.len() > 0
                invariant
                    self.wf(),
                    n == self.wallets@.len(),
                    edges == graph_edges(self.graph),
                    start < n,
                    labels@.len() == n,
                    cur == comps@.len(),
                    cur < UNLABELED,
                    remaining == unlabeled_count(labels@),
                    remaining >= 0,
                    forall|j: int| 0 <= j < stack@.len() ==> (#[trigger] stack@[j]) < n,
                    labels@[start as int] != UNLABELED || stack@.contains(start),
                    forall|v: int| 0 <= v < start ==> labels@[v] != UNLABELED && labels@[v] < cur,
                    forall|v: int| 0 <= v < n && labels@[v] != UNLABELED ==> (#[trigger] labels@[v]) <= cur,
                    forall|v: int| 0 <= v < n && labels@[v] != UNLABELED && labels@[v] < cur ==>
                        comps@[labels@[v] as int]@.contains(v as usize),
                    forall|v: int| 0 <= v < n && labels@[v] == cur ==> members@.contains(v as usize),
                    forall|c: int, j: int| 0 <= c < comps@.len() && 0 <= j < comps@[c]@.len() ==>
                        (#[trigger] comps@[c]@[j]) < n && labels@[comps@[c]@[j] as int] == c,
                    forall|j: int| 0 <= j < members@.len() ==> (#[trigger] members@[j]) < n && labels@[members@[j] as int] == cur,
                    members@.no_duplicates(),
                    // the search starts at `start`, and every other wallet it reaches hangs off one
                    // reached before
                    labels@[start as int] == UNLABELED ==> members@.len() == 0,
                    members@.len() > 0 ==> members@[0] == start,
                    linked_in_order(edges, members@),
                    forall|j: int| 0 <= j < stack@.len() ==> (#[trigger] stack@[j]) == start
                        || hangs_off(edges, members@, members@.len() as int, stack@[j]),
                    forall|c: int| 0 <= c < comps@.len() ==> (#[trigger] comps@[c]@).len() > 0 && comps@[c]@.no_duplicates(),
                    forall|c: int| 0 <= c < comps@.len() ==> linked_in_order(edges, #[trigger] comps@[c]@),
                    // edges touching finished components stay inside them
                    forall|k: int| 0 <= k < edges.len() && (labels@[(#[trigger] edges[k]).0 as int] < cur || labels@[edges[k].1 as int] < cur)
                        ==> labels@[edges[k].0 as int] == labels@[edges[k].1 as int],
                    // every neighbour of the current component is in it or waits on the stack
                    forall|k: int| 0 <= k < edges.len() && labels@[(#[trigger] edges[k]).0 as int] == cur
                        ==> labels@[edges[k].1 as int] == cur || stack@.contains(edges[k].1),
                    forall|k: int| 0 <= k < edges.len() && labels@[(#[trigger] edges[k]).1 as int] == cur
                        ==> labels@[edges[k].0 as int] == cur || stack@.contains(edges[k].0),
                decreases remaining, stack@.len(),
            {
                let ghost before_stack = stack@;
                let ghost before_labels = labels@;
                let node = stack.pop().unwrap();
                proof {
                    assert(before_stack == stack@.push(node));
                    assert forall|x: usize| before_stack.contains(x) && x != node implies stack@.contains(x) by {
                        let m = choose|m: int| 0 <= m < before_stack.len() && before_stack[m] == x;
                        assert(m < stack@.len());
                        assert(stack@[m] == x);
                    }
                }
                if labels[node] != UNLABELED {
                    proof {
                        assert(labels@[node as int] <= cur);
                        assert forall|k: int| 0 <= k < edges.len() && labels@[(#[trigger] edges[k]).0 as int] == cur
                            implies labels@[edges[k].1 as int] == cur || stack@.contains(edges[k].1) by {
                            if edges[k].1 == node {
                                if labels@[node as int] < cur {
                                    assert(labels@[edges[k].0 as int] == labels@[edges[k].1 as int]);
                                }
                            } else if labels@[edges[k].1 as int] != cur {
                                assert(before_stack.contains(edges[k].1));
                            }
                        }
                        assert forall|k: int| 0 <= k < edges.len() && labels@[(#[trigger] edges[k]).1 as int] == cur
                            implies labels@[edges[k].0 as int] == cur || stack@.contains(edges[k].0) by {
                            if edges[k].0 == node {
                                if labels@[node as int] < cur {
                                    assert(labels@[edges[k].0 as int] == labels@[edges[k].1 as int]);
                                }
                            } else if labels@[edges[k].0 as int] != cur {
                                assert(before_stack.contains(edges[k].0));
                            }
                        }
                        if labels@[start as int] == UNLABELED {
                            assert(node != start);
                            assert(before_stack.contains(start));
                        }
                    }
                    continue;
                }
                proof {
                    lemma_unlabeled_update(labels@, node as int, cur);
                    assert(node >= start);
                    assert(!members@.contains(node)) by {
                        if members@.contains(node) {
                            let j = choose|j: int| 0 <= j < members@.len() && members@[j] == node;
                            assert(labels@[members@[j] as int] == cur);
                        }
                    }
                    // no edge joins the node to a finished component
                    assert forall|k: int| 0 <= k < edges.len() && ((#[trigger] edges[k]).0 == node || edges[k].1 == node)
                        implies labels@[edges[k].0 as int] == cur || labels@[edges[k].0 as int] == UNLABELED by {
                        if labels@[edges[k].0 as int] < cur || labels@[edges[k].1 as int] < cur {
                            assert(labels@[edges[k].0 as int] == labels@[edges[k].1 as int]);
                        }
                    }
                    assert forall|k: int| 0 <= k < edges.len() && ((#[trigger] edges[k]).0 == node || edges[k].1 == node)
                        implies labels@[edges[k].1 as int] == cur || labels@[edges[k].1 as int] == UNLABELED by {
                        if labels@[edges[k].0 as int] < cur || labels@[edges[k].1 as int] < cur {
                            assert(labels@[edges[k].0 as int] == labels@[edges[k].1 as int]);
                        }
                    }
                }
                labels.set(node, cur);
                let ghost prev_members = members@;
                members.push(node);
                proof {
                    remaining = remaining - 1;
                    assert(members@.no_duplicates()) by {
                        assert forall|a: int, b: int| 0 <= a < b < members@.len() implies members@[a] != members@[b] by {
                            if b == prev_members.len() {
                                assert(members@[a] == prev_members[a]);
                                assert(members@[b] == node);
                                if prev_members[a] == node {
                                    assert(prev_members.contains(node));
                                }
                            } else {
                                assert(prev_members[a] != prev_members[b]);
                            }
                        }
                    }
                }
                let outs = graph_outgoing(&self.graph, node);
                proof {
                    assert forall|j: int| 0 <= j < outs@.len() implies (#[trigger] outs@[j]).0 < labels@.len() by {
                        lemma_out_edges_sound(edges, node, j);
                    }
                }
                let ghost mid_stack = stack@;
                Self::push_unlabeled(&mut stack, &outs, &labels);
                let ins = graph_incoming(&self.graph, node);
                proof {
                    assert forall|j: int| 0 <= j < ins@.len() implies (#[trigger] ins@[j]).0 < labels@.len() by {
                        lemma_in_edges_sound(edges, node, j);
                    }
                }
                let ghost mid_stack2 = stack@;
                Self::push_unlabeled(&mut stack, &ins, &labels);
                proof {
                    assert forall|x: usize| mid_stack.contains(x) implies stack@.contains(x) by {
                        let m = choose|m: int| 0 <= m < mid_stack.len() && mid_stack[m] == x;
                        assert(mid_stack2[m] == x);
                        assert(stack@[m] == x);
                    }
                    assert forall|x: usize| mid_stack2.contains(x) implies stack@.contains(x) by {
                        let m = choose|m: int| 0 <= m < mid_stack2.len() && mid_stack2[m] == x;
                        assert(stack@[m] == x);
                    }
                    assert forall|j: int| 0 <= j < stack@.len() implies (#[trigger] stack@[j]) < n by {
                        if j < mid_stack2.len() {
                            assert(stack@[j] == mid_stack2[j]);
                            if j < mid_stack.len() {
                                assert(mid_stack2[j] == mid_stack[j]);
                            }
                        }
                    }
                    assert forall|k: int| 0 <= k < edges.len() && labels@[(#[trigger] edges[k]).0 as int] == cur
                        implies labels@[edges[k].1 as int] == cur || stack@.contains(edges[k].1) by {
                        let t = edges[k].1;
                        if edges[k].0 == node {
                            lemma_out_edges_complete(edges, node, k);
                            let j = choose|j: int| 0 <= j < outs@.len() && outs@[j] == (edges[k].1, edges[k].2);
                            if labels@[t as int] == UNLABELED {
                                assert(mid_stack2.contains(outs@[j].0));
                            }
                        } else {
                            assert(before_labels[edges[k].0 as int] == cur);
                            if t != node && labels@[t as int] != cur {
                                assert(before_stack.contains(t));
                                assert(mid_stack.contains(t));
                            }
                        }
                    }
                    assert forall|k: int| 0 <= k < edges.len() && labels@[(#[trigger] edges[k]).1 as int] == cur
                        implies labels@[edges[k].0 as int] == cur || stack@.contains(edges[k].0) by {
                        let t = edges[k].0;
                        if edges[k].1 == node {
                            lemma_in_edges_complete(edges, node, k);
                            let j = choose|j: int| 0 <= j < ins@.len() && ins@[j] == (edges[k].0, edges[k].2);
                            if labels@[t as int] == UNLABELED {
                                assert(stack@.contains(ins@[j].0));
                            }
                        } else {
                            assert(before_labels[edges[k].1 as int] == cur);
                            if t != node && labels@[t as int] != cur {
                                assert(before_stack.contains(t));
                                assert(mid_stack.contains(t));
                            }
                        }
                    }
                    assert forall|k: int| 0 <= k < edges.len() && (labels@[(#[trigger] edges[k]).0 as int] < cur || labels@[edges[k].1 as int] < cur)
                        implies labels@[edges[k].0 as int] == labels@[edges[k].1 as int] by {
                        assert(before_labels[edges[k].0 as int] < cur || before_labels[edges[k].1 as int] < cur);
                    }
                    assert forall|c: int, j: int| 0 <= c < comps@.len() && 0 <= j < comps@[c]@.len() implies
                        (#[trigger] comps@[c]@[j]) < n && labels@[comps@[c]@[j] as int] == c by {
                        assert(before_labels[comps@[c]@[j] as int] == c);
                    }
                    assert forall|v: int| 0 <= v < n && labels@[v] == cur implies members@.contains(v as usize) by {
                        if v == node {
                            assert(members@[prev_members.len() as int] == node);
                        } else {
                            assert(before_labels[v] == cur);
                            let j = choose|j: int| 0 <= j < prev_members.len() && prev_members[j] == v as usize;
                            assert(members@[j] == prev_members[j]);
                        }
                    }
                    if labels@[start as int] == UNLABELED {
                        assert(node != start);
                        assert(before_stack.contains(start));
                        assert(mid_stack.contains(start));
                    }
                }
                proof {
                    Self::lemma_search_step(edges, start, node, before_stack, prev_members, members@, mid_stack, mid_stack2,
                        stack@, outs@, ins@);
                }
            }
            proof {
                assert(labels@[start as int] != UNLABELED);
                assert(members@.contains(start)) by {
                    assert(labels@[start as int] <= cur);
                    if labels@[start as int] < cur {
                        assert(comps@[labels@[start as int] as int]@.contains(start));
                        let j = choose|j: int| 0 <= j < comps@[labels@[start as int] as int]@.len()
                            && comps@[labels@[start as int] as int]@[j] == start;
                        assert(labels@[comps@[labels@[start as int] as int]@[j] as int] == labels@[start as int]);
                        // start was unlabeled when this search began, so it cannot be in a finished component
                        assert(false);
                    }
                }
            }
            comps.push(members);
            start = start + 1;
        }
        proof {
            assert forall|v: int| 0 <= v < n implies (#[trigger] labels@[v]) < comps@.len() && comps@[labels@[v] as int]@.contains(v as usize) by {
                assert(labels@[v] != UNLABELED);
            }
        }
        (comps, labels)
    }
}


/// Some edge goes from `a` to `b`.
pub open spec fn has_edge(edges: Seq<(usize, usize, usize)>, a: usize, b: usize) -> bool {
    exists|k: int| 0 <= k < edges.len() && (#[trigger] edges[k]).0 == a && edges[k].1 == b
}

/// Consecutive wallets of `p` are joined by edges.
pub open spec fn is_path(edges: Seq<(usize, usize, usize)>, p: Seq<usize>) -> bool {
    forall|i: int| 0 <= i < p.len() - 1 ==> has_edge(edges, #[trigger] p[i], p[i + 1])
}

/// `c` is a circular transfer path through `start`: at least two distinct wallets, starting at
/// `start`, each sending to the next, the last sending back to `start`, at most `max_len + 1`
/// wallets long.
pub open spec fn is_cycle(edges: Seq<(usize, usize, usize)>, start: usize, c: Seq<usize>, max_len: usize) -> bool {
    &&& 2 <= c.len() <= max_len + 1
    &&& c[0] == start
    &&& is_path(edges, c)
    &&& has_edge(edges, c.last(), start)
    &&& c.no_duplicates()
}

/// Most cycles one search step collects before it stops descending.
pub const CYCLES_PER_STEP: usize = 20;

/// The views of a list of index lists.
pub open spec fn list_views(v: Seq<Vec<usize>>) -> Seq<Seq<usize>> {
    v.map_values(|c: Vec<usize>| c@)
}

/// The circular paths back to `start` that the depth-first search from `current` collects,
/// `path` being the wallets already on the way (see `dfs_cycles`): none once the path is longer
/// than `max_len`; otherwise the scan of `current`'s outgoing edges in petgraph's order.
pub open spec fn dfs_found(
    edges: Seq<(usize, usize, usize)>,
    current: usize,
    start: usize,
    path: Seq<usize>,
    max_len: usize,
    budget: usize,
    shared: bool,
) -> Seq<Seq<usize>>
    decreases max_len + 1 - path.len(), 1int, 0int,
{
    if path.len() > max_len {
        Seq::empty()
    } else {
        dfs_scan(edges, out_edges(edges, current), 0, path.push(current), start, max_len, budget, shared, Seq::empty())
    }
}

/// The scan of the outgoing edges `outs` from position `i`, with `p` the path so far and `acc`
/// the cycles collected so far: an edge back to `start` closes the path into a cycle (when it
/// holds at least two wallets); an edge to a wallet off the path is followed while fewer than
/// `budget` cycles were collected, with the budget left over when `shared`.
pub open spec fn dfs_scan(
    edges: Seq<(usize, usize, usize)>,
    outs: Seq<(usize, usize)>,
    i: int,
    p: Seq<usize>,
    start: usize,
    max_len: usize,
    budget: usize,
    shared: bool,
    acc: Seq<Seq<usize>>,
) -> Seq<Seq<usize>>
    decreases max_len + 2 - p.len(), 0int, outs.len() - i,
{
    if i < 0 || i >= outs.len() || p.len() > max_len + 1 {
        acc
    } else {
        let t = outs[i].0;
        let next = if t == start && p.len() >= 2 {
            acc.push(p)
        } else if !p.contains(t) && acc.len() < budget {
            acc + dfs_found(edges, t, start, p, max_len, if shared { (budget - acc.len()) as usize } else { budget }, shared)
        } else {
            acc
        };
        dfs_scan(edges, outs, i + 1, p, start, max_len, budget, shared, next)
    }
}

/// The cycles collected after the edge to `t`, from those collected before it (one step of
/// `dfs_scan`).
pub open spec fn scan_step(
    edges: Seq<(usize, usize, usize)>,
    t: usize,
    p: Seq<usize>,
    start: usize,
    max_len: usize,
    budget: usize,
    shared: bool,
    acc: Seq<Seq<usize>>,
) -> Seq<Seq<usize>> {
    if t == start && p.len() >= 2 {
        acc.push(p)
    } else if !p.contains(t) && acc.len() < budget {
        acc + dfs_found(edges, t, start, p, max_len, if shared { (budget - acc.len()) as usize } else { budget }, shared)
    } else {
        acc
    }
}

proof fn lemma_scan_unfold(
    edges: Seq<(usize, usize, usize)>,
    outs: Seq<(usize, usize)>,
    i: int,
    p: Seq<usize>,
    start: usize,
    max_len: usize,
    budget: usize,
    shared: bool,
    acc: Seq<Seq<usize>>,
)
    requires
        0 <= i < outs.len(),
        p.len() <= max_len + 1,
    ensures
        dfs_scan(edges, outs, i, p, start, max_len, budget, shared, acc)
            == dfs_scan(edges, outs, i + 1, p, start, max_len, budget, shared,
                scan_step(edges, outs[i].0, p, start, max_len, budget, shared, acc)),
{
}

impl TransactionGraph {
    /// Depth-first search for circular paths back to `start`, extending `path` (which ends just
    /// before `current`). `visited` marks exactly the wallets on the path. The search descends
    /// only while fewer than `budget` cycles were collected: counted in this call alone, or, when
    /// `shared`, together with those of the calls it makes (the budget is then what is left of a
    /// limit common to the whole search).
    #[verifier::rlimit(80)]
    fn dfs_cycles(&self, current: usize, start: usize, visited: &mut Vec<bool>, path: &mut Vec<usize>, max_len: usize,
        budget: usize, shared: bool)
        -> (cycles: Vec<Vec<usize>>)
        requires
            self.wf(),
            current < self.wallets@.len(),
            start < self.wallets@.len(),
            old(visited)@.len() == self.wallets@.len(),
            forall|v: int| 0 <= v < old(visited)@.len() ==> (old(visited)@[v] <==> old(path)@.contains(v as usize)),
            !old(path)@.contains(current),
            old(path)@.len() == 0 ==> current == start,
            old(path)@.len() > 0 ==> old(path)@[0] == start && has_edge(graph_edges(self.graph), old(path)@.last(), current),
            is_path(graph_edges(self.graph), old(path)@),
            old(path)@.no_duplicates(),
            old(path)@.len() <= max_len + 1,
            max_len < usize::MAX,
        ensures
            final(visited)@ == old(visited)@,
            final(path)@ == old(path)@,
            forall|k: int| 0 <= k < cycles@.len() ==> is_cycle(graph_edges(self.graph), start, (#[trigger] cycles@[k])@, max_len),
            list_views(cycles@) == dfs_found(graph_edges(self.graph), current, start, old(path)@, max_len, budget, shared),
        decreases max_len + 1 - path@.len(),
    {
        let mut cycles: Vec<Vec<usize>> = Vec::new();
        proof {
            assert(list_views(cycles@) =~= Seq::<Seq<usize>>::empty());
        }
        if path.len() > max_len {
            return cycles;
        }
        let ghost edges = graph_edges(self.graph);
        let ghost path0 = path@;
        let ghost visited0 = visited@;
        visited.set(current, true);
        path.push(current);
        proof {
            assert(path@ == path0.push(current));
            assert(is_path(edges, path@)) by {
                assert forall|i: int| 0 <= i < path@.len() - 1 implies has_edge(edges, #[trigger] path@[i], path@[i + 1]) by {
                    if i < path0.len() - 1 {
                        assert(path@[i] == path0[i] && path@[i + 1] == path0[i + 1]);
                    } else {
                        assert(path@[i] == path0.last());
                        assert(path@[i + 1] == current);
                    }
                }
            }
            assert(path@.no_duplicates()) by {
                assert forall|a: int, b: int| 0 <= a < b < path@.len() implies path@[a] != path@[b] by {
                    if b < path0.len() {
                        assert(path0[a] != path0[b]);
                    } else {
                        assert(path@[a] == path0[a]);
                        if path0[a] == current {
                            assert(path0.contains(current));
                        }
                    }
                }
            }
            assert forall|v: int| 0 <= v < visited@.len() implies (visited@[v] <==> path@.contains(v as usize)) by {
                if v == current {
                    assert(path@[path0.len() as int] == current);
                } else {
                    assert(visited@[v] == visited0[v]);
                    if path0.contains(v as usize) {
                        let m = choose|m: int| 0 <= m < path0.len() && path0[m] == v as usize;
                        assert(path@[m] == v as usize);
                    }
                    if path@.contains(v as usize) {
                        let m = choose|m: int| 0 <= m < path@.len() && path@[m] == v as usize;
                        assert(m < path0.len());
                        assert(path0[m] == v as usize);
                    }
                }
            }
            assert(path@[0] == start);
        }
        let outs = graph_outgoing(&self.graph, current);
        let mut i: usize = 0;
        while i < outs.len()
            invariant
                self.wf(),
                edges == graph_edges(self.graph),
                start < self.wallets@.len(),
                i <= outs@.len(),
                outs@ == out_edges(edges, current),
                path@ == path0.push(current),
                old(path)@ == path0,
                visited@ == visited0.update(current as int, true),
                visited@.len() == self.wallets@.len(),
                forall|v: int| 0 <= v < visited@.len() ==> (visited@[v] <==> path@.contains(v as usize)),
                is_path(edges, path@),
                path@.no_duplicates(),
                path@[0] == start,
                path@.len() <= max_len + 1,
                path0.len() <= max_len,
                max_len < usize::MAX,
                forall|k: int| 0 <= k < cycles@.len() ==> is_cycle(edges, start, (#[trigger] cycles@[k])@, max_len),
                dfs_scan(edges, outs@, i as int, path@, start, max_len, budget, shared, list_views(cycles@))
                    == dfs_scan(edges, outs@, 0, path@, start, max_len, budget, shared, Seq::empty()),
            decreases outs@.len() - i,
        {
            let target = outs[i].0;
            let ghost acc0 = list_views(cycles@);
            proof {
                lemma_out_edges_sound(edges, current, i as int);
                let k = choose|k: int| 0 <= k < edges.len() && edges[k].0 == current && edges[k].1 == outs@[i as int].0
                    && edges[k].2 == outs@[i as int].1;
                assert(edges[k] == (self.transfers@[k].0, self.transfers@[k].1, k as usize));
                assert(target < visited@.len());
                assert(visited@[target as int] <==> path@.contains(target));
            }
            if target == start && path.len() >= 2 {
                let found = path.clone();
                proof {
                    assert(found@ == path@);
                    assert(path@.last() == current);
                    let k = choose|k: int| 0 <= k < edges.len() && edges[k].0 == current && edges[k].1 == outs@[i as int].0
                        && edges[k].2 == outs@[i as int].1;
                    assert(has_edge(edges, path@.last(), start));
                }
                cycles.push(found);
                proof {
                    assert(list_views(cycles@) =~= acc0.push(path@));
                }
            } else if target < visited.len() && !visited[target] && cycles.len() < budget {
                proof {
                    assert(!path@.contains(target));
                    let k = choose|k: int| 0 <= k < edges.len() && edges[k].0 == current && edges[k].1 == outs@[i as int].0
                        && edges[k].2 == outs@[i as int].1;
                    assert(has_edge(edges, path@.last(), target));
                    assert(target < self.wallets@.len()) by {
                        assert(edges[k] == (self.transfers@[k].0, self.transfers@[k].1, k as usize));
                    }
                }
                proof {
                    assert(path@.len() == path0.len() + 1);
                }
                let child_budget = if shared { budget - cycles.len() } else { budget };
                let ghost here = path@;
                let more = self.dfs_cycles(target, start, visited, path, max_len, child_budget, shared);
                let mut m: usize = 0;
                while m < more.len()
                    invariant
                        m <= more@.len(),
                        forall|k: int| 0 <= k < more@.len() ==> is_cycle(edges, start, (#[trigger] more@[k])@, max_len),
                        forall|k: int| 0 <= k < cycles@.len() ==> is_cycle(edges, start, (#[trigger] cycles@[k])@, max_len),
                        list_views(cycles@) == acc0 + list_views(more@).take(m as int),
                    decreases more@.len() - m,
                {
                    let copy = more[m].clone();
                    proof {
                        assert(copy@ == more@[m as int]@);
                    }
                    let ghost before_c = cycles@;
                    cycles.push(copy);
                    proof {
                        assert(list_views(cycles@) =~= list_views(before_c).push(copy@));
                        assert(list_views(more@).take(m as int + 1) =~= list_views(more@).take(m as int).push(more@[m as int]@));
                        assert(list_views(cycles@) =~= acc0 + list_views(more@).take(m as int + 1));
                    }
                    m = m + 1;
                }
                proof {
                    assert(list_views(more@).take(m as int) =~= list_views(more@));
                    assert(here == path@);
                }
            }
            proof {
                assert(list_views(cycles@) == scan_step(edges, target, path@, start, max_len, budget, shared, acc0));
                lemma_scan_unfold(edges, outs@, i as int, path@, start, max_len, budget, shared, acc0);
            }
            i = i + 1;
        }
        proof {
            assert(dfs_found(edges, current, start, path0, max_len, budget, shared)
                == dfs_scan(edges, outs@, 0, path@, start, max_len, budget, shared, Seq::empty()));
        }
        visited.set(current, false);
        path.pop();
        proof {
            assert(path@ =~= path0);
            assert(visited@ =~= visited0) by {
                assert(!visited0[current as int]) by {
                    if visited0[current as int] {
                        assert(path0.contains(current));
                    }
                }
            }
        }
        cycles
    }
}


/// Floor of a millisecond timestamp in whole seconds.
pub open spec fn secs_of(ms: i64) -> int {
    ms as int / 1000
}

fn secs_floor(ms: i64) -> (r: i64)
    ensures
        r == secs_of(ms),
{
    let m = ms as i128;
    let q: i128 = if m >= 0 { m / 1000 } else { -((-m + 999) / 1000) };
    proof {
        if m < 0 {
            assert(q == m as int / 1000) by (nonlinear_arith)
                requires m < 0, q == -((-m + 999) / 1000);
        }
    }
    q as i64
}

/// The transfers out of each wallet of `cycle`, wallet by wallet, as edge weights (positions in
/// the transfer list).
pub open spec fn cycle_edge_weights(edges: Seq<(usize, usize, usize)>, cycle: Seq<usize>) -> Seq<usize>
    decreases cycle.len(),
{
    if cycle.len() == 0 {
        Seq::empty()
    } else {
        cycle_edge_weights(edges, cycle.drop_last()) + out_edges(edges, cycle.last()).map_values(|e: (usize, usize)| e.1)
    }
}

/// Sum of the amounts of a list of transfers.
pub open spec fn amount_sum(t: Seq<(usize, usize, u64, i64)>, ws: Seq<usize>) -> int
    decreases ws.len(),
{
    if ws.len() == 0 { 0 } else { amount_sum(t, ws.drop_last()) + t[ws.last() as int].2 }
}

/// Earliest second among a list of transfers.
pub open spec fn min_secs(t: Seq<(usize, usize, u64, i64)>, ws: Seq<usize>) -> int
    decreases ws.len(),
{
    if ws.len() == 0 {
        i64::MAX as int
    } else {
        let m = min_secs(t, ws.drop_last());
        let s = secs_of(t[ws.last() as int].3);
        if s < m { s } else { m }
    }
}

/// Latest second among a list of transfers.
pub open spec fn max_secs(t: Seq<(usize, usize, u64, i64)>, ws: Seq<usize>) -> int
    decreases ws.len(),
{
    if ws.len() == 0 {
        i64::MIN as int
    } else {
        let m = max_secs(t, ws.drop_last());
        let s = secs_of(t[ws.last() as int].3);
        if s > m { s } else { m }
    }
}

/// Statistics of a circular path.
pub struct CycleStats {
    /// Number of times the pattern repeats: transfers out of its wallets per wallet
    pub repeat_count: usize,
    /// Average amount of those transfers
    pub avg_amount: u64,
    /// Seconds between the earliest and the latest of those transfers
    pub time_span_secs: i64,
    /// Their amounts, for the similarity measure
    pub amounts: Vec<u64>,
}

/// Circular transaction path.
pub struct CircularPath {
    /// Wallets in the circular path (node indices)
    pub path: Vec<usize>,
    /// Statistics of the path
    pub stats: CycleStats,
}

/// The statistics of a cycle from the weights of its wallets' outgoing transfers.
pub open spec fn cycle_stats_match(t: Seq<(usize, usize, u64, i64)>, cycle: Seq<usize>, ws: Seq<usize>, st: CycleStats) -> bool {
    &&& ws.len() > 0
    &&& st.amounts@.len() == ws.len()
    &&& forall|j: int| 0 <= j < ws.len() ==> st.amounts@[j] == t[#[trigger] ws[j] as int].2
    &&& st.avg_amount == amount_sum(t, ws) / ws.len() as int
    &&& st.repeat_count == ws.len() as int / (if cycle.len() > 0 { cycle.len() as int } else { 1 })
    &&& st.time_span_secs == max_secs(t, ws) - min_secs(t, ws)
}

proof fn lemma_stats_bounds(t: Seq<(usize, usize, u64, i64)>, ws: Seq<usize>)
    requires
        forall|j: int| 0 <= j < ws.len() ==> (#[trigger] ws[j]) < t.len(),
    ensures
        0 <= amount_sum(t, ws) <= ws.len() * u64::MAX,
        ws.len() > 0 ==> i64::MIN / 1000 <= min_secs(t, ws) <= max_secs(t, ws) <= i64::MAX / 1000,
    decreases ws.len(),
{
    if ws.len() > 0 {
        lemma_stats_bounds(t, ws.drop_last());
        let ts = t[ws.last() as int].3;
        assert(i64::MIN / 1000 <= secs_of(ts) <= i64::MAX / 1000);
        if ws.len() == 1 {
            assert(min_secs(t, ws.drop_last()) == i64::MAX as int);
            assert(max_secs(t, ws.drop_last()) == i64::MIN as int);
        } else {
            assert(ws.drop_last().len() > 0);
        }
    }
}

impl TransactionGraph {
    /// Statistics of a circular path from all transfers out of its wallets; none when its
    /// wallets sent nothing.
    pub fn analyze_cycle(&self, cycle: &Vec<usize>) -> (r: Option<CycleStats>)
        requires
            self.wf(),
            forall|j: int| 0 <= j < cycle@.len() ==> (#[trigger] cycle@[j]) < self.wallet_views().len(),
        ensures
            match r {
                Some(st) => cycle_stats_match(self.transfer_views(), cycle@, cycle_edge_weights(self.edge_list(), cycle@), st),
                None => cycle_edge_weights(self.edge_list(), cycle@).len() == 0,
            },
    {
        let ghost edges = graph_edges(self.graph);
        let ghost t = self.transfer_views();
        let mut weights: Vec<usize> = Vec::new();
        let mut c: usize = 0;
        while c < cycle.len()
            invariant
                self.wf(),
                edges == graph_edges(self.graph),
                t == self.transfer_views(),
                c <= cycle@.len(),
                weights@ == cycle_edge_weights(edges, cycle@.take(c as int)),
                forall|j: int| 0 <= j < weights@.len() ==> (#[trigger] weights@[j]) < t.len(),
            decreases cycle@.len() - c,
        {
            let outs = self.outgoing(cycle[c]);
            let ghost before = weights@;
            let mut j: usize = 0;
            while j < outs.len()
                invariant
                    self.wf(),
                    edges == graph_edges(self.graph),
                    t == self.transfer_views(),
                    j <= outs@.len(),
                    outs@ == out_edges(edges, cycle@[c as int]),
                    weights@ == before + outs@.take(j as int).map_values(|e: (usize, usize)| e.1),
                    forall|m: int| 0 <= m < before.len() ==> (#[trigger] before[m]) < t.len(),
                    forall|m: int| 0 <= m < weights@.len() ==> (#[trigger] weights@[m]) < t.len(),
                decreases outs@.len() - j,
            {
                proof {
                    lemma_out_edges_sound(edges, cycle@[c as int], j as int);
                    let k = choose|k: int| 0 <= k < edges.len() && edges[k].0 == cycle@[c as int]
                        && edges[k].1 == outs@[j as int].0 && edges[k].2 == outs@[j as int].1;
                    assert(edges[k].2 == k as usize);
                }
                weights.push(outs[j].1);
                proof {
                    assert(outs@.take(j as int + 1).map_values(|e: (usize, usize)| e.1)
                        =~= outs@.take(j as int).map_values(|e: (usize, usize)| e.1).push(outs@[j as int].1));
                }
                j = j + 1;
            }
            proof {
                assert(outs@.take(j as int) =~= outs@);
                assert(cycle@.take(c as int + 1).drop_last() =~= cycle@.take(c as int));
                assert(cycle@.take(c as int + 1).last() == cycle@[c as int]);
            }
            c = c + 1;
        }
        proof {
            assert(cycle@.take(c as int) =~= cycle@);
        }
        let n = weights.len();
        if n == 0 {
            return None;
        }
        proof {
            lemma_stats_bounds(t, weights@);
        }
        let mut sum: u128 = 0;
        let mut amounts: Vec<u64> = Vec::new();
        let mut lo: i64 = i64::MAX;
        let mut hi: i64 = i64::MIN;
        let mut j: usize = 0;
        while j < n
            invariant
                self.wf(),
                t == self.transfer_views(),
                n == weights@.len(),
                n > 0,
                j <= n,
                forall|m: int| 0 <= m < weights@.len() ==> (#[trigger] weights@[m]) < t.len(),
                sum == amount_sum(t, weights@.take(j as int)),
                sum <= j * u64::MAX,
                amounts@.len() == j,
                forall|m: int| 0 <= m < j ==> amounts@[m] == t[#[trigger] weights@[m] as int].2,
                lo == min_secs(t, weights@.take(j as int)),
                hi == max_secs(t, weights@.take(j as int)),
            decreases n - j,
        {
            proof {
                assert(weights@.take(j as int + 1).drop_last() =~= weights@.take(j as int));
                assert(weights@.take(j as int + 1).last() == weights@[j as int]);
                lemma_stats_bounds(t, weights@.take(j as int + 1));
            }
            let k = weights[j];
            let e = &self.transfers[k].2;
            sum = sum + e.amount as u128;
            amounts.push(e.amount);
            let s = secs_floor(e.timestamp_ms);
            if s < lo {
                lo = s;
            }
            if s > hi {
                hi = s;
            }
            proof {
                assert(sum <= (j + 1) * u64::MAX) by (nonlinear_arith)
                    requires sum <= j * u64::MAX + u64::MAX;
            }
            j = j + 1;
        }
        proof {
            assert(weights@.take(n as int) =~= weights@);
            assert(amount_sum(t, weights@) <= n * u64::MAX);
            assert(amount_sum(t, weights@) / (n as int) <= u64::MAX) by (nonlinear_arith)
                requires amount_sum(t, weights@) <= n * u64::MAX, n > 0, amount_sum(t, weights@) >= 0;
        }
        let avg = (sum / (n as u128)) as u64;
        let len = if cycle.len() > 0 { cycle.len() } else { 1 };
        Some(CycleStats {
            repeat_count: n / len,
            avg_amount: avg,
            time_span_secs: hi - lo,
            amounts,
        })
    }
}


/// Most circular paths collected before ranking.
pub const MAX_CIRCULAR_PATHS: usize = 100;
/// Most circular paths kept after ranking.
pub const KEPT_CIRCULAR_PATHS: usize = 50;

/// A reported circular path is a cycle of at most `max_cycle_length` wallets whose statistics
/// are those of its wallets' transfers.
pub open spec fn circular_path_ok(
    edges: Seq<(usize, usize, usize)>,
    t: Seq<(usize, usize, u64, i64)>,
    max_cycle_length: usize,
    p: CircularPath,
) -> bool {
    &&& p.path@.len() >= 2
    &&& p.path@.len() <= max_cycle_length
    &&& is_cycle(edges, p.path@[0], p.path@, max_cycle_length)
    &&& cycle_stats_match(t, p.path@, cycle_edge_weights(edges, p.path@), p.stats)
}

/// The wallets of each circular path of a list.
pub open spec fn path_views(v: Seq<CircularPath>) -> Seq<Seq<usize>> {
    v.map_values(|p: CircularPath| p.path@)
}

/// A cycle found by the search is kept when it has two to `max_cycle_length` wallets and its
/// wallets sent something.
pub open spec fn keeps_cycle(edges: Seq<(usize, usize, usize)>, c: Seq<usize>, max_cycle_length: usize) -> bool {
    2 <= c.len() <= max_cycle_length && cycle_edge_weights(edges, c).len() > 0
}

/// `acc` followed by the kept cycles of `cs`, in order, while fewer than `MAX_CIRCULAR_PATHS`
/// are held.
pub open spec fn keep_cycles(edges: Seq<(usize, usize, usize)>, cs: Seq<Seq<usize>>, max_cycle_length: usize, acc: Seq<Seq<usize>>)
    -> Seq<Seq<usize>>
    decreases cs.len(),
{
    if cs.len() == 0 || acc.len() >= MAX_CIRCULAR_PATHS {
        acc
    } else {
        let next = if keeps_cycle(edges, cs[0], max_cycle_length) { acc.push(cs[0]) } else { acc };
        keep_cycles(edges, cs.drop_first(), max_cycle_length, next)
    }
}

/// The circular paths collected from the searches out of the first `s` wallets, each search
/// stopping its descent after `CYCLES_PER_STEP` cycles, until `MAX_CIRCULAR_PATHS` are held.
pub open spec fn circular_found(edges: Seq<(usize, usize, usize)>, s: nat, max_cycle_length: usize) -> Seq<Seq<usize>>
    decreases s,
{
    if s == 0 {
        Seq::empty()
    } else {
        let prev = circular_found(edges, (s - 1) as nat, max_cycle_length);
        if prev.len() >= MAX_CIRCULAR_PATHS {
            prev
        } else {
            keep_cycles(edges, dfs_found(edges, (s - 1) as usize, (s - 1) as usize, Seq::empty(), max_cycle_length,
                CYCLES_PER_STEP, false), max_cycle_length, prev)
        }
    }
}

/// The repeat count of a circular path: transfers out of its wallets per wallet.
pub open spec fn path_repeat_count(edges: Seq<(usize, usize, usize)>, p: Seq<usize>) -> int {
    cycle_edge_weights(edges, p).len() as int / (if p.len() > 0 { p.len() as int } else { 1 })
}

/// How many leading paths of `ranked` repeat at least as often as `item`.
pub open spec fn leading_at_least(edges: Seq<(usize, usize, usize)>, ranked: Seq<Seq<usize>>, item: Seq<usize>) -> nat
    decreases ranked.len(),
{
    if ranked.len() == 0 || path_repeat_count(edges, ranked[0]) < path_repeat_count(edges, item) {
        0
    } else {
        1 + leading_at_least(edges, ranked.drop_first(), item)
    }
}

/// Stable ranking by repeat count, highest first: the paths of `rest` inserted one by one into
/// `ranked`, each after those that repeat at least as often.
pub open spec fn rank_paths(edges: Seq<(usize, usize, usize)>, rest: Seq<Seq<usize>>, ranked: Seq<Seq<usize>>) -> Seq<Seq<usize>>
    decreases rest.len(),
{
    if rest.len() == 0 {
        ranked
    } else {
        rank_paths(edges, rest.drop_first(), ranked.insert(leading_at_least(edges, ranked, rest[0]) as int, rest[0]))
    }
}

proof fn lemma_leading_at_most(edges: Seq<(usize, usize, usize)>, ranked: Seq<Seq<usize>>, item: Seq<usize>)
    ensures
        leading_at_least(edges, ranked, item) <= ranked.len(),
    decreases ranked.len(),
{
    if ranked.len() > 0 {
        lemma_leading_at_most(edges, ranked.drop_first(), item);
    }
}

/// Once a hundred paths are held, later searches add nothing.
proof fn lemma_circular_found_full(edges: Seq<(usize, usize, usize)>, s: nat, t: nat, max_cycle_length: usize)
    requires
        s <= t,
        circular_found(edges, s, max_cycle_length).len() >= MAX_CIRCULAR_PATHS,
    ensures
        circular_found(edges, t, max_cycle_length) == circular_found(edges, s, max_cycle_length),
    decreases t,
{
    if t > s {
        lemma_circular_found_full(edges, s, (t - 1) as nat, max_cycle_length);
    }
}

/// The paths the wash-trading search reports: the collected paths ranked by repeat count,
/// the first `KEPT_CIRCULAR_PATHS` of them.
pub open spec fn top_circular_paths(edges: Seq<(usize, usize, usize)>, n: nat, max_cycle_length: usize) -> Seq<Seq<usize>> {
    let ranked = rank_paths(edges, circular_found(edges, n, max_cycle_length), Seq::empty());
    if ranked.len() > KEPT_CIRCULAR_PATHS { ranked.take(KEPT_CIRCULAR_PATHS as int) } else { ranked }
}

impl TransactionGraph {
    /// Find circular transfer paths (A→B→C→A patterns): a depth-first search from each wallet in
    /// turn collects cycles of at most `max_cycle_length` wallets until a hundred are found; they
    /// are ranked by repeat count, highest first, and the top fifty kept.
    pub fn find_circular_paths(&self, max_cycle_length: usize) -> (r: Vec<CircularPath>)
        requires
            self.wf(),
            max_cycle_length < usize::MAX,
        ensures
            r@.len() <= KEPT_CIRCULAR_PATHS,
            forall|k: int| 0 <= k < r@.len() ==> circular_path_ok(self.edge_list(), self.transfer_views(), max_cycle_length, #[trigger] r@[k]),
            forall|i: int, j: int| 0 <= i < j < r@.len() ==>
                (#[trigger] r@[i]).stats.repeat_count >= (#[trigger] r@[j]).stats.repeat_count,
            path_views(r@) == top_circular_paths(self.edge_list(), self.wallet_views().len() as nat, max_cycle_length),
    {
        let ghost edges = graph_edges(self.graph);
        let ghost t = self.transfer_views();
        let n = self.wallets.len();
        let mut all: Vec<CircularPath> = Vec::new();
        let mut start: usize = 0;
        proof {
            assert(path_views(all@) =~= Seq::<Seq<usize>>::empty());
        }
        while start < n && all.len() < MAX_CIRCULAR_PATHS
            invariant
                self.wf(),
                edges == graph_edges(self.graph),
                t == self.transfer_views(),
                n == self.wallets@.len(),
                start <= n,
                max_cycle_length < usize::MAX,
                all@.len() <= MAX_CIRCULAR_PATHS,
                forall|k: int| 0 <= k < all@.len() ==> circular_path_ok(edges, t, max_cycle_length, #[trigger] all@[k]),
                path_views(all@) == circular_found(edges, start as nat, max_cycle_length),
            decreases n - start,
        {
            let ghost prev = path_views(all@);
            let mut visited: Vec<bool> = Vec::new();
            let mut v: usize = 0;
            while v < n
                invariant
                    v <= n,
                    visited@.len() == v,
                    forall|u: int| 0 <= u < v ==> !visited@[u],
                decreases n - v,
            {
                visited.push(false);
                v = v + 1;
            }
            let mut path: Vec<usize> = Vec::new();
            proof {
                assert forall|u: int| 0 <= u < visited@.len() implies (visited@[u] <==> path@.contains(u as usize)) by {}
                assert(is_path(edges, path@));
                assert(path@ =~= Seq::<usize>::empty());
            }
            let cycles = self.dfs_cycles(start, start, &mut visited, &mut path, max_cycle_length, CYCLES_PER_STEP, false);
            let ghost cs = list_views(cycles@);
            proof {
                assert(circular_found(edges, (start + 1) as nat, max_cycle_length) == keep_cycles(edges, cs, max_cycle_length, prev));
                assert(cs.skip(0) =~= cs);
            }
            let mut c: usize = 0;
            while c < cycles.len() && all.len() < MAX_CIRCULAR_PATHS
                invariant
                    self.wf(),
                    edges == graph_edges(self.graph),
                    t == self.transfer_views(),
                    start < n,
                    c <= cycles@.len(),
                    cs == list_views(cycles@),
                    all@.len() <= MAX_CIRCULAR_PATHS,
                    forall|k: int| 0 <= k < cycles@.len() ==> is_cycle(edges, start, (#[trigger] cycles@[k])@, max_cycle_length),
                    forall|k: int| 0 <= k < all@.len() ==> circular_path_ok(edges, t, max_cycle_length, #[trigger] all@[k]),
                    keep_cycles(edges, cs.skip(c as int), max_cycle_length, path_views(all@))
                        == keep_cycles(edges, cs, max_cycle_length, prev),
                decreases cycles@.len() - c,
            {
                let len = cycles[c].len();
                let ghost acc = path_views(all@);
                proof {
                    assert(is_cycle(edges, start, cycles@[c as int]@, max_cycle_length));
                    assert(cs.skip(c as int)[0] == cycles@[c as int]@);
                    assert(cs.skip(c as int).drop_first() =~= cs.skip(c as int + 1));
                }
                if len >= 2 && len <= max_cycle_length {
                    proof {
                        let cyc = cycles@[c as int]@;
                        assert forall|j: int| 0 <= j < cyc.len() implies (#[trigger] cyc[j]) < self.wallet_views().len() by {
                            if j < cyc.len() - 1 {
                                assert(has_edge(edges, cyc[j], cyc[j + 1]));
                                let k = choose|k: int| 0 <= k < edges.len() && (#[trigger] edges[k]).0 == cyc[j] && edges[k].1 == cyc[j + 1];
                                assert(edges[k] == (self.transfers@[k].0, self.transfers@[k].1, k as usize));
                            } else {
                                let k = choose|k: int| 0 <= k < edges.len() && (#[trigger] edges[k]).0 == cyc.last() && edges[k].1 == start;
                                assert(edges[k] == (self.transfers@[k].0, self.transfers@[k].1, k as usize));
                            }
                        }
                    }
                    match self.analyze_cycle(&cycles[c]) {
                        Some(stats) => {
                            let p = CircularPath { path: cycles[c].clone(), stats };
                            proof {
                                assert(p.path@ == cycles@[c as int]@);
                            }
                            all.push(p);
                            proof {
                                assert(path_views(all@) =~= acc.push(cycles@[c as int]@));
                            }
                        },
                        None => {},
                    }
                }
                c = c + 1;
            }
            proof {
                if c == cycles@.len() {
                    assert(cs.skip(c as int).len() == 0);
                }
            }
            start = start + 1;
        }
        proof {
            if start < n {
                lemma_circular_found_full(edges, start as nat, n as nat, max_cycle_length);
            }
        }
        let ghost found = path_views(all@);
        // rank by repeat count, highest first, keeping the found order among equals
        let mut ranked: Vec<CircularPath> = Vec::new();
        proof {
            assert(path_views(ranked@) =~= Seq::<Seq<usize>>::empty());
        }
        while all.len() > 0
            invariant
                forall|k: int| 0 <= k < all@.len() ==> circular_path_ok(edges, t, max_cycle_length, #[trigger] all@[k]),
                forall|k: int| 0 <= k < ranked@.len() ==> circular_path_ok(edges, t, max_cycle_length, #[trigger] ranked@[k]),
                forall|i: int, j: int| 0 <= i < j < ranked@.len() ==>
                    (#[trigger] ranked@[i]).stats.repeat_count >= (#[trigger] ranked@[j]).stats.repeat_count,
                rank_paths(edges, path_views(all@), path_views(ranked@)) == rank_paths(edges, found, Seq::empty()),
            decreases all@.len(),
        {
            let ghost all0 = all@;
            let item = all.remove(0);
            proof {
                assert(circular_path_ok(edges, t, max_cycle_length, item));
                assert(all0[0] == item);
                assert(path_views(all@) =~= path_views(all0).drop_first());
            }
            let mut pos: usize = 0;
            proof {
                assert(path_views(ranked@).skip(0) =~= path_views(ranked@));
            }
            while pos < ranked.len() && ranked[pos].stats.repeat_count >= item.stats.repeat_count
                invariant
                    pos <= ranked@.len(),
                    circular_path_ok(edges, t, max_cycle_length, item),
                    forall|k: int| 0 <= k < ranked@.len() ==> circular_path_ok(edges, t, max_cycle_length, #[trigger] ranked@[k]),
                    forall|i: int| 0 <= i < pos ==> (#[trigger] ranked@[i]).stats.repeat_count >= item.stats.repeat_count,
                    leading_at_least(edges, path_views(ranked@), item.path@)
                        == pos + leading_at_least(edges, path_views(ranked@).skip(pos as int), item.path@),
                decreases ranked@.len() - pos,
            {
                proof {
                    let rest = path_views(ranked@).skip(pos as int);
                    assert(rest[0] == ranked@[pos as int].path@);
                    assert(rest.drop_first() =~= path_views(ranked@).skip(pos as int + 1));
                }
                pos = pos + 1;
            }
            let ghost before = ranked@;
            proof {
                let rest = path_views(before).skip(pos as int);
                if pos < before.len() {
                    assert(rest[0] == before[pos as int].path@);
                }
                assert(leading_at_least(edges, rest, item.path@) == 0);
                assert forall|i: int| pos <= i < before.len() implies (#[trigger] before[i]).stats.repeat_count < item.stats.repeat_count by {
                    if pos < before.len() && i > pos {
                        assert(before[pos as int].stats.repeat_count >= before[i].stats.repeat_count);
                    }
                }
            }
            ranked.insert(pos, item);
            proof {
                let after = ranked@;
                assert forall|i: int| 0 <= i < after.len() implies
                    (#[trigger] after[i]) == (if i < pos { before[i] } else if i == pos { item } else { before[i - 1] }) by {}
                assert(path_views(after) =~= path_views(before).insert(pos as int, item.path@));
                assert forall|k: int| 0 <= k < after.len() implies circular_path_ok(edges, t, max_cycle_length, #[trigger] after[k]) by {
                    if k < pos {
                        assert(after[k] == before[k]);
                    } else if k > pos {
                        assert(after[k] == before[k - 1]);
                    }
                }
                assert forall|i: int, j: int| 0 <= i < j < after.len() implies
                    (#[trigger] after[i]).stats.repeat_count >= (#[trigger] after[j]).stats.repeat_count by {
                    if j < pos {
                        assert(after[i] == before[i] && after[j] == before[j]);
                    } else if j == pos {
                        assert(after[i] == before[i]);
                    } else if i < pos {
                        assert(after[i] == before[i] && after[j] == before[j - 1]);
                    } else if i == pos {
                        assert(after[j] == before[j - 1]);
                    } else {
                        assert(after[i] == before[i - 1] && after[j] == before[j - 1]);
                    }
                }
                assert(path_views(all0)[0] == item.path@);
            }
        }
        proof {
            assert(path_views(all@) =~= Seq::<Seq<usize>>::empty());
        }
        let ghost full = ranked@;
        ranked.truncate(KEPT_CIRCULAR_PATHS);
        proof {
            if full.len() > KEPT_CIRCULAR_PATHS {
                assert(ranked@ =~= full.take(KEPT_CIRCULAR_PATHS as int));
                assert(path_views(ranked@) =~= path_views(full).take(KEPT_CIRCULAR_PATHS as int));
            } else {
                assert(ranked@ =~= full);
            }
        }
        ranked
    }
}

/// Node and edge counts of the graph and its number of weakly connected components.
pub struct GraphCounts {
    pub node_count: usize,
    pub edge_count: usize,
    pub connected_components: usize,
}

impl TransactionGraph {
    /// Count nodes, edges and weakly connected components.
    pub fn calculate_counts(&self) -> (r: GraphCounts)
        requires
            self.wf(),
        ensures
            r.node_count == self.wallet_views().len(),
            r.edge_count == self.transfer_views().len(),
            r.connected_components == weak_component_count(self.wallet_views().len() as nat, self.edge_list()),
            forall|comps: Seq<Vec<usize>>, labels: Seq<usize>|
                #[trigger] is_component_split(self.wallet_views().len() as int, self.edge_list(), comps, labels)
                    ==> r.connected_components == comps.len(),
    {
        GraphCounts {
            node_count: self.wallets.len(),
            edge_count: graph_edge_count(&self.graph),
            connected_components: graph_component_count(&self.graph),
        }
    }

    /// Empty the graph, keeping its wallet limit.
    pub fn clear(&mut self)
        ensures
            final(self).wf(),
            final(self).wallet_views() == Seq::<Seq<char>>::empty(),
            final(self).transfer_views() == Seq::<(usize, usize, u64, i64)>::empty(),
            final(self).wallet_limit() == old(self).wallet_limit(),
            final(self).counted_edges() == 0,
    {
        *self = TransactionGraph::new(self.max_wallets);
    }

    /// The wallet addresses in the graph, by node index.
    pub fn nodes(&self) -> (r: Vec<String>)
        ensures
            r@.map_values(|w: String| w@) == self.wallet_views(),
    {
        let mut out: Vec<String> = Vec::new();
        let mut i: usize = 0;
        while i < self.wallets.len()
            invariant
                i <= self.wallets@.len(),
                out@.len() == i,
                forall|m: int| 0 <= m < i ==> (#[trigger] out@[m])@ == self.wallets@[m]@,
            decreases self.wallets@.len() - i,
        {
            out.push(self.wallets[i].clone());
            i = i + 1;
        }
        proof {
            assert(out@.map_values(|w: String| w@) =~= self.wallet_views());
        }
        out
    }

    /// Amounts and timestamps of the transfers sent by a wallet, most recent edge first; none for
    /// a wallet not in the graph.
    pub fn edges_from(&self, wallet: &String) -> (r: Vec<(u64, i64)>)
        requires
            self.wf(),
        ensures
            match wallet_position(self.wallet_views(), wallet@) {
                Some(i) => r@.len() == out_edges(self.edge_list(), i as usize).len()
                    && forall|j: int| 0 <= j < r@.len() ==> #[trigger] r@[j] == (
                        self.transfer_views()[out_edges(self.edge_list(), i as usize)[j].1 as int].2,
                        self.transfer_views()[out_edges(self.edge_list(), i as usize)[j].1 as int].3,
                    ),
                None => r@.len() == 0,
            },
    {
        let mut out: Vec<(u64, i64)> = Vec::new();
        match self.find_wallet(wallet) {
            None => out,
            Some(i) => {
                let ghost edges = graph_edges(self.graph);
                let outs = graph_outgoing(&self.graph, i);
                let mut j: usize = 0;
                while j < outs.len()
                    invariant
                        self.wf(),
                        edges == graph_edges(self.graph),
                        outs@ == out_edges(edges, i),
                        j <= outs@.len(),
                        out@.len() == j,
                        forall|m: int| 0 <= m < j ==> #[trigger] out@[m] == (
                            self.transfer_views()[outs@[m].1 as int].2,
                            self.transfer_views()[outs@[m].1 as int].3,
                        ),
                    decreases outs@.len() - j,
                {
                    proof {
                        lemma_out_edges_sound(edges, i, j as int);
                        let k = choose|k: int| 0 <= k < edges.len() && edges[k].0 == i
                            && edges[k].1 == outs@[j as int].0 && edges[k].2 == outs@[j as int].1;
                        assert(edges[k].2 == k as usize);
                    }
                    let k = outs[j].1;
                    let e = &self.transfers[k].2;
                    out.push((e.amount, e.timestamp_ms));
                    j = j + 1;
                }
                out
            },
        }
    }
}

/// Clusters of more wallets than this are split into single wallets.
pub const LARGE_CLUSTER: usize = 100;

/// Number of unordered pairs among `n` items.
pub open spec fn pair_count(n: int) -> int {
    n * (n - 1) / 2
}

/// Number of wallets of a group that sent at least one transfer (counted by position).
pub open spec fn sender_count(edges: Seq<(usize, usize, usize)>, wallets: Seq<usize>) -> int
    decreases wallets.len(),
{
    if wallets.len() == 0 {
        0
    } else {
        sender_count(edges, wallets.drop_last()) + if out_edges(edges, wallets.last()).len() > 0 { 1int } else { 0int }
    }
}

/// Pairs of a group in which at least one wallet sent a transfer: all pairs but those of two
/// wallets that sent nothing.
pub open spec fn connected_pair_count(edges: Seq<(usize, usize, usize)>, wallets: Seq<usize>) -> int {
    pair_count(wallets.len() as int) - pair_count(wallets.len() - sender_count(edges, wallets))
}

/// The pattern a cluster shows: with cohesion `connected / possible` above 0.7 and under a
/// minute on average between its transfers, wash trading (at most five wallets) or coordinated
/// buying; with cohesion above 0.5 and more than ten wallets, a Sybil cluster; else normal.
/// `span` is the time from the first to the last of its `tx_count` transfers, in seconds.
pub open spec fn spec_cluster_pattern(n: int, connected: int, possible: int, tx_count: int, span: int) -> PatternType {
    if n < 2 {
        PatternType::Normal
    } else if 10 * connected > 7 * possible && (tx_count < 2 || span < 60 * (tx_count - 1)) {
        if n <= 5 { PatternType::WashTrading } else { PatternType::CoordinatedBuying }
    } else if 2 * connected > possible && n > 10 {
        PatternType::SybilCluster
    } else {
        PatternType::Normal
    }
}

/// A cluster of wallets with the integer parts of its metrics: cohesion is
/// `connected_pairs / possible_pairs` (zero when there is no pair), the average time between
/// transfers is `time_span_secs / (tx_count - 1)` (zero below two transfers).
pub struct WalletCluster {
    /// Cluster id
    pub id: usize,
    /// Wallets (node indices)
    pub wallets: Vec<usize>,
    /// Pairs of wallets of which at least one sent a transfer
    pub connected_pairs: u64,
    /// Pairs of wallets
    pub possible_pairs: u64,
    /// Transfers sent by the cluster's wallets
    pub tx_count: usize,
    /// Seconds from the first to the last of those transfers (zero when there is none)
    pub time_span_secs: i64,
    /// Pattern the cluster shows
    pub pattern: PatternType,
}

/// The plain contents of a cluster.
pub open spec fn cluster_view(c: WalletCluster) -> (usize, Seq<usize>, u64, u64, usize, i64, PatternType) {
    (c.id, c.wallets@, c.connected_pairs, c.possible_pairs, c.tx_count, c.time_span_secs, c.pattern)
}

/// A cluster's metrics are those of its wallets in the graph.
pub open spec fn cluster_ok(
    edges: Seq<(usize, usize, usize)>,
    t: Seq<(usize, usize, u64, i64)>,
    id: usize,
    wallets: Seq<usize>,
    c: WalletCluster,
) -> bool {
    let ws = cycle_edge_weights(edges, wallets);
    let span = if ws.len() > 0 { max_secs(t, ws) - min_secs(t, ws) } else { 0 };
    &&& c.id == id
    &&& c.wallets@ == wallets
    &&& c.possible_pairs == pair_count(wallets.len() as int)
    &&& c.connected_pairs == connected_pair_count(edges, wallets)
    &&& c.tx_count == ws.len()
    &&& c.time_span_secs == span
    &&& c.pattern == spec_cluster_pattern(wallets.len() as int, c.connected_pairs as int, c.possible_pairs as int, ws.len() as int, span)
}

/// The clusters made from components: a component of more than `LARGE_CLUSTER` wallets becomes
/// one cluster per wallet, numbered from zero; any other keeps its position as id.
pub open spec fn refined_clusters(comps: Seq<Seq<usize>>) -> Seq<(usize, Seq<usize>)>
    decreases comps.len(),
{
    if comps.len() == 0 {
        Seq::empty()
    } else {
        let prev = refined_clusters(comps.drop_last());
        let c = comps.last();
        if c.len() > LARGE_CLUSTER {
            prev + Seq::new(c.len(), |j: int| (j as usize, seq![c[j]]))
        } else {
            prev.push(((comps.len() - 1) as usize, c))
        }
    }
}

/// Views of a list of components.
pub open spec fn component_views(comps: Seq<Vec<usize>>) -> Seq<Seq<usize>> {
    comps.map_values(|c: Vec<usize>| c@)
}

/// A cluster is reported as a Sybil cluster when its pattern says so, or when its cohesion is
/// above 0.8 with at least five wallets.
pub open spec fn is_sybil(v: (usize, Seq<usize>, u64, u64, usize, i64, PatternType)) -> bool {
    v.6 == PatternType::SybilCluster || (10 * v.2 > 8 * v.3 && v.1.len() >= 5)
}

proof fn lemma_pair_count_bounds(m: int, n: int)
    requires
        0 <= m <= n,
    ensures
        0 <= pair_count(m) <= pair_count(n),
        n < 0x1_0000_0000 ==> pair_count(n) < 0x8000_0000_0000_0000,
{
    assert(0 <= m * (m - 1) <= n * (n - 1)) by (nonlinear_arith)
        requires 0 <= m <= n;
    assert(n < 0x1_0000_0000 ==> n * (n - 1) < 0x1_0000_0000 * 0x1_0000_0000) by (nonlinear_arith)
        requires 0 <= n;
}

proof fn lemma_sender_count_bounds(edges: Seq<(usize, usize, usize)>, wallets: Seq<usize>)
    ensures
        0 <= sender_count(edges, wallets) <= wallets.len(),
    decreases wallets.len(),
{
    if wallets.len() > 0 {
        lemma_sender_count_bounds(edges, wallets.drop_last());
    }
}

/// A list of distinct indices below `n` has at most `n` entries.
proof fn lemma_distinct_below(s: Seq<usize>, n: int)
    requires
        s.no_duplicates(),
        0 <= n,
        forall|i: int| 0 <= i < s.len() ==> (#[trigger] s[i]) < n,
    ensures
        s.len() <= n,
{
    let t = s.map_values(|x: usize| x as int);
    assert(t.no_duplicates()) by {
        assert forall|a: int, b: int| 0 <= a < t.len() && 0 <= b < t.len() && a != b implies t[a] != t[b] by {
            assert(s[a] != s[b]);
        }
    }
    t.unique_seq_to_set();
    vstd::set_lib::lemma_int_range(0, n);
    assert(t.to_set().subset_of(vstd::set_lib::set_int_range(0, n))) by {
        assert forall|x: int| t.to_set().contains(x) implies vstd::set_lib::set_int_range(0, n).contains(x) by {
            assert(t.contains(x));
            let i = choose|i: int| 0 <= i < t.len() && t[i] == x;
            assert(s[i] < n);
        }
    }
    vstd::set_lib::lemma_len_subset(t.to_set(), vstd::set_lib::set_int_range(0, n));
}

impl TransactionGraph {
    /// Pairs of a group of wallets in which at least one wallet sent a transfer, and all pairs.
    pub fn cohesion_counts(&self, wallets: &Vec<usize>) -> (r: (u64, u64))
        requires
            self.wf(),
            wallets@.len() < 0x1_0000_0000,
            forall|j: int| 0 <= j < wallets@.len() ==> (#[trigger] wallets@[j]) < self.wallet_views().len(),
        ensures
            r.0 == connected_pair_count(self.edge_list(), wallets@),
            r.1 == pair_count(wallets@.len() as int),
    {
        let ghost edges = graph_edges(self.graph);
        let mut senders: u64 = 0;
        let mut i: usize = 0;
        while i < wallets.len()
            invariant
                self.wf(),
                edges == graph_edges(self.graph),
                i <= wallets@.len(),
                wallets@.len() < 0x1_0000_0000,
                senders == sender_count(edges, wallets@.take(i as int)),
                senders <= i,
            decreases wallets@.len() - i,
        {
            proof {
                assert(wallets@.take(i as int + 1).drop_last() =~= wallets@.take(i as int));
                assert(wallets@.take(i as int + 1).last() == wallets@[i as int]);
            }
            let outs = self.outgoing(wallets[i]);
            if outs.len() > 0 {
                senders = senders + 1;
            }
            i = i + 1;
        }
        proof {
            assert(wallets@.take(i as int) =~= wallets@);
        }
        let n = wallets.len() as u64;
        let m = n - senders;
        proof {
            lemma_pair_count_bounds(m as int, n as int);
            assert(n * (n - 1) < 0x1_0000_0000 * 0x1_0000_0000) by (nonlinear_arith)
                requires n < 0x1_0000_0000, n >= 0;
            assert(m * (m - 1) <= n * (n - 1)) by (nonlinear_arith)
                requires 0 <= m <= n;
        }
        let possible: u64 = if n == 0 { 0 } else { n * (n - 1) / 2 };
        let quiet: u64 = if m == 0 { 0 } else { m * (m - 1) / 2 };
        proof {
            assert(possible == pair_count(n as int)) by (nonlinear_arith)
                requires possible == (if n == 0 { 0 } else { n * (n - 1) / 2 }), n >= 0;
            assert(quiet == pair_count(m as int)) by (nonlinear_arith)
                requires quiet == (if m == 0 { 0 } else { m * (m - 1) / 2 }), m >= 0;
            assert(n == wallets@.len());
            assert(m == wallets@.len() - sender_count(edges, wallets@));
        }
        (possible - quiet, possible)
    }

    /// Metrics and pattern of a cluster of wallets.
    pub fn describe_cluster(&self, id: usize, wallets: Vec<usize>) -> (r: WalletCluster)
        requires
            self.wf(),
            wallets@.len() < 0x1_0000_0000,
            forall|j: int| 0 <= j < wallets@.len() ==> (#[trigger] wallets@[j]) < self.wallet_views().len(),
        ensures
            cluster_ok(self.edge_list(), self.transfer_views(), id, wallets@, r),
    {
        let (connected, possible) = self.cohesion_counts(&wallets);
        let (tx_count, span): (usize, i64) = match self.analyze_cycle(&wallets) {
            Some(st) => (st.amounts.len(), st.time_span_secs),
            None => (0, 0),
        };
        let n = wallets.len();
        let pattern = if n < 2 {
            PatternType::Normal
        } else if 10 * (connected as u128) > 7 * (possible as u128)
            && (tx_count < 2 || (span as i128) < 60 * (tx_count as i128 - 1)) {
            if n <= 5 { PatternType::WashTrading } else { PatternType::CoordinatedBuying }
        } else if 2 * (connected as u128) > possible as u128 && n > 10 {
            PatternType::SybilCluster
        } else {
            PatternType::Normal
        };
        WalletCluster {
            id,
            wallets,
            connected_pairs: connected,
            possible_pairs: possible,
            tx_count,
            time_span_secs: span,
            pattern,
        }
    }

    /// Clusters made from components, with their metrics: a component of more than
    /// `LARGE_CLUSTER` wallets is split into one cluster per wallet.
    pub fn clusters_from_components(&self, comps: &Vec<Vec<usize>>) -> (r: Vec<WalletCluster>)
        requires
            self.wf(),
            forall|c: int, j: int| 0 <= c < comps@.len() && 0 <= j < comps@[c]@.len() ==>
                (#[trigger] comps@[c]@[j]) < self.wallet_views().len(),
            forall|c: int| 0 <= c < comps@.len() ==> (#[trigger] comps@[c]@).len() < 0x1_0000_0000,
        ensures
            r@.len() == refined_clusters(component_views(comps@)).len(),
            forall|k: int| 0 <= k < r@.len() ==> cluster_ok(self.edge_list(), self.transfer_views(),
                refined_clusters(component_views(comps@))[k].0, refined_clusters(component_views(comps@))[k].1, #[trigger] r@[k]),
    {
        let ghost edges = self.edge_list();
        let ghost t = self.transfer_views();
        let mut out: Vec<WalletCluster> = Vec::new();
        let mut c: usize = 0;
        while c < comps.len()
            invariant
                self.wf(),
                edges == self.edge_list(),
                t == self.transfer_views(),
                c <= comps@.len(),
                forall|a: int, j: int| 0 <= a < comps@.len() && 0 <= j < comps@[a]@.len() ==>
                    (#[trigger] comps@[a]@[j]) < self.wallet_views().len(),
                forall|a: int| 0 <= a < comps@.len() ==> (#[trigger] comps@[a]@).len() < 0x1_0000_0000,
                out@.len() == refined_clusters(component_views(comps@).take(c as int)).len(),
                forall|k: int| 0 <= k < out@.len() ==> cluster_ok(edges, t,
                    refined_clusters(component_views(comps@).take(c as int))[k].0,
                    refined_clusters(component_views(comps@).take(c as int))[k].1, #[trigger] out@[k]),
            decreases comps@.len() - c,
        {
            let ghost views = component_views(comps@);
            let ghost prev = refined_clusters(views.take(c as int));
            proof {
                assert(views.take(c as int + 1).drop_last() =~= views.take(c as int));
                assert(views.take(c as int + 1).last() == comps@[c as int]@);
            }
            let comp = &comps[c];
            if comp.len() > LARGE_CLUSTER {
                let ghost base = out@.len();
                let mut j: usize = 0;
                while j < comp.len()
                    invariant
                        self.wf(),
                        edges == self.edge_list(),
                        t == self.transfer_views(),
                        comp@ == comps@[c as int]@,
                        c < comps@.len(),
                        j <= comp@.len(),
                        forall|a: int| 0 <= a < comp@.len() ==> (#[trigger] comp@[a]) < self.wallet_views().len(),
                        base == prev.len(),
                        out@.len() == base + j,
                        forall|k: int| 0 <= k < base ==> cluster_ok(edges, t, prev[k].0, prev[k].1, #[trigger] out@[k]),
                        forall|k: int| 0 <= k < j ==> cluster_ok(edges, t, k as usize, seq![comp@[k]], #[trigger] out@[base + k]),
                    decreases comp@.len() - j,
                {
                    let mut single: Vec<usize> = Vec::new();
                    single.push(comp[j]);
                    proof {
                        assert(single@ =~= seq![comp@[j as int]]);
                    }
                    let cl = self.describe_cluster(j, single);
                    let ghost before = out@;
                    out.push(cl);
                    proof {
                        assert forall|k: int| 0 <= k < base implies cluster_ok(edges, t, prev[k].0, prev[k].1, #[trigger] out@[k]) by {
                            assert(out@[k] == before[k]);
                        }
                        assert forall|k: int| 0 <= k < j + 1 implies cluster_ok(edges, t, k as usize, seq![comp@[k]], #[trigger] out@[base + k]) by {
                            if k < j {
                                assert(out@[base + k] == before[base + k]);
                            }
                        }
                    }
                    j = j + 1;
                }
                proof {
                    let now = refined_clusters(views.take(c as int + 1));
                    assert(now == prev + Seq::new(comp@.len(), |a: int| (a as usize, seq![comp@[a]])));
                    assert forall|k: int| 0 <= k < out@.len() implies cluster_ok(edges, t, now[k].0, now[k].1, #[trigger] out@[k]) by {
                        if k >= base {
                            assert(out@[base + (k - base)] == out@[k]);
                        }
                    }
                }
            } else {
                let cl = self.describe_cluster(c, comp.clone());
                out.push(cl);
                proof {
                    let now = refined_clusters(views.take(c as int + 1));
                    assert(now == prev.push((c, comps@[c as int]@)));
                }
            }
            c = c + 1;
        }
        proof {
            assert(component_views(comps@).take(c as int) =~= component_views(comps@));
        }
        out
    }
}

/// The plain contents of a list of clusters.
pub open spec fn cluster_views(s: Seq<WalletCluster>) -> Seq<(usize, Seq<usize>, u64, u64, usize, i64, PatternType)> {
    s.map_values(|c: WalletCluster| cluster_view(c))
}

/// The Sybil test, as a predicate.
pub open spec fn sybil_pred() -> spec_fn((usize, Seq<usize>, u64, u64, usize, i64, PatternType)) -> bool {
    |v: (usize, Seq<usize>, u64, u64, usize, i64, PatternType)| is_sybil(v)
}

/// Keep the clusters that look like Sybil clusters, in order.
pub fn sybil_clusters(clusters: Vec<WalletCluster>) -> (r: Vec<WalletCluster>)
    ensures
        cluster_views(r@) == cluster_views(clusters@).filter(sybil_pred()),
{
    let ghost all = cluster_views(clusters@);
    let mut rest = clusters;
    let mut out: Vec<WalletCluster> = Vec::new();
    let ghost mut i: int = 0;
    while rest.len() > 0
        invariant
            0 <= i <= all.len(),
            cluster_views(rest@) == all.skip(i),
            cluster_views(out@) == all.take(i).filter(sybil_pred()),
        decreases rest@.len(),
    {
        proof {
            assert(cluster_views(rest@).len() == rest@.len());
        }
        let ghost rest0 = rest@;
        let c = rest.remove(0);
        proof {
            assert(cluster_view(c) == all.skip(i)[0]) by {
                assert(cluster_views(rest0)[0] == cluster_view(rest0[0]));
            }
            assert(all.take(i + 1).drop_last() =~= all.take(i));
            assert(all.take(i + 1).last() == all[i]);
            reveal(Seq::filter);
        }
        let keep = c.pattern == PatternType::SybilCluster
            || (10 * (c.connected_pairs as u128) > 8 * (c.possible_pairs as u128) && c.wallets.len() >= 5);
        let ghost out0 = out@;
        if keep {
            out.push(c);
            proof {
                assert(cluster_views(out@) =~= cluster_views(out0).push(all[i]));
            }
        }
        proof {
            assert(cluster_views(rest@) =~= all.skip(i + 1)) by {
                assert forall|k: int| 0 <= k < rest@.len() implies #[trigger] cluster_views(rest@)[k] == all.skip(i + 1)[k] by {
                    assert(rest@[k] == rest0[k + 1]);
                    assert(cluster_views(rest0)[k + 1] == all.skip(i)[k + 1]);
                }
            }
            i = i + 1;
        }
    }
    proof {
        assert(all.skip(i).len() == 0);
        assert(all.take(i) =~= all);
    }
    out
}

impl TransactionGraph {
    /// Cluster the wallets: the weakly connected components, components of more than
    /// `LARGE_CLUSTER` wallets split into single wallets, each with its metrics and pattern.
    pub fn cluster_wallets(&self) -> (r: Vec<WalletCluster>)
        requires
            self.wf(),
        ensures
            exists|comps: Seq<Vec<usize>>, labels: Seq<usize>| {
                &&& is_component_split(self.wallet_views().len() as int, self.edge_list(), comps, labels)
                &&& r@.len() == refined_clusters(component_views(comps)).len()
                &&& forall|k: int| 0 <= k < r@.len() ==> cluster_ok(self.edge_list(), self.transfer_views(),
                    refined_clusters(component_views(comps))[k].0, refined_clusters(component_views(comps))[k].1, #[trigger] r@[k])
            },
    {
        let (comps, labels) = self.find_connected_components();
        proof {
            let n = self.wallet_views().len() as int;
            assert forall|c: int| 0 <= c < comps@.len() implies (#[trigger] comps@[c]@).len() < 0x1_0000_0000 by {
                assert forall|j: int| 0 <= j < comps@[c]@.len() implies (#[trigger] comps@[c]@[j]) < n by {
                    assert(comps@[c]@[j] < n);
                }
                lemma_distinct_below(comps@[c]@, n);
            }
        }
        let r = self.clusters_from_components(&comps);
        proof {
            assert(is_component_split(self.wallet_views().len() as int, self.edge_list(), comps@, labels@));
        }
        r
    }

    /// The clusters that look like Sybil clusters (groups of wallets run by one entity).
    pub fn detect_sybil_clusters(&self) -> (r: Vec<WalletCluster>)
        requires
            self.wf(),
        ensures
            exists|all: Seq<WalletCluster>, comps: Seq<Vec<usize>>, labels: Seq<usize>| {
                &&& is_component_split(self.wallet_views().len() as int, self.edge_list(), comps, labels)
                &&& all.len() == refined_clusters(component_views(comps)).len()
                &&& (forall|k: int| 0 <= k < all.len() ==> cluster_ok(self.edge_list(), self.transfer_views(),
                    refined_clusters(component_views(comps))[k].0, refined_clusters(component_views(comps))[k].1, #[trigger] all[k]))
                &&& cluster_views(r@) == cluster_views(all).filter(sybil_pred())
            },
    {
        let all = self.cluster_wallets();
        let ghost all_view = all@;
        let r = sybil_clusters(all);
        r
    }
}

/// The time of an optional first-seen entry (zero when absent).
pub open spec fn time_of(ts: Seq<Option<i64>>, i: int) -> i64 {
    match ts[i] {
        Some(t) => t,
        None => 0,
    }
}

/// Whether two times (milliseconds) are less than `window_ms` apart.
pub open spec fn within_window(a: i64, b: i64, window_ms: int) -> bool {
    let d = b - a;
    (if d < 0 { -d } else { d }) < window_ms
}

/// The first of `anchors` that `j` relates to.
pub open spec fn first_related(rel: spec_fn(int, int) -> bool, anchors: Seq<int>, j: int) -> Option<int>
    decreases anchors.len(),
{
    if anchors.len() == 0 {
        None
    } else {
        match first_related(rel, anchors.drop_last(), j) {
            Some(a) => Some(a),
            None => if rel(anchors.last(), j) { Some(anchors.last()) } else { None },
        }
    }
}

/// Greedy grouping of items `0..n`: taking items in order, an item that can be grouped (`has`)
/// starts a group when it relates to no earlier starter. These are the starters among the
/// first `k` items.
pub open spec fn greedy_anchors(has: spec_fn(int) -> bool, rel: spec_fn(int, int) -> bool, k: nat) -> Seq<int>
    decreases k,
{
    if k == 0 {
        Seq::empty()
    } else {
        let prev = greedy_anchors(has, rel, (k - 1) as nat);
        let j = k - 1;
        if has(j) && first_related(rel, prev, j) is None { prev.push(j) } else { prev }
    }
}

/// The starter whose group item `j` joins: the first earlier starter it relates to.
pub open spec fn greedy_owner(has: spec_fn(int) -> bool, rel: spec_fn(int, int) -> bool, j: int) -> Option<int> {
    first_related(rel, greedy_anchors(has, rel, j as nat), j)
}

/// The items among the first `k` that join the group started by `a`, in order.
pub open spec fn greedy_members(has: spec_fn(int) -> bool, rel: spec_fn(int, int) -> bool, a: int, k: nat) -> Seq<int>
    decreases k,
{
    if k == 0 {
        Seq::empty()
    } else {
        let prev = greedy_members(has, rel, a, (k - 1) as nat);
        let j = k - 1;
        if j > a && has(j) && greedy_owner(has, rel, j) == Some(a) { prev.push(j) } else { prev }
    }
}

/// The groups of the given starters, starter first, that reach `min_size` items.
pub open spec fn greedy_group_list(
    has: spec_fn(int) -> bool,
    rel: spec_fn(int, int) -> bool,
    n: nat,
    min_size: int,
    anchors: Seq<int>,
) -> Seq<Seq<int>>
    decreases anchors.len(),
{
    if anchors.len() == 0 {
        Seq::empty()
    } else {
        let prev = greedy_group_list(has, rel, n, min_size, anchors.drop_last());
        let a = anchors.last();
        let g = seq![a] + greedy_members(has, rel, a, n);
        if g.len() >= min_size { prev.push(g) } else { prev }
    }
}

/// The greedy groups of items `0..n` that reach `min_size` items.
pub open spec fn greedy_groups(has: spec_fn(int) -> bool, rel: spec_fn(int, int) -> bool, n: nat, min_size: int) -> Seq<Seq<int>> {
    greedy_group_list(has, rel, n, min_size, greedy_anchors(has, rel, n))
}

/// Wallets with a first-seen time can be grouped by time.
pub open spec fn has_time(ts: Seq<Option<i64>>) -> spec_fn(int) -> bool {
    |i: int| ts[i] is Some
}

/// Wallets first seen less than the window apart.
pub open spec fn close_in_time(ts: Seq<Option<i64>>, window_ms: int) -> spec_fn(int, int) -> bool {
    |a: int, j: int| within_window(time_of(ts, a), time_of(ts, j), window_ms)
}

/// Wallets grouped by first-seen time: taking wallets in order, each one with a first-seen
/// time not yet grouped starts a group of itself and every later ungrouped wallet first seen
/// less than the window away; groups of one wallet are dropped.
pub open spec fn spec_time_clusters(ts: Seq<Option<i64>>, window_ms: int) -> Seq<Seq<int>> {
    greedy_groups(has_time(ts), close_in_time(ts, window_ms), ts.len(), 2)
}

/// Node indices as integers.
pub open spec fn as_ints(c: Seq<usize>) -> Seq<int> {
    c.map_values(|x: usize| x as int)
}

/// Node-index lists as integer lists.
pub open spec fn index_lists(v: Seq<Vec<usize>>) -> Seq<Seq<int>> {
    v.map_values(|c: Vec<usize>| as_ints(c@))
}

proof fn lemma_first_related_in(rel: spec_fn(int, int) -> bool, s: Seq<int>, j: int)
    ensures
        first_related(rel, s, j) matches Some(a) ==> s.contains(a) && rel(a, j),
    decreases s.len(),
{
    if s.len() > 0 {
        lemma_first_related_in(rel, s.drop_last(), j);
        if let Some(a) = first_related(rel, s.drop_last(), j) {
            let m = choose|m: int| 0 <= m < s.drop_last().len() && s.drop_last()[m] == a;
            assert(s[m] == a);
        } else {
            assert(s[s.len() - 1] == s.last());
        }
    }
}

proof fn lemma_first_related_concat(rel: spec_fn(int, int) -> bool, p: Seq<int>, q: Seq<int>, j: int)
    ensures
        first_related(rel, p + q, j) == match first_related(rel, p, j) {
            Some(a) => Some(a),
            None => first_related(rel, q, j),
        },
    decreases q.len(),
{
    if q.len() == 0 {
        assert(p + q =~= p);
    } else {
        lemma_first_related_concat(rel, p, q.drop_last(), j);
        assert((p + q).drop_last() =~= p + q.drop_last());
        assert((p + q).last() == q.last());
    }
}

proof fn lemma_anchors_bounds(has: spec_fn(int) -> bool, rel: spec_fn(int, int) -> bool, k: nat)
    ensures
        forall|m: int| 0 <= m < greedy_anchors(has, rel, k).len() ==> 0 <= #[trigger] greedy_anchors(has, rel, k)[m] < k,
    decreases k,
{
    if k > 0 {
        lemma_anchors_bounds(has, rel, (k - 1) as nat);
        let prev = greedy_anchors(has, rel, (k - 1) as nat);
        let now = greedy_anchors(has, rel, k);
        assert(now == prev || now == prev.push(k - 1));
        assert forall|m: int| 0 <= m < now.len() implies 0 <= #[trigger] now[m] < k by {
            if m < prev.len() {
                assert(now[m] == prev[m]);
            }
        }
    }
}

proof fn lemma_anchors_prefix(has: spec_fn(int) -> bool, rel: spec_fn(int, int) -> bool, k1: nat, k2: nat)
    requires
        k1 <= k2,
    ensures
        greedy_anchors(has, rel, k2) == greedy_anchors(has, rel, k1) + greedy_anchors(has, rel, k2).skip(greedy_anchors(has, rel, k1).len() as int),
        forall|m: int| greedy_anchors(has, rel, k1).len() <= m < greedy_anchors(has, rel, k2).len() ==> #[trigger] greedy_anchors(has, rel, k2)[m] >= k1,
        greedy_anchors(has, rel, k1).len() <= greedy_anchors(has, rel, k2).len(),
    decreases k2,
{
    if k1 == k2 {
        assert(greedy_anchors(has, rel, k2) =~= greedy_anchors(has, rel, k1) + greedy_anchors(has, rel, k2).skip(greedy_anchors(has, rel, k1).len() as int));
    } else {
        lemma_anchors_prefix(has, rel, k1, (k2 - 1) as nat);
        let a1 = greedy_anchors(has, rel, k1);
        let prev = greedy_anchors(has, rel, (k2 - 1) as nat);
        let now = greedy_anchors(has, rel, k2);
        assert(now == prev || now == prev.push(k2 - 1));
        assert(now =~= a1 + now.skip(a1.len() as int)) by {
            assert forall|m: int| 0 <= m < a1.len() implies now[m] == a1[m] by {
                assert(prev[m] == (a1 + prev.skip(a1.len() as int))[m]);
            }
        }
        assert forall|m: int| a1.len() <= m < now.len() implies #[trigger] now[m] >= k1 by {
            if m < prev.len() {
                assert(now[m] == prev[m]);
            }
        }
    }
}

/// Item `v` joins the group of starter `i` exactly when it relates to no earlier starter and
/// relates to `i`.
proof fn lemma_owner_of_later(has: spec_fn(int) -> bool, rel: spec_fn(int, int) -> bool, i: int, v: int)
    requires
        0 <= i < v,
        has(i),
        first_related(rel, greedy_anchors(has, rel, i as nat), i) is None,
    ensures
        greedy_owner(has, rel, v) == Some(i) <==> (first_related(rel, greedy_anchors(has, rel, i as nat), v) is None && rel(i, v)),
{
    let ai = greedy_anchors(has, rel, i as nat);
    let a1 = greedy_anchors(has, rel, (i + 1) as nat);
    assert(a1 == ai.push(i));
    lemma_anchors_prefix(has, rel, (i + 1) as nat, v as nat);
    let av = greedy_anchors(has, rel, v as nat);
    let rest = av.skip(a1.len() as int);
    lemma_first_related_concat(rel, a1, rest, v);
    lemma_first_related_in(rel, rest, v);
    lemma_first_related_in(rel, ai, v);
    lemma_anchors_bounds(has, rel, i as nat);
    if let Some(b) = first_related(rel, rest, v) {
        let m = choose|m: int| 0 <= m < rest.len() && rest[m] == b;
        assert(av[a1.len() + m] == b);
    }
    if let Some(b) = first_related(rel, ai, v) {
        let m = choose|m: int| 0 <= m < ai.len() && ai[m] == b;
        assert(b < i);
    }
    assert(ai.push(i).drop_last() =~= ai);
}

impl TransactionGraph {
    /// First-seen time of each wallet, by node index.
    pub closed spec fn first_seens(&self) -> Seq<Option<i64>> {
        self.node_stats@.map_values(|s: NodeStats| s.first_seen)
    }

    /// Group wallets whose first transfers came within `window_secs` of each other (see
    /// `spec_time_clusters`), as lists of node indices.
    pub fn time_clusters(&self, window_secs: i64) -> (r: Vec<Vec<usize>>)
        requires
            self.wf(),
            -(i64::MAX / 1000) <= window_secs <= i64::MAX / 1000,
        ensures
            index_lists(r@) == spec_time_clusters(self.first_seens(), window_secs * 1000),
    {
        let ghost ts = self.first_seens();
        let ghost w = window_secs * 1000;
        let ghost eligible = has_time(ts);
        let ghost rel = close_in_time(ts, w);
        let n = self.node_stats.len();
        let window_ms: i128 = window_secs as i128 * 1000;
        let mut visited: Vec<bool> = Vec::new();
        let mut k: usize = 0;
        while k < n
            invariant
                k <= n,
                visited@.len() == k,
                forall|v: int| 0 <= v < k ==> !visited@[v],
            decreases n - k,
        {
            visited.push(false);
            k = k + 1;
        }
        let mut out: Vec<Vec<usize>> = Vec::new();
        let mut i: usize = 0;
        while i < n
            invariant
                self.wf(),
                ts == self.first_seens(),
                eligible == has_time(ts),
                rel == close_in_time(ts, w),
                w == window_ms,
                n == ts.len(),
                n == self.node_stats@.len(),
                i <= n,
                visited@.len() == n,
                forall|v: int| 0 <= v < n ==> (#[trigger] visited@[v] <==> (eligible(v) && (v < i
                    || first_related(rel, greedy_anchors(eligible, rel, i as nat), v) is Some))),
                index_lists(out@) == greedy_group_list(eligible, rel, n as nat, 2, greedy_anchors(eligible, rel, i as nat)),
            decreases n - i,
        {
            let ghost anchors = greedy_anchors(eligible, rel, i as nat);
            proof {
                assert(ts[i as int] == self.node_stats@[i as int].first_seen);
            }
            if !visited[i] {
                match self.node_stats[i].first_seen {
                    Some(t) => {
                        proof {
                            assert(time_of(ts, i as int) == t);
                            assert(eligible(i as int));
                            assert(first_related(rel, anchors, i as int) is None);
                            assert(greedy_anchors(eligible, rel, (i + 1) as nat) == anchors.push(i as int));
                        }
                        let mut cluster: Vec<usize> = Vec::new();
                        cluster.push(i);
                        visited.set(i, true);
                        let ghost base = visited@;
                        let mut j: usize = 0;
                        while j < n
                            invariant
                                self.wf(),
                                ts == self.first_seens(),
                                eligible == has_time(ts),
                                rel == close_in_time(ts, w),
                                w == window_ms,
                                n == ts.len(),
                                n == self.node_stats@.len(),
                                i < n,
                                j <= n,
                                ts[i as int] == Some(t),
                                eligible(i as int),
                                anchors == greedy_anchors(eligible, rel, i as nat),
                                first_related(rel, anchors, i as int) is None,
                                visited@.len() == n,
                                base.len() == n,
                                forall|v: int| 0 <= v < n ==> (#[trigger] base[v] <==> (eligible(v) && (v <= i
                                    || first_related(rel, anchors, v) is Some))),
                                forall|v: int| 0 <= v < n ==> (#[trigger] visited@[v] <==> if v < j {
                                    base[v] || (eligible(v) && rel(i as int, v))
                                } else {
                                    base[v]
                                }),
                                as_ints(cluster@) == seq![i as int] + greedy_members(eligible, rel, i as int, j as nat),
                            decreases n - j,
                        {
                            proof {
                                assert(ts[j as int] == self.node_stats@[j as int].first_seen);
                                assert(time_of(ts, i as int) == t);
                                if j > i && eligible(j as int) {
                                    lemma_owner_of_later(eligible, rel, i as int, j as int);
                                }
                            }
                            let ghost before = cluster@;
                            let ghost visited_before = visited@;
                            if !visited[j] {
                                match self.node_stats[j].first_seen {
                                    Some(u) => {
                                        proof {
                                            assert(time_of(ts, j as int) == u);
                                        }
                                        let d: i128 = u as i128 - t as i128;
                                        let ad: i128 = if d < 0 { -d } else { d };
                                        if ad < window_ms {
                                            cluster.push(j);
                                            visited.set(j, true);
                                            proof {
                                                assert(as_ints(cluster@) =~= as_ints(before).push(j as int));
                                            }
                                        }
                                    },
                                    None => {},
                                }
                            }
                            proof {
                                assert forall|v: int| 0 <= v < n implies (#[trigger] visited@[v] <==> if v < j + 1 {
                                    base[v] || (eligible(v) && rel(i as int, v))
                                } else {
                                    base[v]
                                }) by {
                                    if v != j {
                                        assert(visited@[v] == visited_before[v]);
                                    }
                                }
                                assert(greedy_members(eligible, rel, i as int, (j + 1) as nat) == if j > i && eligible(j as int)
                                    && greedy_owner(eligible, rel, j as int) == Some(i as int) {
                                    greedy_members(eligible, rel, i as int, j as nat).push(j as int)
                                } else {
                                    greedy_members(eligible, rel, i as int, j as nat)
                                });
                                assert(as_ints(cluster@) =~= seq![i as int] + greedy_members(eligible, rel, i as int, (j + 1) as nat));
                            }
                            j = j + 1;
                        }
                        proof {
                            let a1 = greedy_anchors(eligible, rel, (i + 1) as nat);
                            assert(a1 == anchors.push(i as int));
                            assert(a1.drop_last() =~= anchors);
                            assert(a1.last() == i as int);
                            assert forall|v: int| 0 <= v < n implies (#[trigger] visited@[v] <==> (eligible(v) && (v < i + 1
                                || first_related(rel, a1, v) is Some))) by {
                                if eligible(v) && v > i {
                                    assert(first_related(rel, a1, v) == match first_related(rel, anchors, v) {
                                        Some(a) => Some(a),
                                        None => if rel(i as int, v) { Some(i as int) } else { None },
                                    });
                                }
                            }
                        }
                        let ghost out0 = out@;
                        if cluster.len() > 1 {
                            out.push(cluster);
                            proof {
                                assert(index_lists(out@) =~= index_lists(out0).push(seq![i as int] + greedy_members(eligible, rel, i as int, n as nat)));
                            }
                        }
                        proof {
                            let a1 = greedy_anchors(eligible, rel, (i + 1) as nat);
                            assert(a1.drop_last() =~= anchors);
                            assert(a1.last() == i as int);
                        }
                    },
                    None => {
                        proof {
                            assert(eligible(i as int) == false);
                            assert(greedy_anchors(eligible, rel, (i + 1) as nat) == anchors);
                        }
                    },
                }
            } else {
                proof {
                    assert(eligible(i as int));
                    assert(greedy_anchors(eligible, rel, (i + 1) as nat) == anchors);
                }
            }
            i = i + 1;
        }
        out
    }
}

/// A list with later repeats removed.
pub open spec fn distinct_in_order<A>(s: Seq<A>) -> Seq<A>
    decreases s.len(),
{
    if s.len() == 0 {
        Seq::empty()
    } else {
        let prev = distinct_in_order(s.drop_last());
        if prev.contains(s.last()) { prev } else { prev.push(s.last()) }
    }
}

/// How many entries of `a` occur in `b`.
pub open spec fn common_count(a: Seq<Seq<char>>, b: Seq<Seq<char>>) -> int
    decreases a.len(),
{
    if a.len() == 0 { 0 } else { common_count(a.drop_last(), b) + if b.contains(a.last()) { 1int } else { 0int } }
}

/// Two wallets behave alike when, of the distinct signatures of the transfers they sent, the
/// shared ones make more than 30% of both counts together.
pub open spec fn spec_similar(sent1: Seq<Seq<char>>, sent2: Seq<Seq<char>>) -> bool {
    let d1 = distinct_in_order(sent1);
    let d2 = distinct_in_order(sent2);
    let total = d1.len() + d2.len();
    total > 0 && 10 * common_count(d1, d2) > 3 * total
}

/// Signatures of the transfers a wallet sent, most recent edge first.
pub open spec fn sent_signatures(edges: Seq<(usize, usize, usize)>, sigs: Seq<Seq<char>>, w: usize) -> Seq<Seq<char>> {
    out_edges(edges, w).map_values(|e: (usize, usize)| sigs[e.1 as int])
}

/// Wallets at two positions of a list behave alike.
pub open spec fn alike_at(edges: Seq<(usize, usize, usize)>, sigs: Seq<Seq<char>>, list: Seq<usize>) -> spec_fn(int, int) -> bool {
    |a: int, j: int| spec_similar(sent_signatures(edges, sigs, list[a]), sent_signatures(edges, sigs, list[j]))
}

/// Every position of a list can be grouped.
pub open spec fn any_position() -> spec_fn(int) -> bool {
    |i: int| true
}

/// Groups of positions as groups of the wallets at those positions.
pub open spec fn groups_at(groups: Seq<Seq<int>>, list: Seq<usize>) -> Seq<Seq<usize>> {
    groups.map_values(|g: Seq<int>| wallets_at(g, list))
}

/// Wallets grouped by behaviour: taking the list in order, each wallet not yet grouped starts a
/// group of itself and every later ungrouped wallet that behaves alike; groups smaller than
/// `min_size` are dropped.
pub open spec fn spec_behavior_groups(edges: Seq<(usize, usize, usize)>, sigs: Seq<Seq<char>>, list: Seq<usize>, min_size: int) -> Seq<Seq<usize>> {
    groups_at(greedy_groups(any_position(), alike_at(edges, sigs, list), list.len(), min_size), list)
}

fn distinct_strings(v: &Vec<String>) -> (r: Vec<String>)
    ensures
        string_views(r@) == distinct_in_order(string_views(v@)),
{
    let mut out: Vec<String> = Vec::new();
    let mut i: usize = 0;
    while i < v.len()
        invariant
            i <= v@.len(),
            string_views(out@) == distinct_in_order(string_views(v@).take(i as int)),
        decreases v@.len() - i,
    {
        proof {
            assert(string_views(v@).take(i as int + 1).drop_last() =~= string_views(v@).take(i as int));
            assert(string_views(v@).take(i as int + 1).last() == v@[i as int]@);
        }
        if !contains_string(&out, &v[i]) {
            let ghost before = out@;
            out.push(v[i].clone());
            proof {
                assert(string_views(out@) =~= string_views(before).push(v@[i as int]@));
            }
        }
        i = i + 1;
    }
    proof {
        assert(string_views(v@).take(i as int) =~= string_views(v@));
    }
    out
}

fn count_common(a: &Vec<String>, b: &Vec<String>) -> (r: u64)
    requires
        a@.len() < u64::MAX,
    ensures
        r == common_count(string_views(a@), string_views(b@)),
        r <= a@.len(),
{
    let mut count: u64 = 0;
    let mut i: usize = 0;
    while i < a.len()
        invariant
            i <= a@.len(),
            a@.len() < u64::MAX,
            count == common_count(string_views(a@).take(i as int), string_views(b@)),
            count <= i,
        decreases a@.len() - i,
    {
        proof {
            assert(string_views(a@).take(i as int + 1).drop_last() =~= string_views(a@).take(i as int));
            assert(string_views(a@).take(i as int + 1).last() == a@[i as int]@);
        }
        if contains_string(b, &a[i]) {
            count = count + 1;
        }
        i = i + 1;
    }
    proof {
        assert(string_views(a@).take(i as int) =~= string_views(a@));
    }
    count
}

/// A group of wallets that trade in circles and behave alike, with its cohesion counts: its
/// cohesion is `connected_pairs / possible_pairs`.
pub struct WashCluster {
    /// Position of the group among the behaviour groups
    pub cluster_id: usize,
    /// Wallets (node indices)
    pub wallets: Vec<usize>,
    /// Pairs of wallets of which at least one sent a transfer
    pub connected_pairs: u64,
    /// Pairs of wallets
    pub possible_pairs: u64,
}

impl TransactionGraph {
    /// Signatures of all transfers, by edge index.
    pub closed spec fn signature_views(&self) -> Seq<Seq<char>> {
        self.transfers@.map_values(|t: (usize, usize, TransactionEdge)| t.2.signature@)
    }

    /// Signatures of the transfers a wallet sent, most recent edge first.
    fn sent_signature_list(&self, w: usize) -> (r: Vec<String>)
        requires
            self.wf(),
        ensures
            string_views(r@) == sent_signatures(self.edge_list(), self.signature_views(), w),
    {
        let ghost edges = graph_edges(self.graph);
        let outs = self.outgoing(w);
        let mut out: Vec<String> = Vec::new();
        let mut j: usize = 0;
        while j < outs.len()
            invariant
                self.wf(),
                edges == graph_edges(self.graph),
                outs@ == out_edges(edges, w),
                j <= outs@.len(),
                out@.len() == j,
                forall|m: int| 0 <= m < j ==> (#[trigger] out@[m])@ == self.signature_views()[outs@[m].1 as int],
            decreases outs@.len() - j,
        {
            proof {
                lemma_out_edges_sound(edges, w, j as int);
                let k = choose|k: int| 0 <= k < edges.len() && edges[k].0 == w
                    && edges[k].1 == outs@[j as int].0 && edges[k].2 == outs@[j as int].1;
                assert(edges[k].2 == k as usize);
            }
            let k = outs[j].1;
            out.push(self.transfers[k].2.signature.clone());
            j = j + 1;
        }
        proof {
            assert(string_views(out@) =~= sent_signatures(edges, self.signature_views(), w));
        }
        out
    }

    /// Whether two wallets behave alike (see `spec_similar`).
    pub fn wallets_similar(&self, w1: usize, w2: usize) -> (r: bool)
        requires
            self.wf(),
        ensures
            r == spec_similar(sent_signatures(self.edge_list(), self.signature_views(), w1),
                sent_signatures(self.edge_list(), self.signature_views(), w2)),
    {
        let d1 = distinct_strings(&self.sent_signature_list(w1));
        let d2 = distinct_strings(&self.sent_signature_list(w2));
        proof {
            assert(d1@.len() == string_views(d1@).len());
            assert(d1@.len() <= self.transfers@.len()) by {
                lemma_distinct_len(sent_signatures(self.edge_list(), self.signature_views(), w1));
                lemma_out_edges_len(graph_edges(self.graph), w1);
            }
            assert(d2@.len() <= self.transfers@.len()) by {
                lemma_distinct_len(sent_signatures(self.edge_list(), self.signature_views(), w2));
                lemma_out_edges_len(graph_edges(self.graph), w2);
            }
        }
        let common = count_common(&d1, &d2);
        let total = d1.len() as u64 + d2.len() as u64;
        total > 0 && 10 * (common as u128) > 3 * (total as u128)
    }
}

proof fn lemma_out_edges_len(edges: Seq<(usize, usize, usize)>, a: usize)
    ensures
        out_edges(edges, a).len() <= edges.len(),
    decreases edges.len(),
{
    if edges.len() > 0 {
        lemma_out_edges_len(edges.drop_last(), a);
    }
}

proof fn lemma_distinct_len<A>(s: Seq<A>)
    ensures
        distinct_in_order(s).len() <= s.len(),
    decreases s.len(),
{
    if s.len() > 0 {
        lemma_distinct_len(s.drop_last());
    }
}

proof fn lemma_distinct_props<A>(s: Seq<A>)
    ensures
        distinct_in_order(s).no_duplicates(),
        forall|x: A| distinct_in_order(s).contains(x) <==> s.contains(x),
    decreases s.len(),
{
    if s.len() > 0 {
        lemma_distinct_props(s.drop_last());
        let prev = distinct_in_order(s.drop_last());
        let d = distinct_in_order(s);
        assert(d == prev || d == prev.push(s.last()));
        assert forall|x: A| d.contains(x) <==> s.contains(x) by {
            if s.contains(x) {
                let i = choose|i: int| 0 <= i < s.len() && s[i] == x;
                if i < s.len() - 1 {
                    assert(s.drop_last()[i] == x);
                    assert(s.drop_last().contains(x));
                }
                if prev.contains(x) {
                    let k = choose|k: int| 0 <= k < prev.len() && prev[k] == x;
                    assert(d[k] == x);
                } else {
                    assert(i == s.len() - 1);
                    assert(d[prev.len() as int] == x);
                }
            }
            if d.contains(x) {
                let i = choose|i: int| 0 <= i < d.len() && d[i] == x;
                if i < prev.len() {
                    assert(prev[i] == x);
                    assert(prev.contains(x));
                    assert(s.drop_last().contains(x));
                    let k = choose|k: int| 0 <= k < s.drop_last().len() && s.drop_last()[k] == x;
                    assert(s[k] == x);
                } else {
                    assert(s[s.len() - 1] == x);
                }
            }
        }
    }
}

/// The wallets of a list of circular paths, path after path.
pub open spec fn path_wallets(paths: Seq<CircularPath>) -> Seq<usize>
    decreases paths.len(),
{
    if paths.len() == 0 { Seq::empty() } else { path_wallets(paths.drop_last()) + paths.last().path@ }
}

/// Node indices of a group of positions of a list.
pub open spec fn wallets_at(g: Seq<int>, list: Seq<usize>) -> Seq<usize> {
    g.map_values(|p: int| list[p])
}

/// Views of a list of groups.
pub open spec fn group_views(v: Seq<Vec<usize>>) -> Seq<Seq<usize>> {
    v.map_values(|c: Vec<usize>| c@)
}

/// Each group of a greedy grouping is a starter below `n` followed by its members.
proof fn lemma_group_list_shape(
    eligible: spec_fn(int) -> bool,
    rel: spec_fn(int, int) -> bool,
    n: nat,
    min_size: int,
    anchors: Seq<int>,
)
    requires
        forall|m: int| 0 <= m < anchors.len() ==> 0 <= #[trigger] anchors[m] < n,
    ensures
        forall|k: int| 0 <= k < greedy_group_list(eligible, rel, n, min_size, anchors).len() ==> exists|a: int|
            0 <= a < n && #[trigger] greedy_group_list(eligible, rel, n, min_size, anchors)[k] == seq![a] + greedy_members(eligible, rel, a, n),
    decreases anchors.len(),
{
    if anchors.len() > 0 {
        lemma_group_list_shape(eligible, rel, n, min_size, anchors.drop_last());
        let prev = greedy_group_list(eligible, rel, n, min_size, anchors.drop_last());
        let now = greedy_group_list(eligible, rel, n, min_size, anchors);
        let a = anchors.last();
        assert(0 <= a < n) by {
            assert(anchors[anchors.len() - 1] == a);
        }
        assert forall|k: int| 0 <= k < now.len() implies exists|b: int|
            0 <= b < n && #[trigger] now[k] == seq![b] + greedy_members(eligible, rel, b, n) by {
            if k < prev.len() {
                assert(now[k] == prev[k]);
            } else {
                assert(now[k] == seq![a] + greedy_members(eligible, rel, a, n));
            }
        }
    }
}

proof fn lemma_members_bounds(eligible: spec_fn(int) -> bool, rel: spec_fn(int, int) -> bool, a: int, k: nat)
    ensures
        greedy_members(eligible, rel, a, k).len() <= k,
        forall|m: int| 0 <= m < greedy_members(eligible, rel, a, k).len() ==> a < #[trigger] greedy_members(eligible, rel, a, k)[m] < k,
    decreases k,
{
    if k > 0 {
        lemma_members_bounds(eligible, rel, a, (k - 1) as nat);
        let prev = greedy_members(eligible, rel, a, (k - 1) as nat);
        let now = greedy_members(eligible, rel, a, k);
        assert forall|m: int| 0 <= m < now.len() implies a < #[trigger] now[m] < k by {
            if m < prev.len() {
                assert(now[m] == prev[m]);
            }
        }
    }
}

fn contains_index(v: &Vec<usize>, x: usize) -> (r: bool)
    ensures
        r == v@.contains(x),
{
    let mut i: usize = 0;
    while i < v.len()
        invariant
            i <= v@.len(),
            forall|k: int| 0 <= k < i ==> v@[k] != x,
        decreases v@.len() - i,
    {
        if v[i] == x {
            proof {
                assert(v@[i as int] == x);
            }
            return true;
        }
        i = i + 1;
    }
    false
}

/// The wallets that trade in circles, each once, in the order they first occur in the paths.
pub fn circular_wallets(paths: &Vec<CircularPath>) -> (r: Vec<usize>)
    ensures
        r@ == distinct_in_order(path_wallets(paths@)),
{
    let mut out: Vec<usize> = Vec::new();
    let mut p: usize = 0;
    while p < paths.len()
        invariant
            p <= paths@.len(),
            out@ == distinct_in_order(path_wallets(paths@.take(p as int))),
        decreases paths@.len() - p,
    {
        let ghost flat0 = path_wallets(paths@.take(p as int));
        proof {
            assert(paths@.take(p as int + 1).drop_last() =~= paths@.take(p as int));
            assert(paths@.take(p as int + 1).last() == paths@[p as int]);
        }
        let path = &paths[p].path;
        let mut m: usize = 0;
        while m < path.len()
            invariant
                m <= path@.len(),
                out@ == distinct_in_order(flat0 + path@.take(m as int)),
            decreases path@.len() - m,
        {
            proof {
                assert((flat0 + path@.take(m as int + 1)).drop_last() =~= flat0 + path@.take(m as int));
                assert((flat0 + path@.take(m as int + 1)).last() == path@[m as int]);
            }
            if !contains_index(&out, path[m]) {
                out.push(path[m]);
            }
            m = m + 1;
        }
        proof {
            assert(path@.take(m as int) =~= path@);
        }
        p = p + 1;
    }
    proof {
        assert(paths@.take(p as int) =~= paths@);
    }
    out
}

/// A behaviour group is suspicious when it has at least `min_size` wallets and cohesion above
/// 0.7 (the share of internal transfers, half of one at most, never decides).
pub open spec fn is_wash_group(edges: Seq<(usize, usize, usize)>, g: Seq<usize>, min_size: int) -> bool {
    g.len() >= min_size && 10 * connected_pair_count(edges, g) > 7 * pair_count(g.len() as int)
}

/// Positions of the suspicious groups, in order.
pub open spec fn wash_selection(edges: Seq<(usize, usize, usize)>, groups: Seq<Seq<usize>>, min_size: int) -> Seq<int>
    decreases groups.len(),
{
    if groups.len() == 0 {
        Seq::empty()
    } else {
        let prev = wash_selection(edges, groups.drop_last(), min_size);
        if is_wash_group(edges, groups.last(), min_size) { prev.push(groups.len() - 1) } else { prev }
    }
}

impl TransactionGraph {
    /// Group a list of wallets by behaviour (see `spec_behavior_groups`).
    pub fn behavior_groups(&self, list: &Vec<usize>, min_size: usize) -> (r: Vec<Vec<usize>>)
        requires
            self.wf(),
        ensures
            group_views(r@) == spec_behavior_groups(self.edge_list(), self.signature_views(), list@, min_size as int),
    {
        let ghost edges = self.edge_list();
        let ghost sigs = self.signature_views();
        let ghost eligible = any_position();
        let ghost rel = alike_at(edges, sigs, list@);
        let n = list.len();
        let mut visited: Vec<bool> = Vec::new();
        let mut k: usize = 0;
        while k < n
            invariant
                k <= n,
                visited@.len() == k,
                forall|v: int| 0 <= v < k ==> !visited@[v],
            decreases n - k,
        {
            visited.push(false);
            k = k + 1;
        }
        let mut out: Vec<Vec<usize>> = Vec::new();
        let mut i: usize = 0;
        while i < n
            invariant
                self.wf(),
                edges == self.edge_list(),
                sigs == self.signature_views(),
                eligible == any_position(),
                rel == alike_at(edges, sigs, list@),
                n == list@.len(),
                i <= n,
                visited@.len() == n,
                forall|v: int| 0 <= v < n ==> (#[trigger] visited@[v] <==> (v < i
                    || first_related(rel, greedy_anchors(eligible, rel, i as nat), v) is Some)),
                group_views(out@) == groups_at(greedy_group_list(eligible, rel, n as nat, min_size as int, greedy_anchors(eligible, rel, i as nat)), list@),
            decreases n - i,
        {
            let ghost anchors = greedy_anchors(eligible, rel, i as nat);
            if !visited[i] {
                proof {
                    assert(eligible(i as int));
                    assert(first_related(rel, anchors, i as int) is None);
                    assert(greedy_anchors(eligible, rel, (i + 1) as nat) == anchors.push(i as int));
                }
                let mut group: Vec<usize> = Vec::new();
                group.push(list[i]);
                visited.set(i, true);
                let ghost base = visited@;
                let mut j: usize = 0;
                while j < n
                    invariant
                        self.wf(),
                        edges == self.edge_list(),
                        sigs == self.signature_views(),
                        eligible == any_position(),
                        rel == alike_at(edges, sigs, list@),
                        n == list@.len(),
                        i < n,
                        j <= n,
                        anchors == greedy_anchors(eligible, rel, i as nat),
                        first_related(rel, anchors, i as int) is None,
                        visited@.len() == n,
                        base.len() == n,
                        forall|v: int| 0 <= v < n ==> (#[trigger] base[v] <==> (v <= i
                            || first_related(rel, anchors, v) is Some)),
                        forall|v: int| 0 <= v < n ==> (#[trigger] visited@[v] <==> if v < j {
                            base[v] || rel(i as int, v)
                        } else {
                            base[v]
                        }),
                        group@ == wallets_at(seq![i as int] + greedy_members(eligible, rel, i as int, j as nat), list@),
                    decreases n - j,
                {
                    proof {
                        if j > i {
                            lemma_owner_of_later(eligible, rel, i as int, j as int);
                        }
                    }
                    let ghost before = group@;
                    let ghost visited_before = visited@;
                    if !visited[j] && self.wallets_similar(list[i], list[j]) {
                        group.push(list[j]);
                        visited.set(j, true);
                    }
                    proof {
                        assert forall|v: int| 0 <= v < n implies (#[trigger] visited@[v] <==> if v < j + 1 {
                            base[v] || rel(i as int, v)
                        } else {
                            base[v]
                        }) by {
                            if v != j {
                                assert(visited@[v] == visited_before[v]);
                            }
                        }
                        let m0 = greedy_members(eligible, rel, i as int, j as nat);
                        let m1 = greedy_members(eligible, rel, i as int, (j + 1) as nat);
                        assert(m1 == if j > i && eligible(j as int) && greedy_owner(eligible, rel, j as int) == Some(i as int) {
                            m0.push(j as int)
                        } else {
                            m0
                        });
                        assert(wallets_at(seq![i as int] + m0.push(j as int), list@)
                            =~= wallets_at(seq![i as int] + m0, list@).push(list@[j as int]));
                        assert(group@ =~= wallets_at(seq![i as int] + m1, list@));
                    }
                    j = j + 1;
                }
                proof {
                    let a1 = greedy_anchors(eligible, rel, (i + 1) as nat);
                    assert(a1 == anchors.push(i as int));
                    assert(a1.drop_last() =~= anchors);
                    assert(a1.last() == i as int);
                    assert forall|v: int| 0 <= v < n implies (#[trigger] visited@[v] <==> (v < i + 1
                        || first_related(rel, a1, v) is Some)) by {
                        if v > i {
                            assert(first_related(rel, a1, v) == match first_related(rel, anchors, v) {
                                Some(a) => Some(a),
                                None => if rel(i as int, v) { Some(i as int) } else { None },
                            });
                        }
                    }
                }
                let ghost out0 = out@;
                proof {
                    assert(group@.len() == 1 + greedy_members(eligible, rel, i as int, n as nat).len());
                }
                if group.len() >= min_size {
                    out.push(group);
                    proof {
                        assert(group_views(out@) =~= group_views(out0).push(wallets_at(seq![i as int] + greedy_members(eligible, rel, i as int, n as nat), list@)));
                    }
                }
                proof {
                    let a1 = greedy_anchors(eligible, rel, (i + 1) as nat);
                    assert(a1.drop_last() =~= anchors);
                    assert(a1.last() == i as int);
                    let gl0 = greedy_group_list(eligible, rel, n as nat, min_size as int, anchors);
                    let gl1 = greedy_group_list(eligible, rel, n as nat, min_size as int, a1);
                    if group@.len() >= min_size {
                        assert(gl1 == gl0.push(seq![i as int] + greedy_members(eligible, rel, i as int, n as nat)));
                        assert(groups_at(gl1, list@) =~= groups_at(gl0, list@).push(wallets_at(seq![i as int] + greedy_members(eligible, rel, i as int, n as nat), list@)));
                    } else {
                        assert(gl1 == gl0);
                    }
                }
            } else {
                proof {
                    assert(greedy_anchors(eligible, rel, (i + 1) as nat) == anchors);
                }
            }
            i = i + 1;
        }
        out
    }
}

/// The behaviour groups of the wallets of some circular paths.
pub open spec fn path_groups(edges: Seq<(usize, usize, usize)>, sigs: Seq<Seq<char>>, paths: Seq<CircularPath>, min_size: int) -> Seq<Seq<usize>> {
    spec_behavior_groups(edges, sigs, distinct_in_order(path_wallets(paths)), min_size)
}

proof fn lemma_path_wallets_below(paths: Seq<CircularPath>, n: int)
    requires
        forall|p: int, m: int| 0 <= p < paths.len() && 0 <= m < paths[p].path@.len() ==> (#[trigger] paths[p].path@[m]) < n,
    ensures
        forall|i: int| 0 <= i < path_wallets(paths).len() ==> (#[trigger] path_wallets(paths)[i]) < n,
    decreases paths.len(),
{
    if paths.len() > 0 {
        lemma_path_wallets_below(paths.drop_last(), n);
        let prev = path_wallets(paths.drop_last());
        let last = paths.last().path@;
        assert forall|i: int| 0 <= i < path_wallets(paths).len() implies (#[trigger] path_wallets(paths)[i]) < n by {
            if i < prev.len() {
                assert(path_wallets(paths)[i] == prev[i]);
                assert(prev[i] == paths.drop_last()[0].path@[0] || prev[i] < n);
            } else {
                assert(path_wallets(paths)[i] == last[i - prev.len()]);
                assert(paths[paths.len() - 1].path@[i - prev.len()] < n);
            }
        }
    }
}

impl TransactionGraph {
    /// The suspicious wallet clusters among the wallets that trade in circles: behaviour groups
    /// of at least `min_cluster_size` wallets with cohesion above 0.7 (see `is_wash_group`),
    /// with their cohesion counts.
    pub fn wash_clusters(&self, paths: &Vec<CircularPath>, min_cluster_size: usize) -> (r: Vec<WashCluster>)
        requires
            self.wf(),
            forall|p: int, m: int| 0 <= p < paths@.len() && 0 <= m < paths@[p].path@.len() ==>
                (#[trigger] paths@[p].path@[m]) < self.wallet_views().len(),
        ensures
            r@.len() == wash_selection(self.edge_list(), path_groups(self.edge_list(), self.signature_views(), paths@, min_cluster_size as int), min_cluster_size as int).len(),
            forall|k: int| 0 <= k < r@.len() ==> {
                let groups = path_groups(self.edge_list(), self.signature_views(), paths@, min_cluster_size as int);
                let id = wash_selection(self.edge_list(), groups, min_cluster_size as int)[k];
                &&& (#[trigger] r@[k]).cluster_id == id
                &&& r@[k].wallets@ == groups[id]
                &&& r@[k].connected_pairs == connected_pair_count(self.edge_list(), groups[id])
                &&& r@[k].possible_pairs == pair_count(groups[id].len() as int)
            },
    {
        let ghost edges = self.edge_list();
        let ghost sigs = self.signature_views();
        let ghost n = self.wallet_views().len() as int;
        let circ = circular_wallets(paths);
        proof {
            lemma_path_wallets_below(paths@, n);
            lemma_distinct_props(path_wallets(paths@));
            assert forall|i: int| 0 <= i < circ@.len() implies (#[trigger] circ@[i]) < n by {
                assert(circ@.contains(circ@[i]));
                assert(path_wallets(paths@).contains(circ@[i]));
            }
            lemma_distinct_below(circ@, n);
        }
        let groups = self.behavior_groups(&circ, min_cluster_size);
        let ghost gv = group_views(groups@);
        let ghost eligible = any_position();
        let ghost rel = alike_at(edges, sigs, circ@);
        let ghost gl = greedy_group_list(eligible, rel, circ@.len(), min_cluster_size as int, greedy_anchors(eligible, rel, circ@.len()));
        proof {
            lemma_anchors_bounds(eligible, rel, circ@.len());
            lemma_group_list_shape(eligible, rel, circ@.len(), min_cluster_size as int, greedy_anchors(eligible, rel, circ@.len()));
            assert(gv == groups_at(gl, circ@));
            assert(gv.len() == gl.len());
        }
        let mut out: Vec<WashCluster> = Vec::new();
        let mut k: usize = 0;
        while k < groups.len()
            invariant
                self.wf(),
                edges == self.edge_list(),
                sigs == self.signature_views(),
                n == self.wallet_views().len(),
                gv == group_views(groups@),
                gv == path_groups(edges, sigs, paths@, min_cluster_size as int),
                eligible == any_position(),
                rel == alike_at(edges, sigs, circ@),
                circ@.len() <= n,
                n < u32::MAX,
                forall|i: int| 0 <= i < circ@.len() ==> (#[trigger] circ@[i]) < n,
                gl == greedy_group_list(eligible, rel, circ@.len(), min_cluster_size as int, greedy_anchors(eligible, rel, circ@.len())),
                gv == groups_at(gl, circ@),
                gv.len() == gl.len(),
                forall|g: int| 0 <= g < gl.len() ==> exists|a: int|
                    0 <= a < circ@.len() && #[trigger] gl[g] == seq![a] + greedy_members(eligible, rel, a, circ@.len()),
                k <= groups@.len(),
                out@.len() == wash_selection(edges, gv.take(k as int), min_cluster_size as int).len(),
                forall|m: int| 0 <= m < out@.len() ==> {
                    let id = wash_selection(edges, gv.take(k as int), min_cluster_size as int)[m];
                    &&& (#[trigger] out@[m]).cluster_id == id
                    &&& out@[m].wallets@ == gv[id]
                    &&& out@[m].connected_pairs == connected_pair_count(edges, gv[id])
                    &&& out@[m].possible_pairs == pair_count(gv[id].len() as int)
                },
                forall|m: int| 0 <= m < wash_selection(edges, gv.take(k as int), min_cluster_size as int).len() ==>
                    0 <= #[trigger] wash_selection(edges, gv.take(k as int), min_cluster_size as int)[m] < k,
            decreases groups@.len() - k,
        {
            let ghost sel0 = wash_selection(edges, gv.take(k as int), min_cluster_size as int);
            proof {
                assert(gv.take(k as int + 1).drop_last() =~= gv.take(k as int));
                assert(gv.take(k as int + 1).last() == gv[k as int]);
                assert(gv[k as int] == groups@[k as int]@);
                assert(gv[k as int] == wallets_at(gl[k as int], circ@));
                let a = choose|a: int| 0 <= a < circ@.len() && gl[k as int] == seq![a] + greedy_members(eligible, rel, a, circ@.len());
                lemma_members_bounds(eligible, rel, a, circ@.len());
                let ps = seq![a] + greedy_members(eligible, rel, a, circ@.len());
                assert forall|j: int| 0 <= j < groups@[k as int]@.len() implies (#[trigger] groups@[k as int]@[j]) < n by {
                    if j > 0 {
                        assert(ps[j] == greedy_members(eligible, rel, a, circ@.len())[j - 1]);
                    }
                    assert(0 <= ps[j] < circ@.len());
                    assert(groups@[k as int]@[j] == circ@[ps[j]]);
                }
            }
            let g = &groups[k];
            if g.len() >= min_cluster_size {
                let (connected, possible) = self.cohesion_counts(g);
                if 10 * (connected as u128) > 7 * (possible as u128) {
                    out.push(WashCluster {
                        cluster_id: k,
                        wallets: g.clone(),
                        connected_pairs: connected,
                        possible_pairs: possible,
                    });
                }
            }
            proof {
                let sel1 = wash_selection(edges, gv.take(k as int + 1), min_cluster_size as int);
                assert(sel1 == if is_wash_group(edges, gv[k as int], min_cluster_size as int) { sel0.push(k as int) } else { sel0 });
            }
            k = k + 1;
        }
        proof {
            assert(gv.take(k as int) =~= gv);
        }
        out
    }
}

/// Number of positions of a group, from `i` on, whose wallet received some transfer.
pub open spec fn receiver_count_after(edges: Seq<(usize, usize, usize)>, wallets: Seq<usize>, i: int) -> int
    decreases wallets.len() - i,
{
    if i >= wallets.len() {
        0
    } else {
        receiver_count_after(edges, wallets, i + 1) + if in_edges(edges, wallets[i]).len() > 0 { 1int } else { 0int }
    }
}

/// Pairs `i < j` of a group in which wallet `i` sent a transfer or wallet `j` received one,
/// counted for the first `k` positions `i`.
pub open spec fn coordinated_pairs(edges: Seq<(usize, usize, usize)>, wallets: Seq<usize>, k: int) -> int
    decreases k,
{
    if k <= 0 {
        0
    } else {
        let i = k - 1;
        coordinated_pairs(edges, wallets, k - 1) + if out_edges(edges, wallets[i]).len() > 0 {
            wallets.len() - 1 - i
        } else {
            receiver_count_after(edges, wallets, i + 1)
        }
    }
}

proof fn lemma_receiver_count_bounds(edges: Seq<(usize, usize, usize)>, wallets: Seq<usize>, i: int)
    requires
        0 <= i,
    ensures
        0 <= receiver_count_after(edges, wallets, i) <= if i <= wallets.len() { wallets.len() - i } else { 0 },
    decreases wallets.len() - i,
{
    if i < wallets.len() {
        lemma_receiver_count_bounds(edges, wallets, i + 1);
    }
}

proof fn lemma_coordinated_pairs_bounds(edges: Seq<(usize, usize, usize)>, wallets: Seq<usize>, k: int)
    requires
        0 <= k <= wallets.len(),
    ensures
        0 <= coordinated_pairs(edges, wallets, k) <= k * wallets.len(),
    decreases k,
{
    if k > 0 {
        lemma_coordinated_pairs_bounds(edges, wallets, k - 1);
        lemma_receiver_count_bounds(edges, wallets, k);
        assert((k - 1) * wallets.len() + wallets.len() == k * wallets.len()) by (nonlinear_arith);
    }
}

impl TransactionGraph {
    /// Amounts and timestamps of the transfers a wallet received, most recent edge first; none
    /// for a wallet not in the graph.
    pub fn edges_to(&self, wallet: &String) -> (r: Vec<(u64, i64)>)
        requires
            self.wf(),
        ensures
            match wallet_position(self.wallet_views(), wallet@) {
                Some(i) => r@.len() == in_edges(self.edge_list(), i as usize).len()
                    && forall|j: int| 0 <= j < r@.len() ==> #[trigger] r@[j] == (
                        self.transfer_views()[in_edges(self.edge_list(), i as usize)[j].1 as int].2,
                        self.transfer_views()[in_edges(self.edge_list(), i as usize)[j].1 as int].3,
                    ),
                None => r@.len() == 0,
            },
    {
        let mut out: Vec<(u64, i64)> = Vec::new();
        match self.find_wallet(wallet) {
            None => out,
            Some(i) => {
                let ghost edges = graph_edges(self.graph);
                let ins = graph_incoming(&self.graph, i);
                let mut j: usize = 0;
                while j < ins.len()
                    invariant
                        self.wf(),
                        edges == graph_edges(self.graph),
                        ins@ == in_edges(edges, i),
                        j <= ins@.len(),
                        out@.len() == j,
                        forall|m: int| 0 <= m < j ==> #[trigger] out@[m] == (
                            self.transfer_views()[ins@[m].1 as int].2,
                            self.transfer_views()[ins@[m].1 as int].3,
                        ),
                    decreases ins@.len() - j,
                {
                    proof {
                        lemma_in_edges_sound(edges, i, j as int);
                        let k = choose|k: int| 0 <= k < edges.len() && edges[k].1 == i
                            && edges[k].0 == ins@[j as int].0 && edges[k].2 == ins@[j as int].1;
                        assert(edges[k].2 == k as usize);
                    }
                    let k = ins[j].1;
                    let e = &self.transfers[k].2;
                    out.push((e.amount, e.timestamp_ms));
                    j = j + 1;
                }
                out
            },
        }
    }

    /// Pairs `i < j` of a group in which wallet `i` sent or wallet `j` received a transfer, and
    /// all pairs.
    pub fn coordination_counts(&self, wallets: &Vec<usize>) -> (r: (u64, u64))
        requires
            self.wf(),
            wallets@.len() < 0x1_0000_0000,
        ensures
            r.0 == coordinated_pairs(self.edge_list(), wallets@, wallets@.len() as int),
            r.1 == pair_count(wallets@.len() as int),
    {
        let ghost edges = graph_edges(self.graph);
        let n = wallets.len();
        let mut receivers_after: Vec<u64> = Vec::new();
        let mut k: usize = 0;
        while k < n
            invariant
                k <= n,
                n == wallets@.len(),
                n < 0x1_0000_0000,
                receivers_after@.len() == k,
            decreases n - k,
        {
            receivers_after.push(0);
            k = k + 1;
        }
        let mut count: u64 = 0;
        let mut m: usize = n;
        while m > 0
            invariant
                self.wf(),
                edges == graph_edges(self.graph),
                m <= n,
                n == wallets@.len(),
                n < 0x1_0000_0000,
                receivers_after@.len() == n,
                count == receiver_count_after(edges, wallets@, m as int),
                count <= n - m,
                forall|i: int| m <= i < n ==> #[trigger] receivers_after@[i] == receiver_count_after(edges, wallets@, i + 1),
            decreases m,
        {
            m = m - 1;
            receivers_after.set(m, count);
            let ins = self.incoming(wallets[m]);
            if ins.len() > 0 {
                count = count + 1;
            }
        }
        let mut total: u64 = 0;
        let mut i: usize = 0;
        proof {
            lemma_coordinated_pairs_bounds(edges, wallets@, 0);
        }
        while i < n
            invariant
                self.wf(),
                edges == graph_edges(self.graph),
                i <= n,
                n == wallets@.len(),
                n < 0x1_0000_0000,
                receivers_after@.len() == n,
                forall|j: int| 0 <= j < n ==> #[trigger] receivers_after@[j] == receiver_count_after(edges, wallets@, j + 1),
                total == coordinated_pairs(edges, wallets@, i as int),
                total <= i * n,
            decreases n - i,
        {
            proof {
                lemma_coordinated_pairs_bounds(edges, wallets@, i as int + 1);
                assert((i + 1) * n <= n * n) by (nonlinear_arith) requires i + 1 <= n;
                assert(n * n < 0x1_0000_0000 * 0x1_0000_0000) by (nonlinear_arith) requires n < 0x1_0000_0000;
            }
            let outs = self.outgoing(wallets[i]);
            let add: u64 = if outs.len() > 0 { (n - 1 - i) as u64 } else { receivers_after[i] };
            total = total + add;
            i = i + 1;
        }
        let nn = n as u64;
        proof {
            if nn >= 1 {
                assert(nn * (nn - 1) < 0x1_0000_0000 * 0x1_0000_0000) by (nonlinear_arith)
                    requires nn < 0x1_0000_0000, nn >= 1;
            }
        }
        let possible: u64 = if nn == 0 { 0 } else { nn * (nn - 1) / 2 };
        proof {
            assert(possible == pair_count(nn as int)) by (nonlinear_arith)
                requires possible == (if nn == 0 { 0 } else { nn * (nn - 1) / 2 }), nn >= 0;
        }
        (total, possible)
    }
}

/// Lexicographic order of sequences under the element order `less` (a proper prefix comes first).
pub open spec fn lex_by<A>(a: Seq<A>, b: Seq<A>, less: spec_fn(A, A) -> bool) -> bool
    decreases a.len(),
{
    if a.len() == 0 {
        b.len() > 0
    } else if b.len() == 0 {
        false
    } else if a[0] != b[0] {
        less(a[0], b[0])
    } else {
        lex_by(a.drop_first(), b.drop_first(), less)
    }
}

/// `less` is a strict total order.
pub open spec fn strict_total<A>(less: spec_fn(A, A) -> bool) -> bool {
    &&& forall|x: A| #![trigger less(x, x)] !less(x, x)
    &&& forall|x: A, y: A, z: A| #![trigger less(x, y), less(y, z)] less(x, y) && less(y, z) ==> less(x, z)
    &&& forall|x: A, y: A| #![trigger less(x, y)] x != y ==> less(x, y) || less(y, x)
}

proof fn lemma_lex_by_irreflexive<A>(a: Seq<A>, less: spec_fn(A, A) -> bool)
    ensures
        !lex_by(a, a, less),
    decreases a.len(),
{
    if a.len() > 0 {
        lemma_lex_by_irreflexive(a.drop_first(), less);
    }
}

proof fn lemma_lex_by_transitive<A>(a: Seq<A>, b: Seq<A>, c: Seq<A>, less: spec_fn(A, A) -> bool)
    requires
        strict_total(less),
        lex_by(a, b, less),
        lex_by(b, c, less),
    ensures
        lex_by(a, c, less),
    decreases a.len(),
{
    if a.len() > 0 && b.len() > 0 && c.len() > 0 {
        if a[0] == b[0] && b[0] == c[0] {
            lemma_lex_by_transitive(a.drop_first(), b.drop_first(), c.drop_first(), less);
        } else if a[0] != b[0] && b[0] != c[0] {
            assert(less(a[0], b[0]) && less(b[0], c[0]));
            if a[0] == c[0] {
                assert(less(a[0], a[0]));
            }
        }
    }
}

proof fn lemma_lex_by_total<A>(a: Seq<A>, b: Seq<A>, less: spec_fn(A, A) -> bool)
    requires
        strict_total(less),
        a != b,
    ensures
        lex_by(a, b, less) || lex_by(b, a, less),
    decreases a.len(),
{
    if a.len() > 0 && b.len() > 0 {
        if a[0] == b[0] {
            if a.drop_first() == b.drop_first() {
                assert(a =~= seq![a[0]] + a.drop_first());
                assert(b =~= seq![b[0]] + b.drop_first());
            }
            lemma_lex_by_total(a.drop_first(), b.drop_first(), less);
        } else {
            assert(less(a[0], b[0]) || less(b[0], a[0]));
        }
    } else if a.len() == 0 && b.len() == 0 {
        assert(a =~= b);
    }
}

proof fn lemma_lex_by_skip<A>(a: Seq<A>, b: Seq<A>, i: int, less: spec_fn(A, A) -> bool)
    requires
        0 <= i <= a.len(),
        i <= b.len(),
        forall|k: int| 0 <= k < i ==> a[k] == b[k],
    ensures
        lex_by(a, b, less) == lex_by(a.skip(i), b.skip(i), less),
    decreases i,
{
    if i > 0 {
        assert(a[0] == b[0]);
        assert forall|k: int| 0 <= k < i - 1 implies a.drop_first()[k] == b.drop_first()[k] by {
            assert(a[k + 1] == b[k + 1]);
        }
        lemma_lex_by_skip(a.drop_first(), b.drop_first(), i - 1, less);
        assert(a.drop_first().skip(i - 1) =~= a.skip(i));
        assert(b.drop_first().skip(i - 1) =~= b.skip(i));
    } else {
        assert(a.skip(0) =~= a);
        assert(b.skip(0) =~= b);
    }
}

/// The lexicographic order of sequences under a strict total order is a strict total order.
proof fn lemma_lex_by_strict_total<A>(less: spec_fn(A, A) -> bool)
    requires
        strict_total(less),
    ensures
        strict_total(|x: Seq<A>, y: Seq<A>| lex_by(x, y, less)),
{
    let order = |x: Seq<A>, y: Seq<A>| lex_by(x, y, less);
    assert forall|x: Seq<A>| #![trigger order(x, x)] !order(x, x) by {
        lemma_lex_by_irreflexive(x, less);
    }
    assert forall|x: Seq<A>, y: Seq<A>, z: Seq<A>| #![trigger order(x, y), order(y, z)] order(x, y) && order(y, z)
        implies order(x, z) by {
        lemma_lex_by_transitive(x, y, z, less);
    }
    assert forall|x: Seq<A>, y: Seq<A>| #![trigger order(x, y)] x != y implies order(x, y) || order(y, x) by {
        lemma_lex_by_total(x, y, less);
    }
}

/// Characters ordered by code point, as strings compare.
pub open spec fn char_order() -> spec_fn(char, char) -> bool {
    |x: char, y: char| (x as u32) < (y as u32)
}

/// Wallet names in string order: lexicographic by code point.
pub open spec fn name_order() -> spec_fn(Seq<char>, Seq<char>) -> bool {
    |x: Seq<char>, y: Seq<char>| lex_by(x, y, char_order())
}

/// The wallet names of a list of node indices.
pub open spec fn name_list(views: Seq<Seq<char>>, idx: Seq<usize>) -> Seq<Seq<char>> {
    idx.map_values(|i: usize| views[i as int])
}

proof fn lemma_name_order_strict_total()
    ensures
        strict_total(name_order()),
{
    let c = char_order();
    assert forall|x: char, y: char| #![trigger c(x, y)] x != y implies c(x, y) || c(y, x) by {
        vstd::utf8::char_u32_cast(x, x as u32);
        vstd::utf8::char_u32_cast(y, y as u32);
    }
    lemma_lex_by_strict_total(c);
    assert(name_order() =~= (|x: Seq<char>, y: Seq<char>| lex_by(x, y, c)));
}

/// Two lists of valid node indices with the same names are the same list.
proof fn lemma_name_list_injective(views: Seq<Seq<char>>, a: Seq<usize>, b: Seq<usize>)
    requires
        views.no_duplicates(),
        forall|k: int| 0 <= k < a.len() ==> (#[trigger] a[k]) < views.len(),
        forall|k: int| 0 <= k < b.len() ==> (#[trigger] b[k]) < views.len(),
        name_list(views, a) == name_list(views, b),
    ensures
        a == b,
{
    assert(a.len() == name_list(views, a).len());
    assert forall|k: int| 0 <= k < a.len() implies a[k] == b[k] by {
        assert(name_list(views, a)[k] == views[a[k] as int]);
        assert(name_list(views, b)[k] == views[b[k] as int]);
    }
    assert(a =~= b);
}

/// Whether `a` comes before `b` in string order.
fn chars_less(a: &Vec<char>, b: &Vec<char>) -> (r: bool)
    ensures
        r == lex_by(a@, b@, char_order()),
{
    let mut i: usize = 0;
    while i < a.len() && i < b.len() && a[i] == b[i]
        invariant
            i <= a@.len(),
            i <= b@.len(),
            forall|k: int| 0 <= k < i ==> a@[k] == b@[k],
        decreases a@.len() - i,
    {
        i = i + 1;
    }
    proof {
        lemma_lex_by_skip(a@, b@, i as int, char_order());
    }
    if i == a.len() {
        i < b.len()
    } else if i == b.len() {
        false
    } else {
        (a[i] as u32) < (b[i] as u32)
    }
}

fn index_list_eq(a: &Vec<usize>, b: &Vec<usize>) -> (r: bool)
    ensures
        r == (a@ == b@),
{
    if a.len() != b.len() {
        return false;
    }
    let mut i: usize = 0;
    while i < a.len()
        invariant
            i <= a@.len(),
            a@.len() == b@.len(),
            forall|k: int| 0 <= k < i ==> a@[k] == b@[k],
        decreases a@.len() - i,
    {
        if a[i] != b[i] {
            return false;
        }
        i = i + 1;
    }
    proof {
        assert(a@ =~= b@);
    }
    true
}

/// Every list of `v` holds only indices below `n`.
pub open spec fn lists_below(v: Seq<Vec<usize>>, n: int) -> bool {
    forall|i: int, k: int| 0 <= i < v.len() && 0 <= k < v[i]@.len() ==> (#[trigger] v[i]@[k]) < n
}

/// The lists are in strictly increasing order of their wallet names.
pub open spec fn sorted_by_names(views: Seq<Seq<char>>, v: Seq<Vec<usize>>) -> bool {
    forall|i: int, j: int| 0 <= i < j < v.len() ==>
        lex_by(name_list(views, (#[trigger] v[i])@), name_list(views, (#[trigger] v[j])@), name_order())
}

/// Most cycles the pattern search collects over all starting wallets.
pub const PATTERN_CYCLE_BUDGET: usize = 100;
/// Longest circular path the pattern search reports.
pub const PATTERN_MAX_CYCLE: usize = 10;

/// Some list of `v` equals `x`.
pub open spec fn holds_list(v: Seq<Vec<usize>>, x: Seq<usize>) -> bool {
    exists|i: int| 0 <= i < v.len() && #[trigger] v[i]@ == x
}

impl TransactionGraph {
    /// Whether the wallet names of `a` come before those of `b`.
    fn names_less(&self, a: &Vec<usize>, b: &Vec<usize>) -> (r: bool)
        requires
            self.wf(),
            forall|k: int| 0 <= k < a@.len() ==> (#[trigger] a@[k]) < self.wallet_views().len(),
            forall|k: int| 0 <= k < b@.len() ==> (#[trigger] b@[k]) < self.wallet_views().len(),
        ensures
            r == lex_by(name_list(self.wallet_views(), a@), name_list(self.wallet_views(), b@), name_order()),
    {
        let ghost views = self.wallet_views();
        let ghost na = name_list(views, a@);
        let ghost nb = name_list(views, b@);
        let mut i: usize = 0;
        while i < a.len() && i < b.len() && a[i] == b[i]
            invariant
                i <= a@.len(),
                i <= b@.len(),
                forall|k: int| 0 <= k < i ==> a@[k] == b@[k],
            decreases a@.len() - i,
        {
            i = i + 1;
        }
        proof {
            assert forall|k: int| 0 <= k < i implies na[k] == nb[k] by {
                assert(na[k] == views[a@[k] as int] && nb[k] == views[b@[k] as int]);
            }
            lemma_lex_by_skip(na, nb, i as int, name_order());
        }
        if i == a.len() {
            proof {
                assert(na.skip(i as int).len() == 0);
            }
            i < b.len()
        } else if i == b.len() {
            proof {
                assert(nb.skip(i as int).len() == 0);
            }
            false
        } else {
            let x = chars_of(self.wallets[a[i]].as_str());
            let y = chars_of(self.wallets[b[i]].as_str());
            proof {
                assert(na.skip(i as int)[0] == views[a@[i as int] as int]);
                assert(nb.skip(i as int)[0] == views[b@[i as int] as int]);
                assert(views[a@[i as int] as int] == self.wallets@[a@[i as int] as int]@);
                assert(views[b@[i as int] as int] == self.wallets@[b@[i as int] as int]@);
                assert(views[a@[i as int] as int] != views[b@[i as int] as int]);
            }
            chars_less(&x, &y)
        }
    }

    /// Insert `c` into a list sorted by wallet names unless an equal list is there.
    fn insert_by_names(&self, sorted: &mut Vec<Vec<usize>>, c: Vec<usize>)
        requires
            self.wf(),
            sorted_by_names(self.wallet_views(), old(sorted)@),
            lists_below(old(sorted)@, self.wallet_views().len() as int),
            forall|k: int| 0 <= k < c@.len() ==> (#[trigger] c@[k]) < self.wallet_views().len(),
        ensures
            sorted_by_names(self.wallet_views(), final(sorted)@),
            lists_below(final(sorted)@, self.wallet_views().len() as int),
            forall|x: Seq<usize>| #[trigger] holds_list(final(sorted)@, x) <==> (x == c@ || holds_list(old(sorted)@, x)),
    {
        let ghost views = self.wallet_views();
        let ghost before = sorted@;
        let ghost eorder = name_order();
        let ghost lorder = |x: Seq<Seq<char>>, y: Seq<Seq<char>>| lex_by(x, y, eorder);
        proof {
            lemma_name_order_strict_total();
            lemma_lex_by_strict_total(eorder);
            assert(lorder =~= (|x: Seq<Seq<char>>, y: Seq<Seq<char>>| lex_by(x, y, eorder)));
        }
        let mut pos: usize = 0;
        while pos < sorted.len() && self.names_less(&sorted[pos], &c)
            invariant
                self.wf(),
                views == self.wallet_views(),
                eorder == name_order(),
                sorted@ == before,
                lists_below(before, views.len() as int),
                forall|k: int| 0 <= k < c@.len() ==> (#[trigger] c@[k]) < views.len(),
                pos <= sorted@.len(),
                forall|i: int| 0 <= i < pos ==> lex_by(name_list(views, (#[trigger] sorted@[i])@), name_list(views, c@), eorder),
            decreases sorted@.len() - pos,
        {
            pos = pos + 1;
        }
        if pos < sorted.len() && index_list_eq(&sorted[pos], &c) {
            return;
        }
        let ghost nc = name_list(views, c@);
        proof {
            if pos < before.len() {
                let np = name_list(views, before[pos as int]@);
                assert(!lex_by(np, nc, eorder));
                assert(before[pos as int]@ != c@);
                if np == nc {
                    lemma_name_list_injective(views, before[pos as int]@, c@);
                }
                assert(lorder(np, nc) || lorder(nc, np));
                assert forall|j: int| pos <= j < before.len() implies lex_by(nc, name_list(views, (#[trigger] before[j])@), eorder) by {
                    if j > pos {
                        let nj = name_list(views, before[j]@);
                        assert(lorder(nc, np) && lorder(np, nj));
                    }
                }
            }
        }
        let ghost cv = c@;
        sorted.insert(pos, c);
        proof {
            let after = sorted@;
            assert(after[pos as int]@ == cv);
            assert forall|i: int, j: int| 0 <= i < j < after.len() implies
                lex_by(name_list(views, (#[trigger] after[i])@), name_list(views, (#[trigger] after[j])@), eorder) by {
                if j < pos {
                    assert(after[i] == before[i] && after[j] == before[j]);
                } else if j == pos {
                    assert(after[i] == before[i]);
                } else if i < pos {
                    assert(after[i] == before[i] && after[j] == before[j - 1]);
                    let ni = name_list(views, before[i]@);
                    let nj = name_list(views, before[j - 1]@);
                    assert(lorder(ni, nc) && lorder(nc, nj));
                } else if i == pos {
                    assert(after[j] == before[j - 1]);
                } else {
                    assert(after[i] == before[i - 1] && after[j] == before[j - 1]);
                }
            }
            assert forall|i: int, k: int| 0 <= i < after.len() && 0 <= k < after[i]@.len() implies
                (#[trigger] after[i]@[k]) < views.len() by {
                if i < pos {
                    assert(after[i] == before[i]);
                } else if i > pos {
                    assert(after[i] == before[i - 1]);
                }
            }
            assert forall|x: Seq<usize>| #[trigger] holds_list(after, x) <==> (x == cv || holds_list(before, x)) by {
                if exists|i: int| 0 <= i < after.len() && #[trigger] after[i]@ == x {
                    let i = choose|i: int| 0 <= i < after.len() && #[trigger] after[i]@ == x;
                    if i < pos {
                        assert(before[i]@ == x);
                    } else if i > pos {
                        assert(before[i - 1]@ == x);
                    }
                }
                if exists|i: int| 0 <= i < before.len() && #[trigger] before[i]@ == x {
                    let i = choose|i: int| 0 <= i < before.len() && #[trigger] before[i]@ == x;
                    if i < pos {
                        assert(after[i]@ == x);
                    } else {
                        assert(after[i + 1]@ == x);
                    }
                }
            }
        }
    }
}

/// The cycles the pattern search collects from the first `s` wallets: the search from each
/// wallet in turn may follow edges while fewer than a hundred cycles were collected over all
/// the searches so far.
pub open spec fn pattern_found(edges: Seq<(usize, usize, usize)>, s: nat) -> Seq<Seq<usize>>
    decreases s,
{
    if s == 0 {
        Seq::empty()
    } else {
        let prev = pattern_found(edges, (s - 1) as nat);
        let budget: usize = if prev.len() < PATTERN_CYCLE_BUDGET { (PATTERN_CYCLE_BUDGET - prev.len()) as usize } else { 0 };
        prev + dfs_found(edges, (s - 1) as usize, (s - 1) as usize, Seq::empty(), PATTERN_MAX_CYCLE, budget, true)
    }
}

impl TransactionGraph {
    /// The wallets of a cycle through a valid start are valid wallets.
    proof fn lemma_cycle_nodes_below(&self, start: usize, c: Seq<usize>, max_len: usize)
        requires
            self.wf(),
            start < self.wallet_views().len(),
            is_cycle(graph_edges(self.graph), start, c, max_len),
        ensures
            forall|k: int| 0 <= k < c.len() ==> (#[trigger] c[k]) < self.wallet_views().len(),
    {
        let edges = graph_edges(self.graph);
        assert forall|k: int| 0 <= k < c.len() implies (#[trigger] c[k]) < self.wallet_views().len() by {
            if k < c.len() - 1 {
                assert(has_edge(edges, c[k], c[k + 1]));
                let e = choose|e: int| 0 <= e < edges.len() && (#[trigger] edges[e]).0 == c[k] && edges[e].1 == c[k + 1];
                assert(edges[e] == (self.transfers@[e].0, self.transfers@[e].1, e as usize));
            } else {
                assert(has_edge(edges, c.last(), start));
                let e = choose|e: int| 0 <= e < edges.len() && (#[trigger] edges[e]).0 == c.last() && edges[e].1 == start;
                assert(edges[e] == (self.transfers@[e].0, self.transfers@[e].1, e as usize));
            }
        }
    }

    /// The circular paths of the pattern search: a depth-first search from each wallet in turn
    /// collects cycles of at most eleven wallets while fewer than a hundred were found over the
    /// whole search; those of at most ten wallets are reported once each, in increasing order of
    /// their wallet names.
    pub fn find_cycle_paths(&self) -> (r: Vec<Vec<usize>>)
        requires
            self.wf(),
        ensures
            sorted_by_names(self.wallet_views(), r@),
            forall|k: int| 0 <= k < r@.len() ==> (#[trigger] r@[k])@.len() <= PATTERN_MAX_CYCLE
                && is_cycle(self.edge_list(), r@[k]@[0], r@[k]@, PATTERN_MAX_CYCLE),
            forall|x: Seq<usize>| #[trigger] holds_list(r@, x) <==>
                (pattern_found(self.edge_list(), self.wallet_views().len() as nat).contains(x) && x.len() <= PATTERN_MAX_CYCLE),
    {
        let ghost edges = graph_edges(self.graph);
        let n = self.wallets.len();
        let mut found: usize = 0;
        let mut out: Vec<Vec<usize>> = Vec::new();
        let mut start: usize = 0;
        while start < n
            invariant
                self.wf(),
                edges == graph_edges(self.graph),
                n == self.wallets@.len(),
                n == self.wallet_views().len(),
                start <= n,
                sorted_by_names(self.wallet_views(), out@),
                lists_below(out@, n as int),
                forall|k: int| 0 <= k < out@.len() ==> (#[trigger] out@[k])@.len() <= PATTERN_MAX_CYCLE
                    && is_cycle(self.edge_list(), out@[k]@[0], out@[k]@, PATTERN_MAX_CYCLE),
                found as int == if pattern_found(edges, start as nat).len() < usize::MAX {
                    pattern_found(edges, start as nat).len() as int
                } else {
                    usize::MAX as int
                },
                forall|x: Seq<usize>| #[trigger] holds_list(out@, x) <==>
                    (pattern_found(edges, start as nat).contains(x) && x.len() <= PATTERN_MAX_CYCLE),
            decreases n - start,
        {
            let ghost prev = pattern_found(edges, start as nat);
            let mut visited: Vec<bool> = Vec::new();
            let mut k: usize = 0;
            while k < n
                invariant
                    k <= n,
                    visited@.len() == k,
                    forall|v: int| 0 <= v < k ==> !visited@[v],
                decreases n - k,
            {
                visited.push(false);
                k = k + 1;
            }
            let mut path: Vec<usize> = Vec::new();
            proof {
                assert forall|v: int| 0 <= v < visited@.len() implies (visited@[v] <==> path@.contains(v as usize)) by {
                    assert(!visited@[v]);
                }
                assert(is_path(graph_edges(self.graph), path@));
                assert(path@ =~= Seq::<usize>::empty());
            }
            let budget = if found < PATTERN_CYCLE_BUDGET { PATTERN_CYCLE_BUDGET - found } else { 0 };
            let cycles = self.dfs_cycles(start, start, &mut visited, &mut path, PATTERN_MAX_CYCLE, budget, true);
            let ghost found_here = list_views(cycles@);
            proof {
                assert(pattern_found(edges, (start + 1) as nat) == prev + found_here);
            }
            found = if cycles.len() < usize::MAX - found { found + cycles.len() } else { usize::MAX };
            let mut m: usize = 0;
            while m < cycles.len()
                invariant
                    self.wf(),
                    n == self.wallet_views().len(),
                    start < n,
                    m <= cycles@.len(),
                    found_here == list_views(cycles@),
                    forall|q: int| 0 <= q < cycles@.len() ==> is_cycle(graph_edges(self.graph), start, (#[trigger] cycles@[q])@, PATTERN_MAX_CYCLE),
                    sorted_by_names(self.wallet_views(), out@),
                    lists_below(out@, n as int),
                    forall|q: int| 0 <= q < out@.len() ==> (#[trigger] out@[q])@.len() <= PATTERN_MAX_CYCLE
                        && is_cycle(self.edge_list(), out@[q]@[0], out@[q]@, PATTERN_MAX_CYCLE),
                    forall|x: Seq<usize>| #[trigger] holds_list(out@, x) <==>
                        ((prev.contains(x) || found_here.take(m as int).contains(x)) && x.len() <= PATTERN_MAX_CYCLE),
                decreases cycles@.len() - m,
            {
                let c = &cycles[m];
                let ghost out0 = out@;
                if c.len() <= PATTERN_MAX_CYCLE {
                    let ghost before = out@;
                    let copy = c.clone();
                    proof {
                        assert(copy@ == cycles@[m as int]@);
                        self.lemma_cycle_nodes_below(start, copy@, PATTERN_MAX_CYCLE);
                    }
                    self.insert_by_names(&mut out, copy);
                    proof {
                        assert forall|q: int| 0 <= q < out@.len() implies (#[trigger] out@[q])@.len() <= PATTERN_MAX_CYCLE
                            && is_cycle(self.edge_list(), out@[q]@[0], out@[q]@, PATTERN_MAX_CYCLE) by {
                            let x = out@[q]@;
                            assert(holds_list(out@, x));
                            if x != cycles@[m as int]@ {
                                let i = choose|i: int| 0 <= i < before.len() && #[trigger] before[i]@ == x;
                                assert(before[i]@.len() <= PATTERN_MAX_CYCLE);
                            }
                        }
                    }
                }
                proof {
                    let cm = cycles@[m as int]@;
                    let a = found_here.take(m as int);
                    assert(found_here.take(m as int + 1) =~= a.push(cm));
                    assert forall|x: Seq<usize>| #[trigger] holds_list(out@, x) <==>
                        ((prev.contains(x) || found_here.take(m as int + 1).contains(x)) && x.len() <= PATTERN_MAX_CYCLE) by {
                        assert(holds_list(out@, x) <==> (holds_list(out0, x) || (x == cm && cm.len() <= PATTERN_MAX_CYCLE)));
                        if a.push(cm).contains(x) {
                            let j = choose|j: int| 0 <= j < a.len() + 1 && a.push(cm)[j] == x;
                            if j < a.len() {
                                assert(a[j] == x);
                            }
                        }
                        if a.contains(x) {
                            let j = choose|j: int| 0 <= j < a.len() && a[j] == x;
                            assert(a.push(cm)[j] == x);
                        }
                        if x == cm {
                            assert(a.push(cm)[a.len() as int] == x);
                        }
                    }
                }
                m = m + 1;
            }
            proof {
                assert(found_here.take(m as int) =~= found_here);
                assert forall|x: Seq<usize>| (prev + found_here).contains(x) <==> (prev.contains(x) || found_here.contains(x)) by {
                    if (prev + found_here).contains(x) {
                        let j = choose|j: int| 0 <= j < (prev + found_here).len() && (prev + found_here)[j] == x;
                        if j >= prev.len() {
                            assert(found_here[j - prev.len()] == x);
                        }
                    }
                    if prev.contains(x) {
                        let j = choose|j: int| 0 <= j < prev.len() && prev[j] == x;
                        assert((prev + found_here)[j] == x);
                    }
                    if found_here.contains(x) {
                        let j = choose|j: int| 0 <= j < found_here.len() && found_here[j] == x;
                        assert((prev + found_here)[prev.len() + j] == x);
                    }
                }
            }
            start = start + 1;
        }
        out
    }
}

} // verus!
