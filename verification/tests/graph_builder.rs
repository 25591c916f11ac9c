use h_5n1p3r::classification::PatternType;
use h_5n1p3r::wallet_graph::{circular_wallets, sybil_clusters, TransactionEdge, TransactionGraph, WalletCluster};

const MAX_WALLETS: usize = 10_000;

fn create_test_edge(amount: u64) -> TransactionEdge {
    TransactionEdge {
        signature: "test_sig".to_string(),
        amount,
        timestamp_ms: 1_700_000_000_000,
        slot: 12345,
        token_mint: Some("test_mint".to_string()),
    }
}

fn edge_at(amount: u64, timestamp_ms: i64) -> TransactionEdge {
    TransactionEdge { timestamp_ms, ..create_test_edge(amount) }
}

fn add(graph: &mut TransactionGraph, from: &str, to: &str, edge: TransactionEdge) {
    graph.add_transaction(&from.to_string(), &to.to_string(), edge);
}

#[test]
fn test_graph_creation() {
    let graph = TransactionGraph::new(MAX_WALLETS);
    let counts = graph.calculate_counts();
    assert_eq!(counts.node_count, 0);
    assert_eq!(counts.edge_count, 0);
}

#[test]
fn test_add_transaction() {
    let mut graph = TransactionGraph::new(MAX_WALLETS);

    add(&mut graph, "wallet1", "wallet2", create_test_edge(1000));

    assert_eq!(graph.nodes().len(), 2);
    assert_eq!(graph.calculate_counts().edge_count, 1);
}

#[test]
fn test_node_stats() {
    let mut graph = TransactionGraph::new(MAX_WALLETS);

    add(&mut graph, "wallet1", "wallet2", create_test_edge(1000));

    let stats = graph.get_node_stats(&"wallet1".to_string()).unwrap();
    assert_eq!(stats.out_degree, 1);
    assert_eq!(stats.total_sent, 1000);

    let stats = graph.get_node_stats(&"wallet2".to_string()).unwrap();
    assert_eq!(stats.in_degree, 1);
    assert_eq!(stats.total_received, 1000);
}

#[test]
fn test_calculate_metrics() {
    let mut graph = TransactionGraph::new(MAX_WALLETS);

    add(&mut graph, "w1", "w2", create_test_edge(100));
    add(&mut graph, "w2", "w3", create_test_edge(200));
    add(&mut graph, "w3", "w1", create_test_edge(300));

    let counts = graph.calculate_counts();
    assert_eq!(counts.node_count, 3);
    assert_eq!(counts.edge_count, 3);
    let n = counts.node_count as f64;
    let density = counts.edge_count as f64 / (n * (n - 1.0));
    assert!(density > 0.0);
    assert_eq!(counts.connected_components, 1);
}

#[test]
fn test_max_wallets_limit() {
    let mut graph = TransactionGraph::new(2);

    add(&mut graph, "w1", "w2", create_test_edge(100));
    add(&mut graph, "w3", "w4", create_test_edge(200));

    assert!(graph.nodes().len() <= 2);
    assert_eq!(graph.calculate_counts().edge_count, 2);
    assert!(graph.get_node_stats(&"w3".to_string()).is_none());
}

#[test]
fn test_clear_graph() {
    let mut graph = TransactionGraph::new(MAX_WALLETS);

    add(&mut graph, "w1", "w2", create_test_edge(100));
    assert_eq!(graph.nodes().len(), 2);

    graph.clear();
    assert_eq!(graph.nodes().len(), 0);
    assert_eq!(graph.calculate_counts().edge_count, 0);
}

#[test]
fn test_node_stats_first_and_last_seen() {
    let mut graph = TransactionGraph::new(MAX_WALLETS);
    add(&mut graph, "a", "b", edge_at(5, 1000));
    add(&mut graph, "b", "a", edge_at(7, 2000));
    add(&mut graph, "a", "a", edge_at(1, 3000));
    let a = graph.get_node_stats(&"a".to_string()).unwrap();
    assert_eq!(a.out_degree, 2);
    assert_eq!(a.in_degree, 2);
    assert_eq!(a.total_sent, 6);
    assert_eq!(a.total_received, 8);
    assert_eq!(a.first_seen, Some(1000));
    assert_eq!(a.last_seen, Some(3000));
    assert_eq!(graph.edges_from(&"a".to_string()), vec![(1, 3000), (5, 1000)]);
    assert!(graph.edges_from(&"zzz".to_string()).is_empty());
}

#[test]
fn test_cluster_wallets() {
    let mut graph = TransactionGraph::new(MAX_WALLETS);

    add(&mut graph, "w1", "w2", create_test_edge(100));
    add(&mut graph, "w2", "w3", create_test_edge(100));
    add(&mut graph, "w3", "w1", create_test_edge(100));

    add(&mut graph, "w4", "w5", create_test_edge(100));

    let (clusters, labels) = graph.find_connected_components();

    assert!(!clusters.is_empty());
    assert_eq!(clusters.len(), 2);
    assert_eq!(labels, vec![0, 0, 0, 1, 1]);
    assert_eq!(clusters[1], vec![3, 4]);
    assert_eq!(graph.calculate_counts().connected_components, 2);
}

#[test]
fn test_circular_paths() {
    let mut graph = TransactionGraph::new(MAX_WALLETS);
    add(&mut graph, "wallet_a", "wallet_b", edge_at(1000, 1_000));
    add(&mut graph, "wallet_b", "wallet_c", edge_at(1000, 2_500));
    add(&mut graph, "wallet_c", "wallet_a", edge_at(1000, 4_000));

    let paths = graph.find_circular_paths(10);
    assert_eq!(paths.len(), 3);
    for p in &paths {
        assert_eq!(p.path.len(), 3);
        assert_eq!(p.stats.repeat_count, 1);
        assert_eq!(p.stats.avg_amount, 1000);
        assert_eq!(p.stats.time_span_secs, 3);
        assert_eq!(p.stats.amounts, vec![1000, 1000, 1000]);
    }
    assert_eq!(paths[0].path, vec![0, 1, 2]);

    // a path of three wallets is too long when at most two are allowed
    assert!(graph.find_circular_paths(2).is_empty());
    let stats = graph.analyze_cycle(&vec![0, 1]).unwrap();
    assert_eq!(stats.repeat_count, 1);
    assert!(graph.analyze_cycle(&Vec::new()).is_none());
}

#[test]
fn test_cluster_cohesion() {
    let mut graph = TransactionGraph::new(MAX_WALLETS);
    add(&mut graph, "w1", "w2", create_test_edge(100));
    add(&mut graph, "w2", "w1", create_test_edge(100));
    add(&mut graph, "w1", "w3", create_test_edge(100));
    add(&mut graph, "w3", "w1", create_test_edge(100));
    add(&mut graph, "w2", "w3", create_test_edge(100));
    add(&mut graph, "w3", "w2", create_test_edge(100));

    let (connected, possible) = graph.cohesion_counts(&vec![0, 1, 2]);
    let cohesion = connected as f64 / possible as f64;
    assert!(cohesion > 0.0);
    assert!(cohesion <= 1.0);
    assert_eq!((connected, possible), (3, 3));
}

#[test]
fn test_identify_pattern() {
    let mut graph = TransactionGraph::new(MAX_WALLETS);
    add(&mut graph, "w1", "w2", create_test_edge(100));
    let cluster = graph.describe_cluster(0, vec![0]);
    assert_eq!(cluster.pattern, PatternType::Normal);
}

#[test]
fn test_cluster_wallets_metrics() {
    let mut graph = TransactionGraph::new(MAX_WALLETS);
    add(&mut graph, "w1", "w2", edge_at(100, 0));
    add(&mut graph, "w2", "w3", edge_at(100, 10_000));
    add(&mut graph, "w3", "w1", edge_at(100, 20_000));
    add(&mut graph, "w4", "w5", edge_at(100, 0));
    add(&mut graph, "w6", "w6", edge_at(100, 0));

    let clusters = graph.cluster_wallets();
    assert_eq!(clusters.len(), 3);
    let mut first = clusters[0].wallets.clone();
    first.sort();
    assert_eq!(first, vec![0, 1, 2]);
    assert_eq!((clusters[0].connected_pairs, clusters[0].possible_pairs), (3, 3));
    assert_eq!(clusters[0].tx_count, 3);
    assert_eq!(clusters[0].time_span_secs, 20);
    // all pairs linked and ten seconds between transfers: three wallets look like wash trading
    assert_eq!(clusters[0].pattern, PatternType::WashTrading);
    // only w4 sends: its one pair is linked
    assert_eq!((clusters[1].connected_pairs, clusters[1].possible_pairs), (1, 1));
    assert_eq!(clusters[1].pattern, PatternType::WashTrading);
    assert_eq!(clusters[2].wallets, vec![5]);
    assert_eq!(clusters[2].pattern, PatternType::Normal);
}

#[test]
fn test_slow_cluster_is_normal() {
    let mut graph = TransactionGraph::new(MAX_WALLETS);
    add(&mut graph, "a", "b", edge_at(1, 0));
    add(&mut graph, "b", "a", edge_at(1, 120_000));
    let cluster = graph.describe_cluster(7, vec![0, 1]);
    assert_eq!(cluster.id, 7);
    assert_eq!(cluster.time_span_secs, 120);
    assert_eq!(cluster.pattern, PatternType::Normal);
}

#[test]
fn test_large_component_is_split() {
    let mut graph = TransactionGraph::new(MAX_WALLETS);
    for i in 1..=101 {
        add(&mut graph, "hub", &format!("leaf{}", i), edge_at(1, 0));
    }
    let clusters = graph.cluster_wallets();
    assert_eq!(clusters.len(), 102);
    let mut seen: Vec<usize> = Vec::new();
    for (k, c) in clusters.iter().enumerate() {
        assert_eq!(c.id, k);
        assert_eq!(c.wallets.len(), 1);
        assert_eq!(c.possible_pairs, 0);
        seen.push(c.wallets[0]);
    }
    seen.sort();
    assert_eq!(seen, (0..102).collect::<Vec<usize>>());
}

#[test]
fn test_detect_sybil_clusters() {
    let mut graph = TransactionGraph::new(MAX_WALLETS);
    for i in 0..10 {
        for j in (i + 1)..10 {
            let w1 = format!("sybil{}", i);
            let w2 = format!("sybil{}", j);
            add(&mut graph, &w1, &w2, create_test_edge(100));
        }
    }
    let sybil = graph.detect_sybil_clusters();
    // nine of ten wallets send, so every pair holds a sender: cohesion 1
    assert_eq!(sybil.len(), 1);
    assert_eq!((sybil[0].connected_pairs, sybil[0].possible_pairs), (45, 45));
    assert_eq!(sybil[0].pattern, PatternType::CoordinatedBuying);
}

#[test]
fn test_sybil_filter_keeps_order() {
    let cluster = |id: usize, n: usize, connected: u64, possible: u64, pattern: PatternType| WalletCluster {
        id,
        wallets: (0..n).collect(),
        connected_pairs: connected,
        possible_pairs: possible,
        tx_count: 0,
        time_span_secs: 0,
        pattern,
    };
    let kept = sybil_clusters(vec![
        cluster(0, 12, 40, 66, PatternType::SybilCluster),
        cluster(1, 5, 9, 10, PatternType::Normal),
        cluster(2, 4, 6, 6, PatternType::WashTrading),
        cluster(3, 5, 8, 10, PatternType::Normal),
    ]);
    let ids: Vec<usize> = kept.iter().map(|c| c.id).collect();
    assert_eq!(ids, vec![0, 1]);
}

fn signed(sig: &str, timestamp_ms: i64) -> TransactionEdge {
    TransactionEdge { signature: sig.to_string(), ..edge_at(10, timestamp_ms) }
}

#[test]
fn test_time_clusters() {
    let mut graph = TransactionGraph::new(MAX_WALLETS);
    add(&mut graph, "a", "b", edge_at(1, 0));
    add(&mut graph, "c", "d", edge_at(1, 1_000_000));
    add(&mut graph, "e", "f", edge_at(1, 100_000));
    add(&mut graph, "g", "g", edge_at(1, 5_000_000));

    // window of ten minutes: a, b, e, f within it of a; c, d together; g alone
    assert_eq!(graph.time_clusters(600), vec![vec![0, 1, 4, 5], vec![2, 3]]);
    // a window of 100 s leaves e and f out of a's group: the gap is exactly 100 s
    assert_eq!(graph.time_clusters(100), vec![vec![0, 1], vec![2, 3], vec![4, 5]]);
    assert!(graph.time_clusters(0).is_empty());
    assert!(TransactionGraph::new(MAX_WALLETS).time_clusters(3600).is_empty());
}

#[test]
fn test_wallet_similarity() {
    let mut graph = TransactionGraph::new(MAX_WALLETS);
    add(&mut graph, "a", "b", signed("x", 0));
    add(&mut graph, "b", "c", signed("x", 0));
    add(&mut graph, "c", "a", signed("y", 0));
    // a and b sent the same signature: 1 shared of 2
    assert!(graph.wallets_similar(0, 1));
    // b and c share nothing
    assert!(!graph.wallets_similar(1, 2));
    // d does not exist: nothing sent on either side of (3, 3)
    assert!(!graph.wallets_similar(3, 3));
}

#[test]
fn test_behavior_groups_and_wash_clusters() {
    let mut graph = TransactionGraph::new(MAX_WALLETS);
    add(&mut graph, "a", "b", signed("x", 0));
    add(&mut graph, "b", "c", signed("x", 1_000));
    add(&mut graph, "c", "a", signed("x", 2_000));
    add(&mut graph, "d", "e", signed("z", 0));

    let paths = graph.find_circular_paths(10);
    let circ = circular_wallets(&paths);
    let mut sorted = circ.clone();
    sorted.sort();
    assert_eq!(sorted, vec![0, 1, 2]);

    let groups = graph.behavior_groups(&circ, 3);
    assert_eq!(groups.len(), 1);
    assert_eq!(groups[0].len(), 3);
    assert!(graph.behavior_groups(&vec![3, 4], 1).len() == 2);

    let wash = graph.wash_clusters(&paths, 3);
    assert_eq!(wash.len(), 1);
    assert_eq!(wash[0].cluster_id, 0);
    assert_eq!((wash[0].connected_pairs, wash[0].possible_pairs), (3, 3));
    // four wallets at least: the group is too small
    assert!(graph.wash_clusters(&paths, 4).is_empty());
}

#[test]
fn test_edges_to_lists_incoming_transfers() {
    let mut graph = TransactionGraph::new(MAX_WALLETS);
    add(&mut graph, "wallet1", "wallet2", edge_at(100, 1_000));
    add(&mut graph, "wallet3", "wallet2", edge_at(200, 2_000));
    add(&mut graph, "wallet2", "wallet1", edge_at(50, 3_000));

    let incoming = graph.edges_to(&"wallet2".to_string());
    assert_eq!(incoming, vec![(200, 2_000), (100, 1_000)]);
    assert_eq!(graph.edges_to(&"wallet1".to_string()), vec![(50, 3_000)]);
    assert!(graph.edges_to(&"wallet3".to_string()).is_empty());
    assert!(graph.edges_to(&"unknown".to_string()).is_empty());
}

#[test]
fn test_coordination_counts() {
    let mut graph = TransactionGraph::new(MAX_WALLETS);
    // a = 0 sends to x = 1; y = 2 sends to c = 3.
    add(&mut graph, "a", "x", create_test_edge(10));
    add(&mut graph, "y", "c", create_test_edge(10));

    // Pairs (x, a): neither x sent nor a received; (x, c): c received; (a, c): a sent.
    assert_eq!(graph.coordination_counts(&vec![1, 0, 3]), (2, 3));
    assert_eq!(graph.coordination_counts(&vec![0]), (0, 0));
    assert_eq!(graph.coordination_counts(&vec![]), (0, 0));
}

#[test]
fn test_find_cycle_paths() {
    let mut graph = TransactionGraph::new(MAX_WALLETS);
    add(&mut graph, "a", "b", create_test_edge(100));
    add(&mut graph, "b", "c", create_test_edge(100));
    add(&mut graph, "c", "a", create_test_edge(100));
    add(&mut graph, "d", "e", create_test_edge(100));

    let cycles = graph.find_cycle_paths();
    assert_eq!(cycles, vec![vec![0, 1, 2], vec![1, 2, 0], vec![2, 0, 1]]);
}

#[test]
fn test_find_cycle_paths_none_without_cycles() {
    let mut graph = TransactionGraph::new(MAX_WALLETS);
    add(&mut graph, "a", "b", create_test_edge(100));
    add(&mut graph, "b", "c", create_test_edge(100));
    assert!(graph.find_cycle_paths().is_empty());
}

#[test]
fn test_find_cycle_paths_ordered_by_wallet_name() {
    let mut graph = TransactionGraph::new(MAX_WALLETS);
    // c = 0, b = 1, a = 2
    add(&mut graph, "c", "b", create_test_edge(100));
    add(&mut graph, "b", "a", create_test_edge(100));
    add(&mut graph, "a", "c", create_test_edge(100));

    let cycles = graph.find_cycle_paths();
    // [a, c, b] < [b, a, c] < [c, b, a]
    assert_eq!(cycles, vec![vec![2, 0, 1], vec![1, 2, 0], vec![0, 1, 2]]);
}
