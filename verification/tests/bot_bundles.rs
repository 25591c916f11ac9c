use h_5n1p3r::bundles::{
    analyze_bot_activity, bot_probability_tenths, cluster_suspicion_tenths, detect_bundles,
    detect_repeated_addresses, detect_suspicious_clusters, find_bundles, order_by_time,
    TransactionTiming,
};
use h_5n1p3r::classification::TokenClassification;

const BOT_TIMING_THRESHOLD_MS: u64 = 100;
const BUNDLE_TIME_WINDOW_MS: u64 = 500;
const MIN_BUNDLE_SIZE: usize = 3;
const HIGH_FREQUENCY_THRESHOLD: f64 = 10.0;
const BASE_TIME_MS: i64 = 1_700_000_000_000;

fn create_test_transaction(address: &str, timestamp_ms: i64, time_since_deploy_ms: u64) -> TransactionTiming {
    TransactionTiming {
        signature: format!("sig_{}", address),
        address: address.to_string(),
        timestamp_ms,
        time_since_deploy_ms,
        slot: 1000,
        in_bundle: false,
        bundle_id: None,
    }
}

#[test]
fn test_classification_should_avoid() {
    assert!(!TokenClassification::Organic.should_avoid());
    assert!(!TokenClassification::Mixed.should_avoid());
    assert!(!TokenClassification::BotDominated.should_avoid());
    assert!(TokenClassification::HighlyManipulated.should_avoid());
    assert!(TokenClassification::BundleCoordinated.should_avoid());
}

#[test]
fn test_classification_descriptions() {
    assert_eq!(TokenClassification::Organic.description(), "Healthy organic trading activity");
    assert_eq!(TokenClassification::HighlyManipulated.description(), "Highly manipulated, avoid");
    assert_eq!(TokenClassification::BundleCoordinated.description(), "Coordinated bundle pump detected");
}

#[test]
fn test_bot_activity_detection() {
    let transactions = vec![
        create_test_transaction("bot1", BASE_TIME_MS, 50),
        create_test_transaction("bot2", BASE_TIME_MS, 80),
        create_test_transaction("human1", BASE_TIME_MS, 5000),
        create_test_transaction("bot3", BASE_TIME_MS, 90),
    ];

    let metrics = analyze_bot_activity(&transactions, BOT_TIMING_THRESHOLD_MS);

    assert_eq!(metrics.bot_transaction_count, 3);
    assert_eq!(metrics.unique_bot_addresses, 3);
    let avg_bot_response_time_ms = metrics.total_bot_response_ms as f64 / metrics.bot_transaction_count as f64;
    let instant_transaction_percentage = metrics.bot_transaction_count as f64 / transactions.len() as f64;
    assert!(avg_bot_response_time_ms < 100.0);
    assert!(instant_transaction_percentage > 0.5);
}

#[test]
fn test_bot_activity_repeated_bot_address() {
    let transactions = vec![
        create_test_transaction("bot1", BASE_TIME_MS, 10),
        create_test_transaction("bot1", BASE_TIME_MS + 5, 15),
        create_test_transaction("human", BASE_TIME_MS + 9000, 9000),
    ];
    let metrics = analyze_bot_activity(&transactions, BOT_TIMING_THRESHOLD_MS);
    assert_eq!(metrics.bot_transaction_count, 2);
    assert_eq!(metrics.unique_bot_addresses, 1);
    assert_eq!(metrics.total_bot_response_ms, 25);
}

#[test]
fn test_bot_activity_empty() {
    let metrics = analyze_bot_activity(&Vec::new(), BOT_TIMING_THRESHOLD_MS);
    assert_eq!(metrics.bot_transaction_count, 0);
    assert_eq!(metrics.unique_bot_addresses, 0);
    assert_eq!(metrics.total_bot_response_ms, 0);
}

#[test]
fn test_repeated_address_detection() {
    let transactions = vec![
        create_test_transaction("bot1", BASE_TIME_MS, 50),
        create_test_transaction("bot1", BASE_TIME_MS + 100, 150),
        create_test_transaction("bot1", BASE_TIME_MS + 200, 250),
        create_test_transaction("bot1", BASE_TIME_MS + 300, 350),
        create_test_transaction("bot1", BASE_TIME_MS + 400, 450),
        create_test_transaction("bot1", BASE_TIME_MS + 500, 550),
        create_test_transaction("human1", BASE_TIME_MS, 5000),
    ];

    let repeated = detect_repeated_addresses(&transactions);

    assert_eq!(repeated.len(), 1);
    assert_eq!(repeated[0].address, "bot1");
    assert_eq!(repeated[0].transaction_count, 6);
    let span_ms = (repeated[0].last_timestamp_ms - repeated[0].first_timestamp_ms) as u64;
    let duration_secs = ((span_ms / 1000) as f64).max(1.0);
    let transactions_per_second = repeated[0].transaction_count as f64 / duration_secs;
    let high_frequency = transactions_per_second > HIGH_FREQUENCY_THRESHOLD;
    let bot_probability = bot_probability_tenths(repeated[0].transaction_count, span_ms, high_frequency) as f64 / 10.0;
    assert!(bot_probability > 0.5, "Expected bot probability > 0.5, got {}", bot_probability);
}

#[test]
fn test_repeated_addresses_sorted_by_count() {
    let transactions = vec![
        create_test_transaction("a", BASE_TIME_MS + 30, 0),
        create_test_transaction("b", BASE_TIME_MS + 10, 0),
        create_test_transaction("b", BASE_TIME_MS, 0),
        create_test_transaction("a", BASE_TIME_MS + 5, 0),
        create_test_transaction("b", BASE_TIME_MS + 70, 0),
        create_test_transaction("c", BASE_TIME_MS, 0),
    ];
    let repeated = detect_repeated_addresses(&transactions);
    assert_eq!(repeated.len(), 2);
    assert_eq!(repeated[0].address, "b");
    assert_eq!(repeated[0].transaction_count, 3);
    assert_eq!(repeated[0].first_timestamp_ms, BASE_TIME_MS);
    assert_eq!(repeated[0].last_timestamp_ms, BASE_TIME_MS + 70);
    assert_eq!(repeated[1].address, "a");
    assert_eq!(repeated[1].transaction_count, 2);
    assert_eq!(repeated[1].first_timestamp_ms, BASE_TIME_MS + 5);
    assert_eq!(repeated[1].last_timestamp_ms, BASE_TIME_MS + 30);
}

#[test]
fn test_bot_probability_tenths_values() {
    // 25 transactions in one second, regular timing, high frequency: capped at 1.0
    assert_eq!(bot_probability_tenths(25, 1000, true), 10);
    // two transactions far apart: nothing suspicious
    assert_eq!(bot_probability_tenths(2, 60_000, false), 0);
    // eleven transactions in 100 seconds, 10 s apart: only the count
    assert_eq!(bot_probability_tenths(11, 100_000, false), 3);
}

#[test]
fn test_cluster_detection() {
    let transactions = vec![
        create_test_transaction("addr1", BASE_TIME_MS, 50),
        create_test_transaction("addr2", BASE_TIME_MS + 50, 100),
        create_test_transaction("addr3", BASE_TIME_MS + 100, 150),
        create_test_transaction("addr4", BASE_TIME_MS + 150, 200),
    ];

    let clusters = detect_suspicious_clusters(&transactions, BUNDLE_TIME_WINDOW_MS, MIN_BUNDLE_SIZE);

    assert!(!clusters.is_empty());
    assert!(clusters[0].transaction_count >= MIN_BUNDLE_SIZE);
    assert_eq!(clusters[0].addresses.len(), 4);
    assert_eq!(clusters[0].time_window_ms, 150);
    assert_eq!(clusters[0].suspicion_tenths, 8);
}

#[test]
fn test_cluster_single_address_slow_not_suspicious() {
    // one address, three transactions spread over 450 ms: size 2 + timing 3 = 0.5, not above 0.5
    let transactions = vec![
        create_test_transaction("solo", BASE_TIME_MS, 0),
        create_test_transaction("solo", BASE_TIME_MS + 200, 0),
        create_test_transaction("solo", BASE_TIME_MS + 450, 0),
    ];
    let clusters = detect_suspicious_clusters(&transactions, BUNDLE_TIME_WINDOW_MS, MIN_BUNDLE_SIZE);
    assert!(clusters.is_empty());
    assert_eq!(cluster_suspicion_tenths(3, 1, 450, MIN_BUNDLE_SIZE, BUNDLE_TIME_WINDOW_MS), 5);
    assert_eq!(cluster_suspicion_tenths(12, 3, 50, MIN_BUNDLE_SIZE, BUNDLE_TIME_WINDOW_MS), 10);
}

#[test]
fn test_bundle_detection() {
    let transactions = vec![
        create_test_transaction("addr1", BASE_TIME_MS, 50),
        create_test_transaction("addr2", BASE_TIME_MS + 100, 150),
        create_test_transaction("addr3", BASE_TIME_MS + 200, 250),
        create_test_transaction("addr4", BASE_TIME_MS + 300, 350),
    ];

    let bundles = find_bundles(&transactions, BUNDLE_TIME_WINDOW_MS, MIN_BUNDLE_SIZE);
    assert!(!bundles.is_empty());
    assert!(bundles[0].is_coordinated);
}

#[test]
fn test_bundles_windows_and_counts() {
    // out of order on purpose; two bursts separated by a gap
    let transactions = vec![
        create_test_transaction("x", BASE_TIME_MS + 2_000, 0),
        create_test_transaction("a", BASE_TIME_MS, 0),
        create_test_transaction("b", BASE_TIME_MS + 100, 0),
        create_test_transaction("x", BASE_TIME_MS + 2_100, 0),
        create_test_transaction("a", BASE_TIME_MS + 600, 0),
        create_test_transaction("c", BASE_TIME_MS + 400, 0),
        create_test_transaction("x", BASE_TIME_MS + 2_300, 0),
    ];
    let order = order_by_time(&transactions);
    assert_eq!(order, vec![1, 2, 5, 4, 0, 3, 6]);

    let bundles = find_bundles(&transactions, BUNDLE_TIME_WINDOW_MS, MIN_BUNDLE_SIZE);
    assert_eq!(bundles.len(), 2);
    assert_eq!(bundles[0].id, 0);
    assert_eq!(bundles[0].transaction_indices, vec![1, 2, 5]);
    assert_eq!(bundles[0].unique_addresses, vec!["a".to_string(), "b".to_string(), "c".to_string()]);
    assert_eq!(bundles[0].time_window_ms, 400);
    assert!(bundles[0].is_coordinated);
    assert_eq!(bundles[1].id, 1);
    assert_eq!(bundles[1].transaction_indices, vec![0, 3, 6]);
    assert_eq!(bundles[1].time_window_ms, 300);
    assert!(!bundles[1].is_coordinated);

    let counts = detect_bundles(&transactions, BUNDLE_TIME_WINDOW_MS, MIN_BUNDLE_SIZE);
    assert_eq!(counts.bundle_count, 2);
    assert_eq!(counts.bundled_transaction_count, 6);
    assert_eq!(counts.max_bundle_size, 3);
    assert_eq!(counts.coordinated_bundle_count, 1);
}

#[test]
fn test_bundles_need_minimum_transactions() {
    let transactions = vec![
        create_test_transaction("a", BASE_TIME_MS, 0),
        create_test_transaction("b", BASE_TIME_MS + 1, 0),
    ];
    assert!(find_bundles(&transactions, BUNDLE_TIME_WINDOW_MS, MIN_BUNDLE_SIZE).is_empty());
    let counts = detect_bundles(&Vec::new(), BUNDLE_TIME_WINDOW_MS, MIN_BUNDLE_SIZE);
    assert_eq!(counts.bundle_count, 0);
    assert_eq!(counts.bundled_transaction_count, 0);
    assert_eq!(counts.max_bundle_size, 0);
}
