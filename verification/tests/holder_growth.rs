use h_5n1p3r::holder_growth::{
    detect_flattening, growth_span, growth_steps, should_record_snapshot, take_snapshot, Flattening,
    GrowthStep, HolderSnapshot,
};

const BASE_TIME: u64 = 1_000_000;

fn snap(offset: u64, holders: usize) -> HolderSnapshot {
    HolderSnapshot { timestamp: BASE_TIME + offset, holder_count: holders, age_seconds: offset }
}

#[test]
fn test_snapshot_schedule() {
    assert!(should_record_snapshot(None, BASE_TIME, 3));
    assert!(!should_record_snapshot(Some(BASE_TIME), BASE_TIME + 2, 3));
    assert!(should_record_snapshot(Some(BASE_TIME), BASE_TIME + 3, 3));
    let s = take_snapshot(BASE_TIME + 30, 42, BASE_TIME);
    assert_eq!(s, HolderSnapshot { timestamp: BASE_TIME + 30, holder_count: 42, age_seconds: 30 });
    assert_eq!(take_snapshot(5, 1, 10).age_seconds, 0);
}

#[test]
fn test_growth_span_and_steps() {
    let snapshots = vec![snap(0, 10), snap(3, 15), snap(3, 18), snap(9, 12)];
    assert_eq!(growth_span(&snapshots), Some((2, 9)));
    assert_eq!(growth_span(&vec![snap(0, 10)]), None);
    assert_eq!(growth_span(&vec![snap(4, 10), snap(4, 20)]), None);
    assert_eq!(
        growth_steps(&snapshots),
        vec![
            GrowthStep { start_holders: 10, end_holders: 15, holder_diff: 5, duration_secs: 3 },
            GrowthStep { start_holders: 18, end_holders: 12, holder_diff: -6, duration_secs: 6 },
        ]
    );
}

#[test]
fn test_flattening_detection() {
    // flat from t=3 to t=21 (18 s), then a jump, then flat to the end for 9 s
    let snapshots = vec![
        snap(0, 10),
        snap(3, 30),
        snap(9, 31),
        snap(15, 33),
        snap(21, 34),
        snap(24, 60),
        snap(30, 61),
        snap(33, 62),
    ];
    assert_eq!(
        detect_flattening(&snapshots, 5, 15),
        vec![Flattening { holder_count: 34, duration_secs: 18, timestamp: BASE_TIME + 3 }]
    );
    assert_eq!(
        detect_flattening(&snapshots, 5, 9),
        vec![
            Flattening { holder_count: 34, duration_secs: 18, timestamp: BASE_TIME + 3 },
            Flattening { holder_count: 62, duration_secs: 9, timestamp: BASE_TIME + 24 },
        ]
    );
}

#[test]
fn test_flattening_to_the_end() {
    let snapshots = vec![snap(0, 100), snap(10, 100), snap(20, 101)];
    assert_eq!(
        detect_flattening(&snapshots, 5, 15),
        vec![Flattening { holder_count: 101, duration_secs: 20, timestamp: BASE_TIME }]
    );
    assert!(detect_flattening(&vec![snap(0, 1)], 5, 15).is_empty());
}
