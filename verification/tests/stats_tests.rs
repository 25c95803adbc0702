use membench::profile::CommandType;
use membench::replay::stats::{AggregatedStats, ConnectionStats, ErrorType};
use std::time::Duration;

#[test]
fn test_connection_stats_creation() {
    let stats = ConnectionStats::new(1);
    assert_eq!(stats.connection_id, 1);
}

#[test]
fn test_record_latency() {
    let mut stats = ConnectionStats::new(1);
    stats.record_success(CommandType::Get, Duration::from_micros(100));
    stats.record_success(CommandType::Get, Duration::from_micros(200));

    assert_eq!(stats.get_count(), 2);
}

#[test]
fn test_record_error() {
    let mut stats = ConnectionStats::new(1);
    stats.record_error(CommandType::Store, ErrorType::Timeout);

    assert_eq!(stats.get_error_count(), 1);
}

#[test]
fn test_snapshot_creation() {
    let mut stats = ConnectionStats::new(1);
    stats.record_success(CommandType::Get, Duration::from_micros(100));
    stats.record_success(CommandType::Store, Duration::from_micros(200));

    let snapshot = stats.snapshot();
    assert_eq!(snapshot.connection_id, 1);
}

#[test]
fn test_snapshot_reset() {
    let mut stats = ConnectionStats::new(1);
    stats.record_success(CommandType::Get, Duration::from_micros(100));

    let _snapshot = stats.snapshot();
    assert_eq!(stats.get_count(), 0); // Should be reset after snapshot
}

#[test]
fn test_aggregated_stats_merge() {
    let mut agg = AggregatedStats::new();

    let mut stats1 = ConnectionStats::new(1);
    stats1.record_success(CommandType::Get, Duration::from_micros(100));

    let mut stats2 = ConnectionStats::new(2);
    stats2.record_success(CommandType::Get, Duration::from_micros(200));

    agg.merge(stats1.snapshot());
    agg.merge(stats2.snapshot());

    assert_eq!(agg.total_operations(), 2);
}

#[test]
fn test_aggregated_percentiles() {
    let mut agg = AggregatedStats::new();

    let mut stats = ConnectionStats::new(1);
    for i in 1..=100 {
        stats.record_success(CommandType::Get, Duration::from_micros(i * 10));
    }

    agg.merge(stats.snapshot());

    let p50 = agg.percentile(CommandType::Get, 50);
    assert!(p50.is_some());
}

#[test]
fn percentiles_follow_the_samples() {
    let mut agg = AggregatedStats::new();
    let mut stats = ConnectionStats::new(1);
    for i in 1..=100u64 {
        stats.record_micros(CommandType::Get, i * 10);
    }
    agg.merge(stats.snapshot());
    // Below 2000 a histogram of three digits is exact.
    assert_eq!(agg.percentile(CommandType::Get, 50), Some(500));
    assert_eq!(agg.percentile(CommandType::Get, 95), Some(950));
    assert_eq!(agg.percentile(CommandType::Get, 99), Some(990));
    assert_eq!(agg.percentile(CommandType::Get, 100), Some(1000));
    assert_eq!(agg.percentile(CommandType::Store, 50), None);
    let summary = agg.operation_stats(CommandType::Get).unwrap();
    assert_eq!(summary.count, 100);
    assert_eq!(summary.p50_micros, 500);
    assert_eq!(summary.p95_micros, 950);
    assert_eq!(summary.p99_micros, 990);
    assert_eq!(summary.min_micros, 10);
    assert_eq!(summary.max_micros, 1000);
    assert!(agg.operation_stats(CommandType::Delete).is_none());
}

#[test]
fn merged_histograms_hold_the_samples_of_both() {
    let mut agg = AggregatedStats::new();
    let mut a = ConnectionStats::new(1);
    let mut b = ConnectionStats::new(2);
    a.record_micros(CommandType::Get, 100);
    a.record_micros(CommandType::Get, 300);
    b.record_micros(CommandType::Get, 200);
    b.record_micros(CommandType::Get, 1_000_000);
    b.record_micros(CommandType::Noop, 7);
    agg.merge(a.snapshot());
    agg.merge(b.snapshot());
    let get = agg.operation_stats(CommandType::Get).unwrap();
    assert_eq!(get.count, 4);
    assert_eq!(get.min_micros, 100);
    assert_eq!(get.p50_micros, 200);
    // Three significant digits at a million.
    assert!(get.max_micros >= 1_000_000 && get.max_micros < 1_001_000);
    let noop = agg.operation_stats(CommandType::Noop).unwrap();
    assert_eq!(noop.count, 1);
    assert_eq!(noop.min_micros, 7);
    assert_eq!(noop.max_micros, 7);
    assert_eq!(agg.operation_count(CommandType::Get), 4);
    assert_eq!(agg.total_operations(), 5);
}

#[test]
fn errors_are_counted_by_kind() {
    let mut agg = AggregatedStats::new();
    let mut a = ConnectionStats::new(1);
    a.record_error(CommandType::Get, ErrorType::Timeout);
    a.record_error(CommandType::Store, ErrorType::Timeout);
    a.record_error(CommandType::Get, ErrorType::ProtocolError);
    assert_eq!(a.get_error_count(), 3);
    assert_eq!(a.get_count(), 0);
    let snapshot = a.snapshot();
    assert_eq!(snapshot.error_counts.get(&ErrorType::Timeout), Some(&2));
    assert_eq!(snapshot.error_counts.get(&ErrorType::ProtocolError), Some(&1));
    assert_eq!(snapshot.error_counts.get(&ErrorType::ConnectionError), None);
    assert!(agg.can_merge(&snapshot));
    agg.merge(snapshot);
    assert_eq!(agg.error_count(ErrorType::Timeout), 2);
    assert_eq!(agg.error_count(ErrorType::ConnectionError), 0);
    assert_eq!(agg.error_count(ErrorType::ProtocolError), 1);
    assert_eq!(a.get_error_count(), 0);
    assert_eq!(ErrorType::Timeout.name(), "Timeout");
    assert_eq!(ErrorType::ConnectionError.name(), "ConnectionError");
    assert_eq!(ErrorType::ProtocolError.name(), "ProtocolError");
}

#[test]
fn a_latency_beyond_the_histogram_is_counted_and_not_recorded() {
    let mut stats = ConnectionStats::new(1);
    stats.record_success(CommandType::Get, Duration::from_micros(u64::MAX));
    stats.record_micros(CommandType::Get, u64::MAX);
    assert_eq!(stats.get_count(), 2);
    assert!(stats.can_record());
    let mut agg = AggregatedStats::new();
    agg.merge(stats.snapshot());
    assert_eq!(agg.total_operations(), 2);
    // The histogram is there and holds nothing.
    assert_eq!(agg.percentile(CommandType::Get, 50), Some(0));
}

#[test]
fn command_names_for_the_export() {
    assert_eq!(CommandType::Get.name(), "Get");
    assert_eq!(CommandType::Store.name(), "Set");
    assert_eq!(CommandType::Delete.name(), "Delete");
    assert_eq!(CommandType::Noop.name(), "Noop");
}

#[test]
fn snapshots_of_the_library_are_sound() {
    let mut stats = ConnectionStats::new(1);
    stats.record_micros(CommandType::Get, 5);
    stats.record_micros(CommandType::Get, u64::MAX);
    stats.record_error(CommandType::Get, ErrorType::Timeout);
    let mut snapshot = stats.snapshot();
    assert!(snapshot.is_sound());
    assert_eq!(snapshot.histograms.held(CommandType::Get), 1);
    assert_eq!(snapshot.histograms.held(CommandType::Store), 0);
    // A snapshot that counts fewer successes than it holds samples is not.
    snapshot.success_counts.insert(CommandType::Get, 0);
    assert!(!snapshot.is_sound());
    snapshot.success_counts.insert(CommandType::Get, 1);
    assert!(snapshot.is_sound());
    // Nor is one whose counts do not fit together in 64 bits.
    snapshot.success_counts.insert(CommandType::Noop, u64::MAX);
    assert!(!snapshot.is_sound());
    let agg = AggregatedStats::new();
    assert!(!agg.can_merge(&snapshot));
}

#[test]
fn every_latency_up_to_the_limit_is_recorded() {
    let limit: u64 = 0x3fff_ffff_ffff_ffff;
    let mut stats = ConnectionStats::new(1);
    for micros in [0, 1, 2047, 2048, 1 << 20, 1 << 40, limit - 1, limit] {
        stats.record_micros(CommandType::Get, micros);
    }
    // One above the limit is counted and not recorded.
    stats.record_micros(CommandType::Get, limit + 1);
    let snapshot = stats.snapshot();
    assert_eq!(snapshot.success_counts.get(&CommandType::Get), Some(&9));
    assert_eq!(snapshot.histograms.held(CommandType::Get), 8);
    assert!(snapshot.is_sound());
    // A histogram that has grown takes in one that has not, and the other
    // way round.
    let mut small = ConnectionStats::new(2);
    small.record_micros(CommandType::Get, 5);
    let mut agg = AggregatedStats::new();
    agg.merge(small.snapshot());
    agg.merge(snapshot);
    let mut again = ConnectionStats::new(3);
    again.record_micros(CommandType::Get, 7);
    agg.merge(again.snapshot());
    let summary = agg.operation_stats(CommandType::Get).unwrap();
    assert_eq!(summary.count, 11);
    assert_eq!(summary.min_micros, 0);
    assert!(summary.max_micros >= limit);
    assert_eq!(agg.percentile(CommandType::Get, 0), Some(0));
}

#[test]
fn percentiles_lie_between_the_lowest_and_the_highest_sample() {
    let mut stats = ConnectionStats::new(1);
    for i in 0..500u64 {
        stats.record_micros(CommandType::Store, 1_000 + i * i * 37);
    }
    let mut agg = AggregatedStats::new();
    agg.merge(stats.snapshot());
    let summary = agg.operation_stats(CommandType::Store).unwrap();
    for percent in 0..=255u8 {
        let v = agg.percentile(CommandType::Store, percent).unwrap();
        assert!(summary.min_micros <= v && v <= summary.max_micros, "percent {}", percent);
    }
    assert_eq!(agg.percentile(CommandType::Store, 0), Some(1_000));
    assert_eq!(agg.percentile(CommandType::Store, 100), Some(summary.max_micros));
}

#[test]
fn merging_in_either_order_gives_the_same_statistics() {
    let snapshots = |seed: u64| {
        let mut a = ConnectionStats::new(1);
        let mut b = ConnectionStats::new(2);
        for i in 0..200u64 {
            a.record_micros(CommandType::Get, seed + i * 13);
            b.record_micros(CommandType::Get, seed + 1_000_000 + i * 7_919);
            b.record_micros(CommandType::Delete, i);
        }
        a.record_error(CommandType::Get, ErrorType::Timeout);
        b.record_error(CommandType::Get, ErrorType::ProtocolError);
        (a.snapshot(), b.snapshot())
    };
    let (a, b) = snapshots(3);
    let mut one_way = AggregatedStats::new();
    one_way.merge(a);
    one_way.merge(b);
    let (a, b) = snapshots(3);
    let mut other_way = AggregatedStats::new();
    other_way.merge(b);
    other_way.merge(a);
    assert_eq!(one_way.total_operations(), 600);
    assert_eq!(one_way.total_operations(), other_way.total_operations());
    for cmd in [CommandType::Get, CommandType::Store, CommandType::Delete, CommandType::Noop] {
        assert_eq!(one_way.operation_stats(cmd), other_way.operation_stats(cmd));
        for percent in [0u8, 1, 50, 95, 99, 100] {
            assert_eq!(one_way.percentile(cmd, percent), other_way.percentile(cmd, percent));
        }
    }
    for kind in [ErrorType::Timeout, ErrorType::ConnectionError, ErrorType::ProtocolError] {
        assert_eq!(one_way.error_count(kind), other_way.error_count(kind));
    }
    // Errors do not count as operations.
    assert_eq!(one_way.error_count(ErrorType::Timeout), 1);
}

fn exported_json(agg: &AggregatedStats) -> Result<String, serde_json::Error> {
    let (operation_rows, error_rows) = agg.export_rows();
    let mut operations = serde_json::Map::new();
    for (cmd, summary) in operation_rows {
        let mut row = serde_json::Map::new();
        row.insert("count".to_string(), serde_json::Value::from(summary.count));
        row.insert("p50_micros".to_string(), serde_json::Value::from(summary.p50_micros));
        row.insert("p95_micros".to_string(), serde_json::Value::from(summary.p95_micros));
        row.insert("p99_micros".to_string(), serde_json::Value::from(summary.p99_micros));
        row.insert("min_micros".to_string(), serde_json::Value::from(summary.min_micros));
        row.insert("max_micros".to_string(), serde_json::Value::from(summary.max_micros));
        operations.insert(cmd.name().to_string(), serde_json::Value::Object(row));
    }
    let mut errors = serde_json::Map::new();
    for (kind, count) in error_rows {
        errors.insert(kind.name().to_string(), serde_json::Value::from(count));
    }
    let mut root = serde_json::Map::new();
    root.insert("total_operations".to_string(), serde_json::Value::from(agg.total_operations()));
    root.insert("operations".to_string(), serde_json::Value::Object(operations));
    root.insert("errors".to_string(), serde_json::Value::Object(errors));
    serde_json::to_string_pretty(&serde_json::Value::Object(root))
}

#[test]
fn test_json_export() {
    let mut agg = AggregatedStats::new();

    let mut stats = ConnectionStats::new(1);
    stats.record_success(CommandType::Get, Duration::from_micros(100));
    stats.record_success(CommandType::Store, Duration::from_micros(200));

    agg.merge(stats.snapshot());

    let json = exported_json(&agg).expect("Failed to serialize");
    assert!(json.contains("\"Get\""));
    assert!(json.contains("\"Set\""));
}

#[test]
fn export_lists_the_measured_commands_and_the_errors_that_occurred() {
    let mut agg = AggregatedStats::new();
    let mut stats = ConnectionStats::new(4);
    stats.record_success(CommandType::Get, Duration::from_micros(100));
    stats.record_success(CommandType::Get, Duration::from_micros(300));
    stats.record_success(CommandType::Noop, Duration::from_micros(7));
    stats.record_error(CommandType::Get, ErrorType::ProtocolError);
    stats.record_error(CommandType::Store, ErrorType::ProtocolError);
    agg.merge(stats.snapshot());

    let (operations, errors) = agg.export_rows();
    assert_eq!(operations.len(), 2);
    assert_eq!(operations[0].0, CommandType::Get);
    assert_eq!(operations[0].1.count, 2);
    assert_eq!(operations[0].1.min_micros, 100);
    assert_eq!(operations[0].1.max_micros, 300);
    assert_eq!(operations[1].0, CommandType::Noop);
    assert_eq!(operations[1].1.count, 1);
    assert_eq!(operations[1].1.p50_micros, 7);
    assert_eq!(errors, vec![(ErrorType::ProtocolError, 2)]);

    let json = exported_json(&agg).expect("Failed to serialize");
    assert!(json.contains("\"Noop\""));
    assert!(!json.contains("\"Set\""));
    assert!(!json.contains("\"Delete\""));
    assert!(json.contains("\"ProtocolError\""));
    assert!(!json.contains("\"Timeout\""));
}

#[test]
fn export_of_no_statistics_has_no_rows() {
    let agg = AggregatedStats::new();
    let (operations, errors) = agg.export_rows();
    assert!(operations.is_empty());
    assert!(errors.is_empty());
}

#[test]
fn percentiles_are_defined_for_the_observed_commands_and_no_others() {
    let mut stats = ConnectionStats::new(1);
    stats.record_micros(CommandType::Get, 5);
    // A latency beyond what a histogram holds still makes the command observed.
    stats.record_micros(CommandType::Delete, u64::MAX);
    let mut snapshot = stats.snapshot();
    assert!(snapshot.is_sound());
    // A success without a histogram does not go with the rest.
    snapshot.success_counts.insert(CommandType::Noop, 1);
    assert!(!snapshot.is_sound());
    snapshot.success_counts.insert(CommandType::Noop, 0);
    assert!(snapshot.is_sound());

    let mut agg = AggregatedStats::new();
    agg.merge(snapshot);
    for cmd in [CommandType::Get, CommandType::Store, CommandType::Delete, CommandType::Noop] {
        let observed = agg.operation_count(cmd) > 0;
        assert_eq!(agg.percentile(cmd, 50).is_some(), observed);
        assert_eq!(agg.percentile(cmd, 99).is_some(), observed);
        assert_eq!(agg.operation_stats(cmd).is_some(), observed);
    }
    assert_eq!(agg.operation_count(CommandType::Get), 1);
    assert_eq!(agg.operation_count(CommandType::Delete), 1);
    assert_eq!(agg.operation_count(CommandType::Store), 0);
    assert_eq!(agg.export_rows().0.len(), 2);
}
