use membench::profile::{CommandType, Event, Flags};
use membench::replay::DistributionAnalyzer;

#[test]
fn test_analyze_command_distribution() {
    let events = vec![
        Event {
            timestamp: 1000,
            conn_id: 1,
            cmd_type: CommandType::Get,
            key_hash: 0x1,
            key_size: 10,
            value_size: None,
            flags: Flags::empty(),
        },
        Event {
            timestamp: 2000,
            conn_id: 1,
            cmd_type: CommandType::Store,
            key_hash: 0x2,
            key_size: 20,
            value_size: Some(50),
            flags: Flags::empty(),
        },
    ];

    let analysis = DistributionAnalyzer::analyze(&events);

    assert_eq!(analysis.total_events, 2);
    assert_eq!(analysis.command_distribution.get(&CommandType::Get), Some(&1));
    assert_eq!(analysis.command_distribution.get(&CommandType::Store), Some(&1));
}

#[test]
fn test_analyze_size_distributions() {
    let events = vec![
        Event {
            timestamp: 1000,
            conn_id: 1,
            cmd_type: CommandType::Get,
            key_hash: 0x1,
            key_size: 10,
            value_size: None,
            flags: Flags::empty(),
        },
        Event {
            timestamp: 2000,
            conn_id: 1,
            cmd_type: CommandType::Store,
            key_hash: 0x2,
            key_size: 20,
            value_size: Some(50),
            flags: Flags::empty(),
        },
    ];

    let analysis = DistributionAnalyzer::analyze(&events);

    // Key size distribution should have both 10 and 20
    assert!(analysis.key_size_distribution.iter().any(|(size, count)| *size == 10 && *count == 1));
    assert!(analysis.key_size_distribution.iter().any(|(size, count)| *size == 20 && *count == 1));

    // Value size distribution should have 50
    assert!(analysis.value_size_distribution.iter().any(|(size, count)| *size == 50 && *count == 1));
}

#[test]
fn analysis_tallies_each_size_once_with_its_count() {
    let sizes = [7u32, 3, 7, 7, 9, 3];
    let events: Vec<Event> = sizes
        .iter()
        .enumerate()
        .map(|(i, s)| Event {
            timestamp: i as u64,
            conn_id: 0,
            cmd_type: if i % 2 == 0 { CommandType::Store } else { CommandType::Delete },
            key_hash: 0,
            key_size: *s,
            value_size: if i % 2 == 0 { Some(100 + *s) } else { None },
            flags: Flags::empty(),
        })
        .collect();
    let analysis = DistributionAnalyzer::analyze(&events);
    assert_eq!(analysis.total_events, 6);
    // The order is that of a walk over a hash map: compare in sorted order.
    let mut key_sizes = analysis.key_size_distribution.clone();
    key_sizes.sort();
    assert_eq!(key_sizes, vec![(3, 2), (7, 3), (9, 1)]);
    let mut value_sizes = analysis.value_size_distribution.clone();
    value_sizes.sort();
    assert_eq!(value_sizes, vec![(107, 2), (109, 1)]);
    assert_eq!(analysis.command_distribution.get(&CommandType::Store), Some(&3));
    assert_eq!(analysis.command_distribution.get(&CommandType::Delete), Some(&3));
    assert_eq!(analysis.command_distribution.get(&CommandType::Get), None);
    assert!(!analysis.command_distribution.contains_key(&CommandType::Noop));

    let empty = DistributionAnalyzer::analyze(&[]);
    assert_eq!(empty.total_events, 0);
    assert!(empty.key_size_distribution.is_empty());
    assert!(empty.value_size_distribution.is_empty());
}
