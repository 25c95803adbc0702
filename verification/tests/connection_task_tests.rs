use membench::profile::{CommandType, Event, Flags};
use membench::replay::connection_task::{ConnectionTask, TaskAction, TaskEvent};
use membench::replay::stats::ErrorType;
use membench::replay::stats_aggregator::{
    AggregatorAction, AggregatorEvent, StatsAggregator, REPORT_PERIOD_SECS,
};
use membench::replay::ProtocolMode;

fn get(hash: u64) -> Event {
    Event {
        timestamp: 0,
        conn_id: 3,
        cmd_type: CommandType::Get,
        flags: Flags::empty(),
        key_hash: hash,
        key_size: 2,
        value_size: None,
    }
}

#[test]
fn task_issues_one_command_at_a_time() {
    let mut task = ConnectionTask::new(3, ProtocolMode::Ascii);
    assert!(task.can_count());
    assert!(!task.is_done());
    match task.step(TaskEvent::Received(get(0xab00000000000000))) {
        TaskAction::Write(bytes) => assert_eq!(bytes, b"get ab\r\n"),
        _ => panic!("expected a write"),
    }
    // While the request is written nothing else is taken in.
    for event in [
        TaskEvent::Received(get(1)),
        TaskEvent::Tick,
        TaskEvent::Cancelled,
        TaskEvent::QueueClosed,
        TaskEvent::ReportFailed,
        TaskEvent::Responded(5),
        TaskEvent::ReadFailed,
    ] {
        assert!(matches!(task.step(event), TaskAction::Rejected));
    }
    assert!(matches!(task.step(TaskEvent::Written), TaskAction::Read));
    for event in [
        TaskEvent::Received(get(1)),
        TaskEvent::Tick,
        TaskEvent::Cancelled,
        TaskEvent::Written,
        TaskEvent::WriteFailed,
    ] {
        assert!(matches!(task.step(event), TaskAction::Rejected));
    }
    assert!(matches!(task.step(TaskEvent::Responded(250)), TaskAction::Wait));
    // Idle again: outcomes of writes and reads are not awaited.
    for event in [
        TaskEvent::Written,
        TaskEvent::WriteFailed,
        TaskEvent::Responded(1),
        TaskEvent::ReadFailed,
    ] {
        assert!(matches!(task.step(event), TaskAction::Rejected));
    }
    match task.step(TaskEvent::Tick) {
        TaskAction::Report(s) => {
            assert_eq!(s.connection_id, 3);
            assert_eq!(s.success_counts.get(&CommandType::Get), Some(&1));
            assert_eq!(s.error_counts.sum(), 0);
            assert!(s.histograms.contains_key(&CommandType::Get));
            assert!(!s.histograms.contains_key(&CommandType::Store));
        }
        _ => panic!("expected a report"),
    }
    // The statistics start over after a snapshot.
    match task.step(TaskEvent::QueueClosed) {
        TaskAction::Exit(s, error) => {
            assert!(error.is_none());
            assert_eq!(s.success_counts.sum(), 0);
            assert!(!s.histograms.contains_key(&CommandType::Get));
        }
        _ => panic!("expected the end"),
    }
    assert!(task.is_done());
    assert!(matches!(task.step(TaskEvent::Tick), TaskAction::Rejected));
    assert!(matches!(task.step(TaskEvent::Received(get(1))), TaskAction::Rejected));
}

#[test]
fn task_ends_on_a_failed_write_with_a_connection_error() {
    let mut task = ConnectionTask::new(1, ProtocolMode::Meta);
    assert!(matches!(task.step(TaskEvent::Received(get(1))), TaskAction::Write(_)));
    assert!(matches!(task.step(TaskEvent::Written), TaskAction::Read));
    assert!(matches!(task.step(TaskEvent::Responded(9)), TaskAction::Wait));
    assert!(matches!(task.step(TaskEvent::Received(get(2))), TaskAction::Write(_)));
    match task.step(TaskEvent::WriteFailed) {
        TaskAction::Exit(s, error) => {
            assert_eq!(error, Some(ErrorType::ConnectionError));
            assert_eq!(s.error_counts.get(&ErrorType::ConnectionError), Some(&1));
            assert_eq!(s.error_counts.sum(), 1);
            assert_eq!(s.success_counts.sum(), 1);
        }
        _ => panic!("expected the end"),
    }
    assert!(task.is_done());
}

#[test]
fn task_ends_on_a_failed_read_with_a_protocol_error() {
    let mut task = ConnectionTask::new(1, ProtocolMode::Meta);
    assert!(matches!(task.step(TaskEvent::Received(get(1))), TaskAction::Write(_)));
    assert!(matches!(task.step(TaskEvent::Written), TaskAction::Read));
    match task.step(TaskEvent::ReadFailed) {
        TaskAction::Exit(s, error) => {
            assert_eq!(error, Some(ErrorType::ProtocolError));
            assert_eq!(s.error_counts.get(&ErrorType::ProtocolError), Some(&1));
            assert_eq!(s.success_counts.sum(), 0);
        }
        _ => panic!("expected the end"),
    }
    assert!(task.is_done());
}

#[test]
fn task_ends_when_told_to() {
    for how in [TaskEvent::Cancelled, TaskEvent::QueueClosed, TaskEvent::ReportFailed] {
        let mut task = ConnectionTask::new(1, ProtocolMode::Meta);
        match task.step(how) {
            TaskAction::Exit(s, error) => {
                assert!(error.is_none());
                assert_eq!(s.connection_id, 1);
                assert_eq!(s.success_counts.sum(), 0);
            }
            _ => panic!("expected the end"),
        }
        assert!(task.is_done());
    }
}

#[test]
fn aggregator_merges_until_the_last_snapshot() {
    let mut agg = StatsAggregator::new();
    let mut task = ConnectionTask::new(1, ProtocolMode::Meta);
    let mut snapshot = |n: u64| {
        for i in 0..n {
            assert!(matches!(task.step(TaskEvent::Received(get(i))), TaskAction::Write(_)));
            assert!(matches!(task.step(TaskEvent::Written), TaskAction::Read));
            assert!(matches!(task.step(TaskEvent::Responded(10 * (i + 1))), TaskAction::Wait));
        }
        match task.step(TaskEvent::Tick) {
            TaskAction::Report(s) => s,
            _ => panic!("expected a report"),
        }
    };
    assert_eq!(REPORT_PERIOD_SECS, 5);
    assert_eq!(agg.step(AggregatorEvent::Tick(0)), AggregatorAction::Wait);
    assert_eq!(agg.step(AggregatorEvent::Tick(4)), AggregatorAction::Wait);
    assert_eq!(
        agg.step(AggregatorEvent::Tick(5)),
        AggregatorAction::Report { elapsed_secs: 5, total_operations: 0 }
    );
    assert_eq!(agg.step(AggregatorEvent::Snapshot(snapshot(3))), AggregatorAction::Wait);
    assert_eq!(
        agg.step(AggregatorEvent::Tick(11)),
        AggregatorAction::Report { elapsed_secs: 11, total_operations: 3 }
    );
    assert_eq!(agg.statistics().total_operations(), 3);
    // Cancelled: the last snapshots are still merged.
    assert_eq!(agg.step(AggregatorEvent::Cancelled), AggregatorAction::Drain);
    assert_eq!(agg.step(AggregatorEvent::Tick(20)), AggregatorAction::Drain);
    assert_eq!(agg.step(AggregatorEvent::Snapshot(snapshot(4))), AggregatorAction::Drain);
    assert_eq!(agg.step(AggregatorEvent::Cancelled), AggregatorAction::Drain);
    assert_eq!(agg.step(AggregatorEvent::Closed), AggregatorAction::Return);
    // Done is done.
    assert_eq!(agg.step(AggregatorEvent::Tick(30)), AggregatorAction::Return);
    assert_eq!(agg.step(AggregatorEvent::Snapshot(snapshot(5))), AggregatorAction::Return);
    assert_eq!(agg.step(AggregatorEvent::Cancelled), AggregatorAction::Return);
    let stats = agg.finish();
    assert_eq!(stats.total_operations(), 7);
    assert_eq!(stats.operation_count(CommandType::Get), 7);
    assert_eq!(stats.percentile(CommandType::Get, 100), Some(40));
}
