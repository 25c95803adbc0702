use membench::profile::{CommandType, Event, Flags};
use membench::record::{Anonymizer, ProfileWriter};
use membench::replay::connection_task::{ConnectionTask, TaskAction, TaskEvent};
use membench::replay::reader_task::DispatchAction;
use membench::replay::stats_aggregator::{AggregatorAction, AggregatorEvent, StatsAggregator};
use membench::replay::{Dispatcher, LoopMode, ProfileReader, ProfileStreamer, ProtocolMode};
use siphasher::sip::SipHasher13;
use std::collections::{HashMap, VecDeque};
use std::hash::{Hash, Hasher};

#[test]
fn round_trip_one_event() {
    let event = Event {
        timestamp: 12345,
        conn_id: 7,
        cmd_type: CommandType::Get,
        key_hash: 0xdeadbeef,
        key_size: 42,
        value_size: None,
        flags: Flags::empty(),
    };
    let mut writer = ProfileWriter::new();
    writer.write_event(&event).unwrap();
    let file = writer.finish();

    let reader = ProfileReader::new(&file).unwrap();
    assert_eq!(reader.events().len(), 1);
    let back = &reader.events()[0];
    assert_eq!(back.timestamp, 12345);
    assert_eq!(back.conn_id, 7);
    assert_eq!(back.cmd_type, CommandType::Get);
    assert_eq!(back.key_hash, 0xdeadbeef);
    assert_eq!(back.key_size, 42);
    assert_eq!(back.value_size, None);
    assert_eq!(back.flags, Flags::empty());
    assert_eq!(reader.metadata().total_events, 1);
    assert_eq!(reader.metadata().unique_connections, 1);
    assert_eq!(reader.metadata().time_range, (12345, 12345));
    assert!(reader.metadata().is_consistent());
}

#[test]
fn anonymizer_stability() {
    let a = Anonymizer::new(12345);
    assert_eq!(a.hash_key(b"testkey"), Anonymizer::new(12345).hash_key(b"testkey"));
    assert_ne!(a.hash_key(b"k1"), a.hash_key(b"k2"));
    assert_ne!(a.hash_key(b"x"), Anonymizer::new(54321).hash_key(b"x"));
    assert_ne!(a.hash_key(b""), a.hash_key(b"\0"));
}

#[test]
fn anonymizer_is_siphash_keyed_with_the_salt_twice() {
    for salt in [0u64, 1, 12345, 0x0123456789abcdef, u64::MAX] {
        for key in [&b""[..], b"k", b"testkey", b"a key of more than sixteen bytes"] {
            // The message is the length in eight bytes and then the key.
            let mut message = (key.len() as u64).to_le_bytes().to_vec();
            message.extend_from_slice(key);
            let mut hasher = SipHasher13::new_with_keys(salt, salt);
            hasher.write(&message);
            assert_eq!(Anonymizer::new(salt).hash_key(key), hasher.finish());
            // Where a `usize` has eight bytes, that is what the standard
            // hashing of a byte slice feeds to the hasher.
            if std::mem::size_of::<usize>() == 8 {
                let mut hasher = SipHasher13::new_with_keys(salt, salt);
                key.hash(&mut hasher);
                assert_eq!(Anonymizer::new(salt).hash_key(key), hasher.finish());
            }
        }
    }
}

#[test]
fn the_length_in_front_keeps_a_key_apart_from_its_continuation() {
    let anonymizer = Anonymizer::new(12345);
    // Hashed without its length, the key "" would be the start of every key.
    let mut bare = SipHasher13::new_with_keys(12345, 12345);
    bare.write(b"testkey");
    assert_ne!(anonymizer.hash_key(b"testkey"), bare.finish());
    assert_ne!(anonymizer.hash_key(b""), anonymizer.hash_key(b"\x00"));
}

#[test]
fn round_trip_of_a_thousand_events_is_field_exact() {
    let events: Vec<Event> = (0..1000u64)
        .map(|i| {
            let cmd_type = match i % 4 {
                0 => CommandType::Get,
                1 => CommandType::Store,
                2 => CommandType::Delete,
                _ => CommandType::Noop,
            };
            Event {
                timestamp: i * i,
                conn_id: (i % 13) as u16,
                cmd_type,
                flags: Flags::from_bits((i % 4) as u8),
                key_hash: i.wrapping_mul(0x9e3779b97f4a7c15),
                key_size: if cmd_type == CommandType::Noop { 0 } else { (i % 250) as u32 + 1 },
                value_size: if cmd_type == CommandType::Store { Some(i as u32 + 1) } else { None },
            }
        })
        .collect();
    let mut writer = ProfileWriter::new();
    for e in &events {
        assert!(e.is_valid());
        writer.write_event(e).unwrap();
    }
    let file = writer.finish();
    let reader = ProfileReader::new(&file).unwrap();
    assert_eq!(reader.events().len(), events.len());
    for (a, b) in events.iter().zip(reader.events()) {
        assert_eq!(a.timestamp, b.timestamp);
        assert_eq!(a.conn_id, b.conn_id);
        assert_eq!(a.cmd_type, b.cmd_type);
        assert_eq!(a.flags, b.flags);
        assert_eq!(a.key_hash, b.key_hash);
        assert_eq!(a.key_size, b.key_size);
        assert_eq!(a.value_size, b.value_size);
    }
    let m = reader.metadata();
    assert_eq!(m.total_events, 1000);
    assert_eq!(m.unique_connections, 13);
    assert_eq!(m.command_distribution.sum(), 1000);
    assert_eq!(m.command_distribution.get(&CommandType::Get), Some(&250));
    assert_eq!(m.time_range, (0, 999 * 999));

    // The streamer hands out the same events.
    let mut streamer = ProfileStreamer::new(file).unwrap();
    for e in &events {
        assert_eq!(streamer.next_event().unwrap().unwrap().timestamp, e.timestamp);
    }
    assert!(streamer.next_event().unwrap().is_none());
}

/// A replay without sockets and clocks: the dispatcher feeds bounded queues,
/// each connection task drains its queue against a target that answers at
/// once, and the aggregator merges the snapshots.
struct Replay {
    dispatcher: Dispatcher,
    queues: HashMap<u16, VecDeque<Event>>,
    tasks: HashMap<u16, ConnectionTask>,
    aggregator: StatsAggregator,
    capacity: usize,
    in_hand: Option<Event>,
    written: Vec<(u16, Vec<u8>)>,
    last_snapshots_total: u64,
    reported_total: u64,
}

impl Replay {
    fn new(file: Vec<u8>, mode: LoopMode, capacity: usize) -> Replay {
        let reader = ProfileReader::new(&file).unwrap();
        let connections = reader.connection_ids();
        let streamer = ProfileStreamer::new(file).unwrap();
        let mut queues = HashMap::new();
        let mut tasks = HashMap::new();
        for c in &connections {
            queues.insert(*c, VecDeque::new());
            tasks.insert(*c, ConnectionTask::new(*c, ProtocolMode::Meta));
        }
        Replay {
            dispatcher: Dispatcher::new(streamer, &connections, mode),
            queues,
            tasks,
            aggregator: StatsAggregator::new(),
            capacity,
            in_hand: None,
            written: Vec::new(),
            last_snapshots_total: 0,
            reported_total: 0,
        }
    }

    fn in_flight(&self) -> usize {
        self.queues.values().map(|q| q.len()).sum()
    }

    /// One step of the dispatcher; `false` once it has finished.
    fn dispatch(&mut self, cancelled: bool) -> bool {
        if let Some(e) = self.in_hand {
            if cancelled {
                self.in_hand = None;
            } else {
                let queue = self.queues.get_mut(&e.conn_id).unwrap();
                if queue.len() >= self.capacity {
                    return true; // blocked on a full queue
                }
                queue.push_back(e);
                self.in_hand = None;
            }
        }
        match self.dispatcher.poll(cancelled).unwrap() {
            DispatchAction::Send(e) => {
                self.in_hand = Some(e);
                true
            }
            DispatchAction::Drop(_) => true,
            DispatchAction::Rewind => true,
            DispatchAction::Finished => false,
        }
    }

    fn merge(&mut self, snapshot: membench::replay::stats::StatsSnapshot) {
        assert!(self.aggregator.has_room_for(&snapshot));
        self.aggregator.step(AggregatorEvent::Snapshot(snapshot));
    }

    /// Lets the task of `conn` handle one event of its queue.
    fn serve(&mut self, conn: u16) -> bool {
        let event = match self.queues.get_mut(&conn).unwrap().pop_front() {
            Some(e) => e,
            None => return false,
        };
        let task = self.tasks.get_mut(&conn).unwrap();
        match task.step(TaskEvent::Received(event)) {
            TaskAction::Write(bytes) => self.written.push((conn, bytes)),
            _ => panic!("an idle task writes what it receives"),
        }
        assert!(matches!(task.step(TaskEvent::Tick), TaskAction::Rejected));
        assert!(matches!(task.step(TaskEvent::Cancelled), TaskAction::Rejected));
        assert!(matches!(task.step(TaskEvent::Written), TaskAction::Read));
        assert!(matches!(task.step(TaskEvent::Responded(100 + conn as u64)), TaskAction::Wait));
        true
    }

    /// Ends every task as `how` says and merges the last snapshots.
    fn end_tasks(&mut self, how: TaskEvent) {
        let conns: Vec<u16> = self.tasks.keys().copied().collect();
        for conn in conns {
            let action = self.tasks.get_mut(&conn).unwrap().step(how);
            match action {
                TaskAction::Exit(snapshot, error) => {
                    assert!(error.is_none());
                    self.last_snapshots_total += snapshot.success_counts.sum() as u64;
                    self.merge(snapshot);
                }
                _ => panic!("a waiting task ends when told to"),
            }
            assert!(self.tasks[&conn].is_done());
        }
    }
}

fn events_for(connections: u16, count: u64) -> Vec<u8> {
    let mut writer = ProfileWriter::new();
    for i in 0..count {
        let store = i % 3 == 0;
        writer
            .write_event(&Event {
                timestamp: i,
                conn_id: (i % connections as u64) as u16,
                cmd_type: if store { CommandType::Store } else { CommandType::Get },
                flags: Flags::empty(),
                key_hash: i,
                key_size: 12,
                value_size: if store { Some(10) } else { None },
            })
            .unwrap();
    }
    writer.finish()
}

#[test]
fn dispatcher_ordering_end_to_end() {
    let mut writer = ProfileWriter::new();
    for (conn, cmd, size) in [
        (1u16, CommandType::Get, None),
        (2, CommandType::Get, None),
        (1, CommandType::Store, Some(10)),
    ] {
        writer
            .write_event(&Event {
                timestamp: 0,
                conn_id: conn,
                cmd_type: cmd,
                flags: Flags::empty(),
                key_hash: 0xabcdef,
                key_size: 4,
                value_size: size,
            })
            .unwrap();
    }
    let mut replay = Replay::new(writer.finish(), LoopMode::Once, 1000);
    while replay.dispatch(false) {}
    for conn in [1u16, 2] {
        while replay.serve(conn) {}
    }
    replay.end_tasks(TaskEvent::QueueClosed);
    // What the target saw.
    let seen_by = |conn: u16| -> Vec<Vec<u8>> {
        replay.written.iter().filter(|w| w.0 == conn).map(|w| w.1.clone()).collect()
    };
    assert_eq!(seen_by(1), vec![b"mg 0000 v\r\n".to_vec(), b"ms 0000 10\r\nxxxxxxxxxx\r\n".to_vec()]);
    assert_eq!(seen_by(2), vec![b"mg 0000 v\r\n".to_vec()]);
    assert_eq!(replay.written.len(), 3);
    assert_eq!(replay.aggregator.step(AggregatorEvent::Closed), AggregatorAction::Return);
    assert_eq!(replay.aggregator.finish().total_operations(), 3);
}

#[test]
fn backpressure_with_a_stalled_target() {
    let connections = 4u16;
    let capacity = 10usize;
    let mut replay = Replay::new(events_for(connections, 500), LoopMode::Infinite, capacity);
    // Nobody serves the queues: the dispatcher fills them and blocks.
    for _ in 0..5000 {
        assert!(replay.dispatch(false));
        assert!(replay.in_flight() <= connections as usize * capacity);
    }
    assert_eq!(replay.in_flight(), connections as usize * capacity);
    assert!(replay.in_hand.is_some());
}

#[test]
fn cancellation_drain() {
    let connections = 8u16;
    let mut replay = Replay::new(events_for(connections, 10_000), LoopMode::Infinite, 1000);
    // Replay for a while: the dispatcher and the tasks take turns.
    let mut snapshots_total = 0u64;
    for round in 0..30_000u32 {
        assert!(replay.dispatch(false));
        let conn = (round % connections as u32) as u16;
        replay.serve(conn);
        if round % 5000 == 4999 {
            // A tick: every task hands out a snapshot.
            for c in 0..connections {
                match replay.tasks.get_mut(&c).unwrap().step(TaskEvent::Tick) {
                    TaskAction::Report(s) => {
                        snapshots_total += s.success_counts.sum() as u64;
                        replay.merge(s);
                    }
                    _ => panic!("a waiting task reports on a tick"),
                }
            }
            assert_eq!(replay.aggregator.step(AggregatorEvent::Tick(1)), AggregatorAction::Wait);
            match replay.aggregator.step(AggregatorEvent::Tick(5)) {
                AggregatorAction::Report { elapsed_secs, total_operations } => {
                    assert_eq!(elapsed_secs, 5);
                    assert_eq!(total_operations, snapshots_total);
                    replay.reported_total = total_operations;
                }
                other => panic!("no report after a full period: {:?}", other),
            }
        }
    }
    assert!(snapshots_total > 0);
    // Cancellation fires.
    assert!(!replay.dispatch(true));
    assert!(!replay.dispatch(false));
    assert_eq!(replay.aggregator.step(AggregatorEvent::Cancelled), AggregatorAction::Drain);
    assert_eq!(replay.aggregator.step(AggregatorEvent::Tick(60)), AggregatorAction::Drain);
    // Every task returns, with a last snapshot.
    replay.end_tasks(TaskEvent::Cancelled);
    assert_eq!(replay.aggregator.step(AggregatorEvent::Closed), AggregatorAction::Return);
    let served = replay.written.len() as u64;
    let stats = replay.aggregator.finish();
    assert_eq!(stats.total_operations(), snapshots_total + replay.last_snapshots_total);
    assert_eq!(stats.total_operations(), served);
    // Percentiles are defined for each observed command.
    for cmd in [CommandType::Get, CommandType::Store] {
        assert!(stats.operation_count(cmd) > 0);
        let p50 = stats.percentile(cmd, 50).unwrap();
        let p99 = stats.percentile(cmd, 99).unwrap();
        assert!(100 <= p50 && p50 <= p99 && p99 < 100 + connections as u64);
    }
    assert!(stats.percentile(CommandType::Delete, 50).is_none());
    assert!(stats.percentile(CommandType::Noop, 50).is_none());
}
