use membench::profile::codec::ProfileError;
use membench::profile::{CommandType, Event, Flags};
use membench::record::ProfileWriter;
use membench::replay::reader_task::{DispatchAction, QUEUE_CAPACITY};
use membench::replay::{Dispatcher, LoopMode, ProfileStreamer};

fn event(conn_id: u16, cmd_type: CommandType, value_size: Option<u32>, timestamp: u64) -> Event {
    Event {
        timestamp,
        conn_id,
        cmd_type,
        flags: Flags::empty(),
        key_hash: timestamp,
        key_size: 8,
        value_size,
    }
}

fn profile(events: &[Event]) -> Vec<u8> {
    let mut writer = ProfileWriter::new();
    for e in events {
        writer.write_event(e).unwrap();
    }
    writer.finish()
}

fn dispatcher(file: Vec<u8>, connections: &[u16], mode: LoopMode) -> Dispatcher {
    Dispatcher::new(ProfileStreamer::new(file).unwrap(), connections, mode)
}

/// Runs the dispatcher to its end and lists what it handed out, a `None` for
/// each rewind. What it drops is left out.
fn run(d: &mut Dispatcher) -> Vec<Option<(u16, u64)>> {
    let mut out = Vec::new();
    loop {
        match d.poll(false).unwrap() {
            DispatchAction::Send(e) => out.push(Some((e.conn_id, e.timestamp))),
            DispatchAction::Drop(_) => {}
            DispatchAction::Rewind => out.push(None),
            DispatchAction::Finished => return out,
        }
        assert!(out.len() < 10_000);
    }
}

#[test]
fn dispatcher_ordering() {
    // [(c=1,Get), (c=2,Get), (c=1,Set,10)]
    let events = [
        event(1, CommandType::Get, None, 0),
        event(2, CommandType::Get, None, 1),
        event(1, CommandType::Store, Some(10), 2),
    ];
    let mut d = dispatcher(profile(&events), &[1, 2], LoopMode::Once);
    let mut seen_by_1: Vec<CommandType> = Vec::new();
    let mut seen_by_2: Vec<CommandType> = Vec::new();
    let mut total = 0;
    loop {
        match d.poll(false).unwrap() {
            DispatchAction::Send(e) => {
                total += 1;
                if e.conn_id == 1 {
                    seen_by_1.push(e.cmd_type);
                } else {
                    assert_eq!(e.conn_id, 2);
                    seen_by_2.push(e.cmd_type);
                }
            }
            DispatchAction::Drop(_) => panic!("every connection is known"),
            DispatchAction::Rewind => panic!("one pass only"),
            DispatchAction::Finished => break,
        }
    }
    assert_eq!(seen_by_1, vec![CommandType::Get, CommandType::Store]);
    assert_eq!(seen_by_2, vec![CommandType::Get]);
    assert_eq!(total, 3);
    // Once finished, the dispatcher stays finished.
    assert!(matches!(d.poll(false), Ok(DispatchAction::Finished)));
}

#[test]
fn dispatcher_keeps_profile_order_for_each_connection() {
    let events: Vec<Event> =
        (0..60u64).map(|i| event((i * 7 % 5) as u16, CommandType::Get, None, i)).collect();
    let mut d = dispatcher(profile(&events), &[0, 1, 2, 3, 4], LoopMode::Once);
    let sent: Vec<(u16, u64)> = run(&mut d).into_iter().map(|s| s.unwrap()).collect();
    assert_eq!(sent.len(), 60);
    for conn in 0..5u16 {
        let expected: Vec<u64> =
            events.iter().filter(|e| e.conn_id == conn).map(|e| e.timestamp).collect();
        let got: Vec<u64> = sent.iter().filter(|s| s.0 == conn).map(|s| s.1).collect();
        assert_eq!(got, expected);
    }
}

#[test]
fn dispatcher_drops_events_of_unknown_connections() {
    let events = [
        event(9, CommandType::Get, None, 0),
        event(1, CommandType::Get, None, 1),
        event(9, CommandType::Get, None, 2),
        event(9, CommandType::Get, None, 3),
        event(2, CommandType::Get, None, 4),
        event(9, CommandType::Get, None, 5),
    ];
    let mut d = dispatcher(profile(&events), &[1, 2], LoopMode::Once);
    assert_eq!(run(&mut d), vec![Some((1, 1)), Some((2, 4))]);
    // Each drop is told, for the log.
    let mut d = dispatcher(profile(&events), &[1, 2], LoopMode::Once);
    let mut dropped = Vec::new();
    loop {
        match d.poll(false).unwrap() {
            DispatchAction::Drop(e) => dropped.push((e.conn_id, e.timestamp)),
            DispatchAction::Finished => break,
            _ => {}
        }
    }
    assert_eq!(dropped, vec![(9, 0), (9, 2), (9, 3), (9, 5)]);
    // Nobody listens: the pass hands out nothing.
    let mut d = dispatcher(profile(&events), &[], LoopMode::Once);
    assert!(!d.has_connections());
    assert_eq!(run(&mut d), vec![]);
}

#[test]
fn dispatcher_honours_the_loop_mode() {
    let events = [event(1, CommandType::Get, None, 0), event(1, CommandType::Get, None, 1)];
    let once = vec![Some((1, 0)), Some((1, 1))];
    let mut d = dispatcher(profile(&events), &[1], LoopMode::Once);
    assert_eq!(run(&mut d), once);

    let mut d = dispatcher(profile(&events), &[1], LoopMode::Times(1));
    assert_eq!(run(&mut d), once);

    let mut d = dispatcher(profile(&events), &[1], LoopMode::Times(3));
    let thrice: Vec<Option<(u16, u64)>> = vec![
        Some((1, 0)), Some((1, 1)), None,
        Some((1, 0)), Some((1, 1)), None,
        Some((1, 0)), Some((1, 1)),
    ];
    assert_eq!(run(&mut d), thrice);

    let mut d = dispatcher(profile(&events), &[1], LoopMode::Times(0));
    assert_eq!(run(&mut d), vec![]);

    // Without end: still going after many passes.
    let mut d = dispatcher(profile(&events), &[1], LoopMode::Infinite);
    let mut sends = 0;
    let mut rewinds = 0;
    for _ in 0..3000 {
        match d.poll(false).unwrap() {
            DispatchAction::Send(_) => sends += 1,
            DispatchAction::Drop(_) => panic!("every connection is known"),
            DispatchAction::Rewind => rewinds += 1,
            DispatchAction::Finished => panic!("an endless replay ended"),
        }
    }
    assert_eq!(sends, 2000);
    assert_eq!(rewinds, 1000);
    // Cancellation ends it at once.
    assert!(matches!(d.poll(true), Ok(DispatchAction::Finished)));
    assert!(matches!(d.poll(false), Ok(DispatchAction::Finished)));
}

#[test]
fn dispatcher_forgets_closed_connections() {
    let events = [
        event(1, CommandType::Get, None, 0),
        event(2, CommandType::Get, None, 1),
        event(1, CommandType::Get, None, 2),
        event(2, CommandType::Get, None, 3),
    ];
    let mut d = dispatcher(profile(&events), &[1, 2], LoopMode::Times(2));
    assert!(matches!(d.poll(false), Ok(DispatchAction::Send(e)) if e.timestamp == 0));
    // The queue of connection 1 turns out to be closed.
    d.connection_closed(1);
    assert!(d.has_connections());
    assert_eq!(run(&mut d), vec![Some((2, 1)), Some((2, 3)), None, Some((2, 1)), Some((2, 3))]);
}

#[test]
fn dispatcher_ends_on_a_broken_frame() {
    let events = [event(1, CommandType::Get, None, 0), event(1, CommandType::Get, None, 1)];
    let mut file = profile(&events);
    file[30] = 250; // the second frame reaches beyond the region
    let mut d = dispatcher(file, &[1], LoopMode::Infinite);
    assert!(matches!(d.poll(false), Ok(DispatchAction::Send(_))));
    assert!(matches!(d.poll(false), Err(ProfileError::EventExceedsBoundary)));
    assert!(matches!(d.poll(false), Ok(DispatchAction::Finished)));
}

#[test]
fn loop_modes_by_name() {
    assert_eq!(LoopMode::parse("once"), Some(LoopMode::Once));
    assert_eq!(LoopMode::parse("infinite"), Some(LoopMode::Infinite));
    assert_eq!(LoopMode::parse("times:1"), Some(LoopMode::Times(1)));
    assert_eq!(LoopMode::parse("times:250"), Some(LoopMode::Times(250)));
    assert_eq!(LoopMode::parse("times:+3"), Some(LoopMode::Times(3)));
    assert_eq!(LoopMode::parse("times:0"), None);
    assert_eq!(LoopMode::parse("times:"), None);
    assert_eq!(LoopMode::parse("times:x"), None);
    assert_eq!(LoopMode::parse("times:-1"), None);
    assert_eq!(LoopMode::parse("times:99999999999999999999999"), None);
    assert_eq!(LoopMode::parse("times"), None);
    assert_eq!(LoopMode::parse("Once"), None);
    assert_eq!(LoopMode::parse("forever"), None);
    assert_eq!(LoopMode::parse(""), None);
    assert_eq!(LoopMode::Once.passes(), Some(1));
    assert_eq!(LoopMode::Times(7).passes(), Some(7));
    assert_eq!(LoopMode::Infinite.passes(), None);
    assert_eq!(QUEUE_CAPACITY, 1000);
}
