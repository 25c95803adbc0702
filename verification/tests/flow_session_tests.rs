use membench::profile::{CommandType, Event};
use membench::record::session::RecordSession;
use membench::record::stream_reassembler::{ConnKey, SegmentOutcome};
use membench::record::Anonymizer;
use membench::replay::ProfileReader;

const CLIENT_A: ConnKey = (("10.0.0.1", 40001), ("10.0.0.9", 11211));
const CLIENT_B: ConnKey = (("10.0.0.2", 40002), ("10.0.0.9", 11211));

fn recorded(session: RecordSession) -> Vec<Event> {
    let bytes = session.finish();
    let reader = ProfileReader::new(&bytes).expect("the recording is a profile");
    reader.events().to_vec()
}

#[test]
fn a_request_split_over_segments_is_recorded_once_it_is_whole() {
    let mut session = RecordSession::new(99);
    let anonymizer = Anonymizer::new(99);

    assert_eq!(session.on_segment(CLIENT_A, 1000, b"get fo", 10).unwrap(), (SegmentOutcome::Added, 0));
    assert_eq!(session.event_count(), 0);
    assert_eq!(
        session.on_segment(CLIENT_A, 1006, b"o\r\nset bar 3\r\nab", 20).unwrap(),
        (SegmentOutcome::Added, 1)
    );
    assert_eq!(
        session.on_segment(CLIENT_A, 1022, b"c\r\nmn\r\n", 30).unwrap(),
        (SegmentOutcome::Added, 2)
    );
    assert_eq!(session.event_count(), 3);

    let events = recorded(session);
    assert_eq!(events.len(), 3);
    assert_eq!(events[0].cmd_type, CommandType::Get);
    assert_eq!(events[0].timestamp, 20);
    assert_eq!(events[0].conn_id, 0);
    assert_eq!(events[0].key_size, 3);
    assert_eq!(events[0].key_hash, anonymizer.hash_key(b"foo"));
    assert_eq!(events[0].value_size, None);
    assert_eq!(events[1].cmd_type, CommandType::Store);
    assert_eq!(events[1].timestamp, 30);
    assert_eq!(events[1].key_hash, anonymizer.hash_key(b"bar"));
    assert_eq!(events[1].key_size, 3);
    assert_eq!(events[1].value_size, Some(3));
    assert_eq!(events[2].cmd_type, CommandType::Noop);
    assert_eq!(events[2].key_size, 0);
    assert!(events.iter().all(|e| e.is_valid()));
}

#[test]
fn several_requests_in_one_segment_are_recorded_in_order() {
    let mut session = RecordSession::new(5);
    let anonymizer = Anonymizer::new(5);
    let outcome = session.on_segment(CLIENT_A, 0, b"get a\r\ndelete bb\r\nmg ccc v\r\n", 7).unwrap();
    assert_eq!(outcome, (SegmentOutcome::Added, 3));
    let events = recorded(session);
    let kinds: Vec<CommandType> = events.iter().map(|e| e.cmd_type).collect();
    assert_eq!(kinds, vec![CommandType::Get, CommandType::Delete, CommandType::Get]);
    assert_eq!(events[0].key_hash, anonymizer.hash_key(b"a"));
    assert_eq!(events[1].key_hash, anonymizer.hash_key(b"bb"));
    assert_eq!(events[2].key_hash, anonymizer.hash_key(b"ccc"));
    assert!(events.iter().all(|e| e.timestamp == 7 && e.conn_id == 0));
}

#[test]
fn what_stands_behind_a_gap_waits_for_the_segment_that_fills_it() {
    let mut session = RecordSession::new(1);
    let anonymizer = Anonymizer::new(1);
    assert_eq!(session.on_segment(CLIENT_A, 1000, b"get fo", 1).unwrap().1, 0);
    assert_eq!(session.on_segment(CLIENT_A, 1009, b"get bar\r\n", 2).unwrap().1, 0);
    assert_eq!(session.on_segment(CLIENT_A, 1006, b"o\r\n", 3).unwrap().1, 2);
    let events = recorded(session);
    assert_eq!(events.len(), 2);
    assert_eq!(events[0].key_hash, anonymizer.hash_key(b"foo"));
    assert_eq!(events[1].key_hash, anonymizer.hash_key(b"bar"));
    assert!(events.iter().all(|e| e.timestamp == 3));
}

#[test]
fn a_late_segment_is_passed_over_and_nothing_is_recorded_twice() {
    let mut session = RecordSession::new(1);
    let anonymizer = Anonymizer::new(1);
    assert_eq!(session.on_segment(CLIENT_A, 1007, b"get b\r\n", 1).unwrap().1, 1);
    // The segment before it comes when the flow is done with beyond its place.
    assert_eq!(session.on_segment(CLIENT_A, 1000, b"get a\r\n", 2).unwrap(), (SegmentOutcome::Added, 0));
    assert_eq!(session.on_segment(CLIENT_A, 1014, b"get c\r\n", 3).unwrap().1, 1);
    let events = recorded(session);
    assert_eq!(events.len(), 2);
    assert_eq!(events[0].key_hash, anonymizer.hash_key(b"b"));
    assert_eq!(events[1].key_hash, anonymizer.hash_key(b"c"));
}

#[test]
fn a_segment_that_comes_again_brings_nothing() {
    let mut session = RecordSession::new(1);
    assert_eq!(session.on_segment(CLIENT_A, 50, b"get a\r\n", 1).unwrap(), (SegmentOutcome::Added, 1));
    assert_eq!(
        session.on_segment(CLIENT_A, 50, b"get a\r\n", 2).unwrap(),
        (SegmentOutcome::Duplicate, 0)
    );
    assert_eq!(session.on_segment(CLIENT_A, 57, b"get b\r\n", 3).unwrap(), (SegmentOutcome::Added, 1));
    assert_eq!(recorded(session).len(), 2);
}

#[test]
fn a_segment_that_contradicts_the_flow_is_flagged() {
    let mut session = RecordSession::new(1);
    assert_eq!(session.on_segment(CLIENT_A, 50, b"get a\r\n", 1).unwrap(), (SegmentOutcome::Added, 1));
    assert_eq!(
        session.on_segment(CLIENT_A, 50, b"get b\r\n", 2).unwrap(),
        (SegmentOutcome::Conflict, 0)
    );
    assert_eq!(recorded(session).len(), 1);
}

#[test]
fn every_flow_has_its_own_connection_and_its_own_stream() {
    let mut session = RecordSession::new(3);
    let anonymizer = Anonymizer::new(3);
    assert_eq!(session.on_segment(CLIENT_A, 10, b"get a", 1).unwrap().1, 0);
    assert_eq!(session.on_segment(CLIENT_B, 10, b"get b", 2).unwrap().1, 0);
    assert_eq!(session.on_segment(CLIENT_B, 15, b"b\r\n", 3).unwrap().1, 1);
    assert_eq!(session.on_segment(CLIENT_A, 15, b"a\r\n", 4).unwrap().1, 1);
    let events = recorded(session);
    assert_eq!(events.len(), 2);
    assert_eq!(events[0].conn_id, 1);
    assert_eq!(events[0].key_hash, anonymizer.hash_key(b"bb"));
    assert_eq!(events[0].timestamp, 3);
    assert_eq!(events[1].conn_id, 0);
    assert_eq!(events[1].key_hash, anonymizer.hash_key(b"aa"));
    assert_eq!(events[1].timestamp, 4);
}

#[test]
fn bytes_that_are_no_request_are_skipped_up_to_the_next_line() {
    let mut session = RecordSession::new(3);
    let anonymizer = Anonymizer::new(3);
    assert_eq!(session.on_segment(CLIENT_A, 0, b"bogus line\r\nget k\r\nset e 0\r\n\r\n", 1).unwrap().1, 1);
    let events = recorded(session);
    assert_eq!(events.len(), 1);
    assert_eq!(events[0].key_hash, anonymizer.hash_key(b"k"));
}

#[test]
fn a_flow_over_its_cap_gives_up_its_oldest_part_and_goes_on() {
    let mut session = RecordSession::with_limits(8, 16, 1_000_000);
    let anonymizer = Anonymizer::new(8);
    assert_eq!(session.on_segment(CLIENT_A, 0, b"get aaaa\r\n", 1).unwrap().1, 1);
    // Twenty bytes are more than sixteen: the flow lets go of them.
    assert_eq!(session.on_segment(CLIENT_A, 10, b"get bbbb\r\n", 2).unwrap().1, 1);
    assert_eq!(session.on_segment(CLIENT_A, 20, b"get cc", 3).unwrap().1, 0);
    assert_eq!(session.on_segment(CLIENT_A, 26, b"cc\r\n", 4).unwrap().1, 1);
    let events = recorded(session);
    assert_eq!(events.len(), 3);
    assert_eq!(events[0].key_hash, anonymizer.hash_key(b"aaaa"));
    assert_eq!(events[1].key_hash, anonymizer.hash_key(b"bbbb"));
    assert_eq!(events[2].key_hash, anonymizer.hash_key(b"cccc"));
    assert!(events.iter().all(|e| e.conn_id == 0));
}

#[test]
fn an_idle_flow_is_given_up_and_starts_anew_as_a_new_connection() {
    let mut session = RecordSession::with_limits(8, 1 << 20, 100);
    let anonymizer = Anonymizer::new(8);
    assert_eq!(session.on_segment(CLIENT_A, 0, b"get a\r\nget unfinish", 10).unwrap().1, 1);
    assert_eq!(session.on_segment(CLIENT_B, 0, b"get b\r\n", 150).unwrap().1, 1);
    // At 200 the first flow has been idle for 190, the second for 50.
    assert_eq!(session.evict_idle(200), 1);
    assert_eq!(session.evict_idle(200), 0);
    assert_eq!(session.on_segment(CLIENT_A, 500, b"get c\r\n", 210).unwrap().1, 1);
    assert_eq!(session.on_segment(CLIENT_B, 7, b"get d\r\n", 220).unwrap().1, 1);
    let events = recorded(session);
    assert_eq!(events.len(), 4);
    assert_eq!(events[0].conn_id, 0);
    assert_eq!(events[1].conn_id, 1);
    // The flow that was given up comes back under the next free number.
    assert_eq!(events[2].key_hash, anonymizer.hash_key(b"c"));
    assert_eq!(events[2].conn_id, 2);
    assert_eq!(events[3].key_hash, anonymizer.hash_key(b"d"));
    assert_eq!(events[3].conn_id, 1);
}

#[test]
fn the_stream_parser_goes_on_from_where_it_is_told() {
    let parser = membench::record::parser::MemcacheParser::new();
    let input = b"get a\r\nget b\r\nget c";
    let (all, done) = parser.parse_available(input);
    assert_eq!(all.len(), 2);
    assert_eq!(done, 14);
    let (rest, done) = parser.parse_available_from(input, 7);
    assert_eq!(rest.len(), 1);
    assert_eq!(rest[0].1, 7);
    assert_eq!(rest[0].0.key_range, 4..5);
    assert_eq!(done, 14);
    let (none, done) = parser.parse_available_from(input, 14);
    assert!(none.is_empty());
    assert_eq!(done, 14);
    let (none, done) = parser.parse_available_from(input, 40);
    assert!(none.is_empty());
    assert_eq!(done, 40);
}
