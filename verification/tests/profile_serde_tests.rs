use membench::profile::codec::ProfileError;
use membench::profile::{CommandType, Event, Flags};

#[test]
fn test_event_serialization() {
    let event = Event {
        timestamp: 1000000,
        conn_id: 1,
        cmd_type: CommandType::Get,
        key_hash: 0x123456789abcdef0,
        key_size: 10,
        value_size: None,
        flags: Flags::empty(),
    };

    let encoded = event.encode().expect("encode");
    let decoded: Event = Event::decode(&encoded).expect("decode");

    assert_eq!(decoded.timestamp, event.timestamp);
    assert_eq!(decoded.key_hash, event.key_hash);
}

#[test]
fn event_bytes_are_bit_exact() {
    let event = Event {
        timestamp: 12345,
        conn_id: 7,
        cmd_type: CommandType::Get,
        key_hash: 0xdeadbeef,
        key_size: 42,
        value_size: None,
        flags: Flags::empty(),
    };
    let expected: Vec<u8> = vec![
        0x39, 0x30, 0, 0, 0, 0, 0, 0, // timestamp
        7, 0, // conn_id
        0, 0, 0, 0, // command tag
        0, // flags
        0xef, 0xbe, 0xad, 0xde, 0, 0, 0, 0, // key_hash
        42, 0, 0, 0, // key_size
        0, // no value size
    ];
    assert_eq!(event.encode().unwrap(), expected);

    let store = Event {
        timestamp: 1,
        conn_id: 0x0102,
        cmd_type: CommandType::Store,
        key_hash: 2,
        key_size: 3,
        value_size: Some(256),
        flags: Flags::empty().with_quiet().with_value(),
    };
    let expected: Vec<u8> = vec![
        1, 0, 0, 0, 0, 0, 0, 0, // timestamp
        2, 1, // conn_id
        1, 0, 0, 0, // command tag
        3, // flags
        2, 0, 0, 0, 0, 0, 0, 0, // key_hash
        3, 0, 0, 0, // key_size
        1, 0, 1, 0, 0, // value size 256
    ];
    assert_eq!(store.encode().unwrap(), expected);
}

#[test]
fn event_decode_round_trips_every_field() {
    let event = Event {
        timestamp: u64::MAX,
        conn_id: u16::MAX,
        cmd_type: CommandType::Delete,
        key_hash: 0x0123456789abcdef,
        key_size: u32::MAX,
        value_size: Some(u32::MAX),
        flags: Flags::empty().with_quiet(),
    };
    let mut bytes = event.encode().unwrap();
    // Bytes behind the record are ignored.
    bytes.extend_from_slice(b"trailing");
    let back = Event::decode(&bytes).unwrap();
    assert_eq!(back.timestamp, event.timestamp);
    assert_eq!(back.conn_id, event.conn_id);
    assert_eq!(back.cmd_type, event.cmd_type);
    assert_eq!(back.key_hash, event.key_hash);
    assert_eq!(back.key_size, event.key_size);
    assert_eq!(back.value_size, event.value_size);
    assert_eq!(back.flags, event.flags);
}

#[test]
fn event_with_zero_value_size_is_refused() {
    let event = Event {
        timestamp: 1,
        conn_id: 1,
        cmd_type: CommandType::Store,
        key_hash: 1,
        key_size: 1,
        value_size: Some(0),
        flags: Flags::empty(),
    };
    assert_eq!(event.encode(), Err(ProfileError::InvalidEvent));
}

#[test]
fn event_decode_rejects_bad_records() {
    let good = Event {
        timestamp: 5,
        conn_id: 1,
        cmd_type: CommandType::Noop,
        key_hash: 9,
        key_size: 0,
        value_size: None,
        flags: Flags::empty(),
    }
    .encode()
    .unwrap();
    assert_eq!(good.len(), 28);
    // Too short.
    assert!(matches!(Event::decode(&good[..27]), Err(ProfileError::BadEvent)));
    assert!(matches!(Event::decode(&[]), Err(ProfileError::BadEvent)));
    // A command tag that no command has.
    let mut bad = good.clone();
    bad[10] = 4;
    assert!(matches!(Event::decode(&bad), Err(ProfileError::BadEvent)));
    // An option tag that is neither 0 nor 1.
    let mut bad = good.clone();
    bad[27] = 2;
    assert!(matches!(Event::decode(&bad), Err(ProfileError::BadEvent)));
    // A value size announced but cut off.
    let mut bad = good.clone();
    bad[27] = 1;
    assert!(matches!(Event::decode(&bad), Err(ProfileError::BadEvent)));
    // A value size of zero.
    let mut bad = good.clone();
    bad[27] = 1;
    bad.extend_from_slice(&[0, 0, 0, 0]);
    assert!(matches!(Event::decode(&bad), Err(ProfileError::BadEvent)));
    // The same with a size of one decodes.
    let mut ok = good.clone();
    ok[27] = 1;
    ok.extend_from_slice(&[1, 0, 0, 0]);
    assert_eq!(Event::decode(&ok).unwrap().value_size, Some(1));
}

#[test]
fn event_validity() {
    let get = Event {
        timestamp: 0,
        conn_id: 0,
        cmd_type: CommandType::Get,
        key_hash: 0,
        key_size: 3,
        value_size: None,
        flags: Flags::empty(),
    };
    assert!(get.is_valid());
    assert!(!Event { value_size: Some(3), ..get }.is_valid());
    assert!(Event { cmd_type: CommandType::Store, value_size: Some(3), ..get }.is_valid());
    assert!(!Event { cmd_type: CommandType::Store, value_size: None, ..get }.is_valid());
    assert!(!Event { cmd_type: CommandType::Store, value_size: Some(0), ..get }.is_valid());
    assert!(!Event { cmd_type: CommandType::Noop, ..get }.is_valid());
    assert!(Event { cmd_type: CommandType::Noop, key_size: 0, ..get }.is_valid());

    // What the library makes of a command is valid, or nothing.
    let made = Event::from_command(1, 2, CommandType::Store, Flags::empty(), 3, 4, Some(5)).unwrap();
    assert!(made.is_valid());
    assert_eq!(made.value_size, Some(5));
    assert!(Event::from_command(1, 2, CommandType::Store, Flags::empty(), 3, 4, None).is_none());
    assert!(Event::from_command(1, 2, CommandType::Store, Flags::empty(), 3, 4, Some(0)).is_none());
    let made = Event::from_command(1, 2, CommandType::Get, Flags::empty(), 3, 4, Some(5)).unwrap();
    assert!(made.is_valid());
    assert_eq!(made.value_size, None);
    let made = Event::from_command(1, 2, CommandType::Noop, Flags::empty(), 3, 4, None).unwrap();
    assert!(made.is_valid());
    assert_eq!(made.key_size, 0);
}

#[test]
fn flags_bits() {
    let f = Flags::empty();
    assert!(!f.has_quiet());
    assert!(!f.has_value());
    assert_eq!(f.bits(), 0);
    let q = f.with_quiet();
    assert!(q.has_quiet());
    assert!(!q.has_value());
    assert_eq!(q.bits(), 1);
    let v = f.with_value();
    assert!(!v.has_quiet());
    assert!(v.has_value());
    assert_eq!(v.bits(), 2);
    assert_eq!(q.with_value().bits(), 3);
    assert_eq!(Flags::from_bits(3), q.with_value());
    assert_eq!(Flags::default(), Flags::empty());
}
