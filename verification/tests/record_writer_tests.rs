use membench::profile::codec::ProfileError;
use membench::profile::{CommandType, Event, Flags, ProfileMetadata};
use membench::record::ProfileWriter;

#[test]
fn test_write_profile() {
    let mut writer = ProfileWriter::new();

    let event = Event {
        timestamp: 1000,
        conn_id: 1,
        cmd_type: CommandType::Get,
        key_hash: 0x123456789,
        key_size: 10,
        value_size: None,
        flags: Flags::empty(),
    };

    writer.write_event(&event).unwrap();
    let file = writer.finish();

    // Verify file was written and has content
    assert!(file.len() > 0);
}

#[test]
fn written_file_is_bit_exact() {
    let mut writer = ProfileWriter::new();
    let event = Event {
        timestamp: 12345,
        conn_id: 7,
        cmd_type: CommandType::Get,
        key_hash: 0xdeadbeef,
        key_size: 42,
        value_size: None,
        flags: Flags::empty(),
    };
    writer.write_event(&event).unwrap();
    let file = writer.finish();
    let expected: Vec<u8> = vec![
        // the event, its length before it
        28, 0, //
        0x39, 0x30, 0, 0, 0, 0, 0, 0, 7, 0, 0, 0, 0, 0, 0, 0xef, 0xbe, 0xad, 0xde, 0, 0, 0, 0, 42,
        0, 0, 0, 0, //
        // the metadata
        0xef, 0xbe, 0xad, 0xde, // magic
        2,    // version
        1, 0, 0, 0, 0, 0, 0, 0, // total_events
        0x39, 0x30, 0, 0, 0, 0, 0, 0, // first timestamp
        0x39, 0x30, 0, 0, 0, 0, 0, 0, // last timestamp
        1, 0, 0, 0, // unique_connections
        1, 0, 0, 0, 0, 0, 0, 0, // one entry in the command distribution
        0, 0, 0, 0, 1, 0, 0, 0, 0, 0, 0, 0, // Get: 1
        // its length, and the magic number
        53, 0, 0xef, 0xbe, 0xad, 0xde,
    ];
    assert_eq!(file, expected);
}

#[test]
fn empty_profile_has_only_the_trailer() {
    let writer = ProfileWriter::new();
    let metadata = writer.metadata();
    assert_eq!(metadata.total_events, 0);
    assert_eq!(metadata.time_range, (0, 0));
    assert_eq!(metadata.unique_connections, 0);
    assert_eq!(metadata.magic, 0xDEADBEEF);
    assert_eq!(metadata.version, 2);
    let file = writer.finish();
    assert_eq!(file.len(), 41 + 2 + 4);
    assert_eq!(&file[file.len() - 4..], &[0xef, 0xbe, 0xad, 0xde]);
    assert_eq!(&file[file.len() - 6..file.len() - 4], &[41, 0]);
}

#[test]
fn writer_refuses_what_the_schema_cannot_hold() {
    let mut writer = ProfileWriter::new();
    let event = Event {
        timestamp: 1,
        conn_id: 1,
        cmd_type: CommandType::Store,
        key_hash: 1,
        key_size: 1,
        value_size: Some(0),
        flags: Flags::empty(),
    };
    assert_eq!(writer.write_event(&event), Err(ProfileError::InvalidEvent));
    assert_eq!(writer.metadata().total_events, 0);
    assert_eq!(writer.finish().len(), 47);
}

#[test]
fn writer_hands_out_bytes_in_pieces() {
    let events: Vec<Event> = (0..5u64)
        .map(|i| Event {
            timestamp: 10 * i,
            conn_id: (i % 2) as u16,
            cmd_type: if i % 2 == 0 { CommandType::Get } else { CommandType::Delete },
            key_hash: i,
            key_size: 4,
            value_size: None,
            flags: Flags::empty(),
        })
        .collect();

    let mut whole = ProfileWriter::new();
    for e in &events {
        whole.write_event(e).unwrap();
    }
    let expected = whole.finish();

    let mut pieces = ProfileWriter::new();
    let mut file: Vec<u8> = Vec::new();
    for e in &events {
        pieces.write_event(e).unwrap();
        let bytes = pieces.take_bytes();
        assert_eq!(bytes.len(), 30);
        file.extend_from_slice(&bytes);
        assert!(pieces.take_bytes().is_empty());
    }
    file.extend_from_slice(&pieces.finish());
    assert_eq!(file, expected);
}

#[test]
fn metadata_sums_the_events_up() {
    let mut writer = ProfileWriter::new();
    let commands = [
        CommandType::Get,
        CommandType::Store,
        CommandType::Get,
        CommandType::Delete,
        CommandType::Noop,
        CommandType::Get,
    ];
    let stamps = [50u64, 20, 90, 30, 10, 60];
    for (i, cmd) in commands.iter().enumerate() {
        let event = Event {
            timestamp: stamps[i],
            conn_id: [3u16, 5, 3, 9, 5, 3][i],
            cmd_type: *cmd,
            key_hash: i as u64,
            key_size: if *cmd == CommandType::Noop { 0 } else { 8 },
            value_size: if *cmd == CommandType::Store { Some(16) } else { None },
            flags: Flags::empty(),
        };
        writer.write_event(&event).unwrap();
    }
    let m: ProfileMetadata = writer.metadata();
    assert_eq!(m.total_events, 6);
    assert_eq!(m.unique_connections, 3);
    assert_eq!(m.time_range, (10, 90));
    assert_eq!(m.command_distribution.get(&CommandType::Get), Some(&3));
    assert_eq!(m.command_distribution.get(&CommandType::Store), Some(&1));
    assert_eq!(m.command_distribution.get(&CommandType::Delete), Some(&1));
    assert_eq!(m.command_distribution.get(&CommandType::Noop), Some(&1));
    assert_eq!(m.command_distribution.sum(), m.total_events as u128);
    assert!(m.is_consistent());
}

#[test]
fn metadata_block_round_trips() {
    let mut m = ProfileMetadata::new();
    m.total_events = 7;
    m.time_range = (3, 99);
    m.unique_connections = 2;
    m.command_distribution.insert(CommandType::Store, 4);
    m.command_distribution.insert(CommandType::Noop, 3);
    let bytes = m.encode();
    assert_eq!(bytes.len(), 41 + 2 * 12);
    let back = ProfileMetadata::decode(&bytes).unwrap();
    assert_eq!(back.magic, m.magic);
    assert_eq!(back.version, m.version);
    assert_eq!(back.total_events, 7);
    assert_eq!(back.time_range, (3, 99));
    assert_eq!(back.unique_connections, 2);
    assert_eq!(back.command_distribution, m.command_distribution);
    assert!(back.is_consistent());

    // Cut anywhere, the block does not decode.
    for cut in 0..bytes.len() {
        assert!(matches!(
            ProfileMetadata::decode(&bytes[..cut]),
            Err(ProfileError::BadMetadata)
        ));
    }
    // A command tag that no command has.
    let mut bad = bytes.clone();
    bad[41] = 9;
    assert!(matches!(ProfileMetadata::decode(&bad), Err(ProfileError::BadMetadata)));
}
