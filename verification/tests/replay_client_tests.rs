use membench::profile::{CommandType, Event, Flags};
use membench::record::parser::ParseError;
use membench::record::MemcacheParser;
use membench::replay::client::{build_command, decimal, generate_key, generate_value};
use membench::replay::ProtocolMode;

fn event(cmd_type: CommandType, key_size: u32, value_size: Option<u32>) -> Event {
    Event {
        timestamp: 0,
        conn_id: 0,
        cmd_type,
        flags: Flags::empty(),
        key_hash: 0x0123456789abcdef,
        key_size,
        value_size,
    }
}

#[test]
fn keys_are_the_hash_in_hex_repeated_and_cut() {
    assert_eq!(generate_key(0x0123456789abcdef, 0), b"");
    assert_eq!(generate_key(0x0123456789abcdef, 1), b"0");
    assert_eq!(generate_key(0x0123456789abcdef, 16), b"0123456789abcdef");
    assert_eq!(generate_key(0x0123456789abcdef, 20), b"0123456789abcdef0123");
    assert_eq!(generate_key(0xdeadbeef, 10), b"00000000de");
    assert_eq!(generate_key(u64::MAX, 3), b"fff");
    assert_eq!(generate_key(7, 33).len(), 33);
    // The same hash and size give the same key.
    assert_eq!(generate_key(0xfeed, 40), generate_key(0xfeed, 40));
}

#[test]
fn values_are_filler_of_the_recorded_size() {
    assert_eq!(generate_value(0), b"");
    assert_eq!(generate_value(5), b"xxxxx");
    assert_eq!(generate_value(70000).len(), 70000);
}

#[test]
fn decimal_digits() {
    assert_eq!(decimal(0), b"0");
    assert_eq!(decimal(9), b"9");
    assert_eq!(decimal(10), b"10");
    assert_eq!(decimal(1905), b"1905");
    assert_eq!(decimal(u32::MAX), b"4294967295");
}

#[test]
fn requests_in_the_meta_protocol() {
    let m = ProtocolMode::Meta;
    assert_eq!(build_command(&event(CommandType::Get, 4, None), m), b"mg 0123 v\r\n");
    assert_eq!(
        build_command(&event(CommandType::Store, 4, Some(3)), m),
        b"ms 0123 3\r\nxxx\r\n"
    );
    assert_eq!(build_command(&event(CommandType::Store, 2, None), m), b"ms 01 0\r\n\r\n");
    assert_eq!(build_command(&event(CommandType::Delete, 4, None), m), b"md 0123\r\n");
    assert_eq!(build_command(&event(CommandType::Noop, 0, None), m), b"mn\r\n");
    assert_eq!(build_command(&event(CommandType::Get, 0, None), m), b"mg  v\r\n");
}

#[test]
fn requests_in_the_text_protocol() {
    let a = ProtocolMode::Ascii;
    assert_eq!(build_command(&event(CommandType::Get, 4, None), a), b"get 0123\r\n");
    assert_eq!(
        build_command(&event(CommandType::Store, 4, Some(12)), a),
        b"set 0123 12\r\nxxxxxxxxxxxx\r\n"
    );
    assert_eq!(build_command(&event(CommandType::Delete, 4, None), a), b"delete 0123\r\n");
    assert_eq!(build_command(&event(CommandType::Noop, 0, None), a), b"noop\r\n");
}

#[test]
fn the_parser_reads_what_the_client_writes() {
    let parser = MemcacheParser::new();
    for mode in [ProtocolMode::Ascii, ProtocolMode::Meta] {
        for (cmd, size) in [
            (CommandType::Get, None),
            (CommandType::Store, Some(17)),
            (CommandType::Delete, None),
            (CommandType::Noop, None),
        ] {
            let e = event(cmd, if cmd == CommandType::Noop { 0 } else { 23 }, size);
            let bytes = build_command(&e, mode);
            let (parsed, rest) = parser.parse_command(&bytes).unwrap();
            assert_eq!(parsed.cmd_type, cmd);
            assert_eq!(parsed.value_size, size);
            assert_eq!(parsed.key_range.len() as u32, e.key_size);
            assert_eq!(&bytes[parsed.key_range.clone()], &generate_key(e.key_hash, e.key_size)[..]);
            assert!(rest.is_empty());
            // One byte short, the request is incomplete.
            assert!(matches!(
                parser.parse_command(&bytes[..bytes.len() - 1]),
                Err(ParseError::Incomplete)
            ));
        }
    }
}

#[test]
fn protocol_modes_by_name() {
    assert_eq!(ProtocolMode::parse("ascii"), Some(ProtocolMode::Ascii));
    assert_eq!(ProtocolMode::parse("meta"), Some(ProtocolMode::Meta));
    assert_eq!(ProtocolMode::parse("META"), Some(ProtocolMode::Meta));
    assert_eq!(ProtocolMode::parse("Ascii"), Some(ProtocolMode::Ascii));
    assert_eq!(ProtocolMode::parse("binary"), None);
    assert_eq!(ProtocolMode::parse(""), None);
    assert_eq!(ProtocolMode::parse("meta "), None);
    assert_eq!("meta".parse::<ProtocolMode>(), Ok(ProtocolMode::Meta));
    assert_eq!(
        "text".parse::<ProtocolMode>(),
        Err("Invalid protocol mode: 'text'. Use 'ascii' or 'meta'".to_string())
    );
    assert_eq!(ProtocolMode::Ascii.name(), "ascii");
    assert_eq!(ProtocolMode::Meta.name(), "meta");
}
