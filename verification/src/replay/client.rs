//! Turning events back into requests on the wire.

use crate::profile::{CommandType, Event, Flags};
use crate::record::parser::{
    all_digits, command_of_token, digits_value, find_byte, first_line, lower_case, size_of_token,
    spec_parse_command, ParseError, ParsedCommand, CR, LF, SP,
};
use crate::replay::ProtocolMode;
use vstd::prelude::*;
use vstd::string::*;

verus! {

/// The small hexadecimal digit for a value below sixteen.
pub open spec fn hex_char(nibble: u64) -> u8 {
    if nibble < 10 {
        (48 + nibble) as u8
    } else {
        (87 + nibble) as u8
    }
}

/// The `j`-th of the sixteen hexadecimal digits of `hash`, the most
/// significant first.
pub open spec fn hex_digit(hash: u64, j: int) -> u8 {
    hex_char((hash >> ((4 * (15 - j)) as u64)) & 0xf)
}

/// The key that stands for a recorded key in replay: the sixteen hexadecimal
/// digits of the fingerprint, over and over, cut to the recorded length.
pub open spec fn key_bytes(key_hash: u64, key_size: u32) -> Seq<u8> {
    Seq::new(key_size as nat, |i: int| hex_digit(key_hash, i % 16))
}

/// The value that stands for a recorded value in replay: filler of the
/// recorded length.
pub open spec fn value_bytes(size: u32) -> Seq<u8> {
    Seq::new(size as nat, |i: int| 120u8)
}

/// The decimal digits of `n`.
pub open spec fn decimal_digits(n: nat) -> Seq<u8>
    decreases n,
{
    if n < 10 {
        seq![(48 + n) as u8]
    } else {
        decimal_digits(n / 10).push((48 + n % 10) as u8)
    }
}

/// The size that the request of a store announces: the recorded value size,
/// zero where none was recorded.
pub open spec fn announced_size(e: Event) -> u32 {
    match e.value_size {
        Some(v) => v,
        None => 0,
    }
}

/// The token that names the command `cmd` in the protocol `mode`.
pub open spec fn request_word(mode: ProtocolMode, cmd: CommandType) -> Seq<u8> {
    match mode {
        ProtocolMode::Meta => match cmd {
            CommandType::Get => "mg".spec_bytes(),
            CommandType::Store => "ms".spec_bytes(),
            CommandType::Delete => "md".spec_bytes(),
            CommandType::Noop => "mn".spec_bytes(),
        },
        ProtocolMode::Ascii => match cmd {
            CommandType::Get => "get".spec_bytes(),
            CommandType::Store => "set".spec_bytes(),
            CommandType::Delete => "delete".spec_bytes(),
            CommandType::Noop => "noop".spec_bytes(),
        },
    }
}

/// The end of a line: a carriage return and a line feed.
pub open spec fn line_end() -> Seq<u8> {
    seq![CR, LF]
}

/// The flag that asks a meta get for the value: `v`.
pub const VALUE_FLAG: u8 = 118;

/// The request that replays `e` in the protocol `mode`: the token of the
/// command, the key, and what the command takes besides. A meta get asks
/// for the value; a store announces the size of its value and carries the
/// value on a line of its own; a no-op is its token alone.
pub open spec fn command_bytes(e: Event, mode: ProtocolMode) -> Seq<u8> {
    let word = request_word(mode, e.cmd_type);
    let key = key_bytes(e.key_hash, e.key_size);
    let size = announced_size(e);
    match e.cmd_type {
        CommandType::Noop => word + line_end(),
        CommandType::Get => if mode == ProtocolMode::Meta {
            word + seq![SP] + key + seq![SP, VALUE_FLAG] + line_end()
        } else {
            word + seq![SP] + key + line_end()
        },
        CommandType::Delete => word + seq![SP] + key + line_end(),
        CommandType::Store => word + seq![SP] + key + seq![SP] + decimal_digits(size as nat)
            + line_end() + value_bytes(size) + line_end(),
    }
}

/// Appends the `j`-th hexadecimal digit of `hash` to `out`.
fn push_hex_digit(out: &mut Vec<u8>, hash: u64, j: usize)
    requires
        j < 16,
    ensures
        final(out)@ == old(out)@.push(hex_digit(hash, j as int)),
{
    let shift: u64 = 4 * (15 - j as u64);
    let nibble: u64 = (hash >> shift) & 0xf;
    assert(nibble <= 15) by (bit_vector)
        requires
            nibble == (hash >> shift) & 0xf,
    ;
    let c: u8 = if nibble < 10 {
        (48 + nibble) as u8
    } else {
        (87 + nibble) as u8
    };
    out.push(c);
}

/// The key that replays the key with the fingerprint `key_hash` and the
/// length `key_size`. The same fingerprint and length give the same key.
pub fn generate_key(key_hash: u64, key_size: u32) -> (r: Vec<u8>)
    ensures
        r@ == key_bytes(key_hash, key_size),
        r@.len() == key_size,
{
    let mut out: Vec<u8> = Vec::new();
    let mut i: u32 = 0;
    while i < key_size
        invariant
            i <= key_size,
            out@.len() == i,
            forall|k: int| 0 <= k < i ==> out@[k] == hex_digit(key_hash, k % 16),
        decreases key_size - i,
    {
        push_hex_digit(&mut out, key_hash, (i % 16) as usize);
        i = i + 1;
    }
    assert(out@ =~= key_bytes(key_hash, key_size));
    out
}

/// The filler that replays a value of `size` bytes.
pub fn generate_value(size: u32) -> (r: Vec<u8>)
    ensures
        r@ == value_bytes(size),
        r@.len() == size,
{
    let mut out: Vec<u8> = Vec::new();
    let mut i: u32 = 0;
    while i < size
        invariant
            i <= size,
            out@.len() == i,
            forall|k: int| 0 <= k < i ==> out@[k] == 120u8,
        decreases size - i,
    {
        out.push(120u8);
        i = i + 1;
    }
    assert(out@ =~= value_bytes(size));
    out
}

/// The decimal digits of `n`.
pub fn decimal(n: u32) -> (r: Vec<u8>)
    ensures
        r@ == decimal_digits(n as nat),
    decreases n,
{
    if n < 10 {
        let mut out: Vec<u8> = Vec::new();
        out.push(48 + n as u8);
        assert(out@ =~= decimal_digits(n as nat));
        out
    } else {
        let mut out = decimal(n / 10);
        out.push(48 + (n % 10) as u8);
        out
    }
}

/// The token that names the command `cmd` in the protocol `mode`.
fn word_of(mode: ProtocolMode, cmd: CommandType) -> (r: &'static str)
    ensures
        r.spec_bytes() == request_word(mode, cmd),
{
    match mode {
        ProtocolMode::Meta => match cmd {
            CommandType::Get => "mg",
            CommandType::Store => "ms",
            CommandType::Delete => "md",
            CommandType::Noop => "mn",
        },
        ProtocolMode::Ascii => match cmd {
            CommandType::Get => "get",
            CommandType::Store => "set",
            CommandType::Delete => "delete",
            CommandType::Noop => "noop",
        },
    }
}

/// Appends the end of a line to `out`.
fn push_line_end(out: &mut Vec<u8>)
    ensures
        final(out)@ == old(out)@ + line_end(),
{
    out.push(CR);
    out.push(LF);
    assert(out@ =~= old(out)@ + line_end());
}

/// The request that replays `event` in the protocol `mode`. Any event can be
/// sent in either protocol.
pub fn build_command(event: &Event, mode: ProtocolMode) -> (r: Vec<u8>)
    ensures
        r@ == command_bytes(*event, mode),
{
    let mut out: Vec<u8> = Vec::new();
    out.extend_from_slice(word_of(mode, event.cmd_type).as_bytes());
    match event.cmd_type {
        CommandType::Noop => {},
        CommandType::Get => {
            let key = generate_key(event.key_hash, event.key_size);
            out.push(SP);
            out.extend_from_slice(key.as_slice());
            if mode == ProtocolMode::Meta {
                out.push(SP);
                out.push(VALUE_FLAG);
            }
        },
        CommandType::Delete => {
            let key = generate_key(event.key_hash, event.key_size);
            out.push(SP);
            out.extend_from_slice(key.as_slice());
        },
        CommandType::Store => {
            let key = generate_key(event.key_hash, event.key_size);
            let size: u32 = match event.value_size {
                Some(v) => v,
                None => 0,
            };
            let digits = decimal(size);
            let value = generate_value(size);
            out.push(SP);
            out.extend_from_slice(key.as_slice());
            out.push(SP);
            out.extend_from_slice(digits.as_slice());
            push_line_end(&mut out);
            out.extend_from_slice(value.as_slice());
        },
    }
    push_line_end(&mut out);
    assert(out@ =~= command_bytes(*event, mode));
    out
}

/// Whether none of the bytes of `s` sets tokens or lines apart.
pub open spec fn plain(s: Seq<u8>) -> bool {
    forall|i: int| 0 <= i < s.len() ==> #[trigger] s[i] != SP && s[i] != LF && s[i] != CR
}

/// A search that starts behind `a` in `a + b` is a search in `b`.
pub proof fn lemma_find_byte_behind(a: Seq<u8>, b: Seq<u8>, k: int, x: u8)
    requires
        0 <= k <= b.len(),
    ensures
        find_byte(a + b, a.len() + k, x) == a.len() + find_byte(b, k, x),
    decreases b.len() - k,
{
    if k < b.len() {
        assert((a + b)[a.len() + k] == b[k]);
        if b[k] != x {
            lemma_find_byte_behind(a, b, k + 1, x);
        }
    }
}

/// A search passes over bytes that do not hold what is searched for.
pub proof fn lemma_find_byte_over(a: Seq<u8>, b: Seq<u8>, from: int, x: u8)
    requires
        0 <= from <= a.len(),
        forall|i: int| from <= i < a.len() ==> a[i] != x,
    ensures
        find_byte(a + b, from, x) == a.len() + find_byte(b, 0, x),
    decreases a.len() - from,
{
    if from < a.len() {
        assert((a + b)[from] == a[from]);
        lemma_find_byte_over(a, b, from + 1, x);
    } else {
        lemma_find_byte_behind(a, b, 0, x);
    }
}

/// The keys of a replay hold hexadecimal digits and nothing else.
pub proof fn lemma_key_is_plain(key_hash: u64, key_size: u32)
    ensures
        plain(key_bytes(key_hash, key_size)),
        key_bytes(key_hash, key_size).len() == key_size,
{
    assert forall|i: int| 0 <= i < key_size implies {
        let c = #[trigger] key_bytes(key_hash, key_size)[i];
        c != SP && c != LF && c != CR
    } by {
        let shift = (4 * (15 - i % 16)) as u64;
        let nibble = (key_hash >> shift) & 0xf;
        assert(nibble <= 15) by (bit_vector)
            requires
                nibble == (key_hash >> shift) & 0xf,
        ;
    }
}

/// The decimal digits of a number are digits, and write the number.
pub proof fn lemma_decimal_digits(n: nat)
    ensures
        decimal_digits(n).len() >= 1,
        all_digits(decimal_digits(n)),
        digits_value(decimal_digits(n)) == n,
        plain(decimal_digits(n)),
    decreases n,
{
    let d = decimal_digits(n);
    if n < 10 {
        assert(d.drop_last() =~= Seq::<u8>::empty());
        assert(digits_value(d.drop_last()) == 0);
    } else {
        lemma_decimal_digits(n / 10);
        let front = decimal_digits(n / 10);
        assert(d.drop_last() =~= front);
        assert forall|i: int| 0 <= i < d.len() implies 48 <= #[trigger] d[i] <= 57 by {
            if i < front.len() {
                assert(d[i] == front[i]);
            }
        }
    }
    assert forall|i: int| 0 <= i < d.len() implies #[trigger] d[i] != SP && d[i] != LF && d[i]
        != CR by {
        assert(48 <= d[i] <= 57);
    }
}

/// The parser reads the decimal digits of a size as that size.
pub proof fn lemma_size_round_trip(size: u32)
    ensures
        size_of_token(decimal_digits(size as nat)) == Some(size),
{
    lemma_decimal_digits(size as nat);
    let d = decimal_digits(size as nat);
    assert(48 <= d[0] <= 57);
}

/// What the parser makes of the request that replays `e`: the command of
/// `e`, its key behind the token of the command, and on a store the size
/// that the request announces.
pub open spec fn replayed_command(e: Event, mode: ProtocolMode) -> ParsedCommand {
    let start = request_word(mode, e.cmd_type).len() + 1;
    ParsedCommand {
        cmd_type: e.cmd_type,
        key_range: if e.cmd_type == CommandType::Noop {
            0usize..0usize
        } else {
            (start as usize)..((start + e.key_size) as usize)
        },
        value_size: if e.cmd_type == CommandType::Store {
            Some(announced_size(e))
        } else {
            None
        },
        flags: Flags::spec_from_bits(0),
    }
}

/// The tokens of the commands are plain, and the parser knows each as its
/// command.
pub proof fn lemma_request_words(mode: ProtocolMode, cmd: CommandType)
    ensures
        plain(request_word(mode, cmd)),
        1 <= request_word(mode, cmd).len() <= 6,
        command_of_token(request_word(mode, cmd)) == Some(cmd),
{
    reveal_strlit("mg");
    reveal_strlit("ms");
    reveal_strlit("md");
    reveal_strlit("mn");
    reveal_strlit("get");
    reveal_strlit("set");
    reveal_strlit("delete");
    reveal_strlit("noop");
    is_ascii_spec_bytes("mg");
    is_ascii_spec_bytes("ms");
    is_ascii_spec_bytes("md");
    is_ascii_spec_bytes("mn");
    is_ascii_spec_bytes("get");
    is_ascii_spec_bytes("set");
    is_ascii_spec_bytes("delete");
    is_ascii_spec_bytes("noop");
    let mg = "mg".spec_bytes();
    let ms = "ms".spec_bytes();
    let md = "md".spec_bytes();
    let mn = "mn".spec_bytes();
    let get = "get".spec_bytes();
    let set = "set".spec_bytes();
    let delete = "delete".spec_bytes();
    let noop = "noop".spec_bytes();
    assert(mg.len() == 2 && ms.len() == 2 && md.len() == 2 && mn.len() == 2);
    assert(get.len() == 3 && set.len() == 3 && delete.len() == 6 && noop.len() == 4);
    assert(mg[1] == 103 && ms[1] == 115 && md[1] == 100 && mn[1] == 110);
    assert(get[0] == 103 && set[0] == 115);
    let word = request_word(mode, cmd);
    assert(lower_case(word) =~= word);
}

/// A line without a line feed, with its end behind it, is the first line of
/// what it starts.
pub proof fn lemma_first_line(head: Seq<u8>, body: Seq<u8>)
    requires
        forall|i: int| 0 <= i < head.len() ==> head[i] != LF,
    ensures
        first_line(head + line_end() + body) == Ok::<Seq<u8>, ParseError>(head),
        find_byte(head + line_end() + body, 0, LF) == head.len() + 1,
{
    let tail = line_end() + body;
    let input = head + line_end() + body;
    assert(input =~= head + tail);
    lemma_find_byte_over(head, tail, 0, LF);
    assert(tail[0] == CR && tail[1] == LF);
    assert(find_byte(tail, 0, LF) == 1) by {
        reveal_with_fuel(find_byte, 3);
    }
    assert(input[head.len() as int] == CR);
    assert(input.subrange(0, head.len() as int) =~= head);
}

/// In a line that starts with a plain token, the first space stands behind
/// the token.
pub proof fn lemma_token_end(token: Seq<u8>, more: Seq<u8>)
    requires
        plain(token),
        more.len() == 0 || more[0] == SP,
    ensures
        find_byte(token + more, 0, SP) == token.len(),
        (token + more).subrange(0, token.len() as int) == token,
{
    lemma_find_byte_over(token, more, 0, SP);
    assert((token + more).subrange(0, token.len() as int) =~= token);
}

/// In a line, behind `before`, a plain token ends at the next space or at
/// the end of the line.
pub proof fn lemma_next_token_end(before: Seq<u8>, token: Seq<u8>, more: Seq<u8>)
    requires
        plain(token),
        more.len() == 0 || more[0] == SP,
    ensures
        find_byte(before + token + more, before.len() as int, SP) == before.len() + token.len(),
        (before + token + more).subrange(
            before.len() as int,
            (before.len() + token.len()) as int,
        ) == token,
{
    let rest = token + more;
    assert(before + token + more =~= before + rest);
    lemma_find_byte_behind(before, rest, 0, SP);
    lemma_find_byte_over(token, more, 0, SP);
    assert((before + rest).subrange(before.len() as int, (before.len() + token.len()) as int)
        =~= token);
}

/// The parser reads a no-op as a no-op.
proof fn lemma_reads_noop(word: Seq<u8>)
    requires
        plain(word),
        command_of_token(word) == Some(CommandType::Noop),
    ensures
        spec_parse_command(word + line_end()) == Ok::<(ParsedCommand, int), ParseError>(
            (
                ParsedCommand {
                    cmd_type: CommandType::Noop,
                    key_range: 0usize..0usize,
                    value_size: None,
                    flags: Flags::spec_from_bits(0),
                },
                (word.len() + 2) as int,
            ),
        ),
{
    let none = Seq::<u8>::empty();
    assert(word + line_end() =~= word + line_end() + none);
    lemma_first_line(word, none);
    lemma_token_end(word, none);
    assert(word + none =~= word);
}

/// The parser reads a request of a token, a key and perhaps a flag as the
/// command of the token, with the key where it stands.
proof fn lemma_reads_keyed(word: Seq<u8>, cmd: CommandType, key: Seq<u8>, more: Seq<u8>)
    requires
        plain(word),
        plain(key),
        command_of_token(word) == Some(cmd),
        cmd == CommandType::Get || cmd == CommandType::Delete,
        more.len() == 0 || (more[0] == SP && forall|i: int| 0 <= i < more.len() ==> more[i] != LF),
    ensures
        spec_parse_command(word + seq![SP] + key + more + line_end()) == Ok::<
            (ParsedCommand, int),
            ParseError,
        >(
            (
                ParsedCommand {
                    cmd_type: cmd,
                    key_range: ((word.len() + 1) as usize)..((word.len() + 1 + key.len()) as usize),
                    value_size: None,
                    flags: Flags::spec_from_bits(0),
                },
                (word.len() + 1 + key.len() + more.len() + 2) as int,
            ),
        ),
{
    let none = Seq::<u8>::empty();
    let space = seq![SP];
    let head = word + space + key + more;
    assert(word + space + key + more + line_end() =~= head + line_end() + none);
    lemma_first_line(head, none);
    lemma_token_end(word, space + key + more);
    assert(word + (space + key + more) =~= head);
    lemma_next_token_end(word + space, key, more);
}

/// The parser reads a store as a store of the size that it announces.
proof fn lemma_reads_store(word: Seq<u8>, key: Seq<u8>, size: u32)
    requires
        plain(word),
        plain(key),
        command_of_token(word) == Some(CommandType::Store),
    ensures
        spec_parse_command(
            word + seq![SP] + key + seq![SP] + decimal_digits(size as nat) + line_end()
                + value_bytes(size) + line_end(),
        ) == Ok::<(ParsedCommand, int), ParseError>(
            (
                ParsedCommand {
                    cmd_type: CommandType::Store,
                    key_range: ((word.len() + 1) as usize)..((word.len() + 1 + key.len()) as usize),
                    value_size: Some(size),
                    flags: Flags::spec_from_bits(0),
                },
                (word.len() + 1 + key.len() + 1 + decimal_digits(size as nat).len() + 2 + size
                    + 2) as int,
            ),
        ),
{
    let none = Seq::<u8>::empty();
    let space = seq![SP];
    let digits = decimal_digits(size as nat);
    lemma_decimal_digits(size as nat);
    lemma_size_round_trip(size);
    let head = word + space + key + space + digits;
    let body = value_bytes(size) + line_end();
    let input = word + space + key + space + digits + line_end() + value_bytes(size) + line_end();
    assert(input =~= head + line_end() + body);
    lemma_first_line(head, body);
    lemma_token_end(word, space + key + space + digits);
    assert(word + (space + key + space + digits) =~= head);
    lemma_next_token_end(word + space, key, space + digits);
    assert(word + space + key + (space + digits) =~= head);
    lemma_next_token_end(word + space + key + space, digits, none);
    assert(word + space + key + space + digits + none =~= head);
    let after_line = head.len() + 2;
    assert(input.len() == after_line + size + 2);
    assert(input[after_line + size] == CR);
    assert(input[after_line + size + 1] == LF);
}

/// The parser reads what the replay writes: the request that replays an
/// event parses, in either protocol, as the command of the event with a key
/// of the recorded length and, on a store, the announced size of the value;
/// and it takes the whole request.
pub proof fn lemma_parser_reads_request(e: Event, mode: ProtocolMode)
    ensures
        spec_parse_command(command_bytes(e, mode)) == Ok::<(ParsedCommand, int), ParseError>(
            (replayed_command(e, mode), command_bytes(e, mode).len() as int),
        ),
{
    let word = request_word(mode, e.cmd_type);
    let key = key_bytes(e.key_hash, e.key_size);
    lemma_request_words(mode, e.cmd_type);
    lemma_key_is_plain(e.key_hash, e.key_size);
    match e.cmd_type {
        CommandType::Noop => {
            lemma_reads_noop(word);
        },
        CommandType::Get => {
            if mode == ProtocolMode::Meta {
                let more = seq![SP, VALUE_FLAG];
                lemma_reads_keyed(word, e.cmd_type, key, more);
                assert(command_bytes(e, mode) =~= word + seq![SP] + key + more + line_end());
            } else {
                let more = Seq::<u8>::empty();
                lemma_reads_keyed(word, e.cmd_type, key, more);
                assert(command_bytes(e, mode) =~= word + seq![SP] + key + more + line_end());
            }
        },
        CommandType::Delete => {
            let more = Seq::<u8>::empty();
            lemma_reads_keyed(word, e.cmd_type, key, more);
            assert(command_bytes(e, mode) =~= word + seq![SP] + key + more + line_end());
        },
        CommandType::Store => {
            lemma_reads_store(word, key, announced_size(e));
        },
    }
}

} // verus!
