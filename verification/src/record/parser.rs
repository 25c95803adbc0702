//! Decoding memcached requests and responses, text and meta protocol, from
//! bytes that may end anywhere.

use crate::profile::{CommandType, Flags, Response};
use std::ops::Range;
use vstd::prelude::*;
use vstd::slice::slice_subrange;
use vstd::string::*;

verus! {

/// Why bytes did not parse.
#[derive(Debug, Clone, Copy, PartialEq, Eq, Structural)]
pub enum ParseError {
    /// The bytes end before the message does: parse again when more came.
    Incomplete,
    /// The bytes are no message this parser knows.
    Malformed,
}

/// A request, decoded.
#[derive(Debug)]
pub struct ParsedCommand {
    pub cmd_type: CommandType,
    /// Where the key lies in the input.
    pub key_range: Range<usize>,
    /// The length of the value body that the request announces.
    pub value_size: Option<u32>,
    pub flags: Flags,
}

/// A response, decoded.
#[derive(Debug)]
pub struct ParsedResponse {
    pub resp: Response,
    /// How many bytes of the input the response line takes.
    pub consumed: usize,
}

/// Line feed.
pub const LF: u8 = 10;

/// Carriage return.
pub const CR: u8 = 13;

/// Space.
pub const SP: u8 = 32;

/// The first place at or behind `from` where `s` holds `b`; the length of
/// `s` where it holds none.
pub open spec fn find_byte(s: Seq<u8>, from: int, b: u8) -> int
    decreases s.len() - from,
{
    if from >= s.len() {
        s.len() as int
    } else if s[from] == b {
        from
    } else {
        find_byte(s, from + 1, b)
    }
}

/// An ASCII capital letter as its small letter, any other byte as it is.
pub open spec fn ascii_lower(b: u8) -> u8 {
    if 65 <= b <= 90 {
        (b + 32) as u8
    } else {
        b
    }
}

/// `token` with its ASCII capital letters made small.
pub open spec fn lower_case(token: Seq<u8>) -> Seq<u8> {
    Seq::new(token.len(), |i: int| ascii_lower(token[i]))
}

/// The command that a request token names, in either protocol and in any
/// mix of capital and small letters.
pub open spec fn command_of_token(token: Seq<u8>) -> Option<CommandType> {
    let word = lower_case(token);
    if word == "get".spec_bytes() || word == "mg".spec_bytes() {
        Some(CommandType::Get)
    } else if word == "set".spec_bytes() || word == "ms".spec_bytes() {
        Some(CommandType::Store)
    } else if word == "delete".spec_bytes() || word == "md".spec_bytes() {
        Some(CommandType::Delete)
    } else if word == "noop".spec_bytes() || word == "mn".spec_bytes() {
        Some(CommandType::Noop)
    } else {
        None
    }
}

/// The response that the first token of a response line names, where it
/// takes no size: a stored or found header counts as a hit of size zero.
pub open spec fn response_of_token(token: Seq<u8>) -> Option<Response> {
    if token == "HD".spec_bytes() || token == "STORED".spec_bytes() {
        Some(Response::Found(0))
    } else if token == "EN".spec_bytes() || token == "NOT_FOUND".spec_bytes() || token
        == "END".spec_bytes() {
        Some(Response::NotFound)
    } else if token == "EX".spec_bytes() {
        Some(Response::Error)
    } else {
        None
    }
}

/// Whether every byte of `s` is a decimal digit.
pub open spec fn all_digits(s: Seq<u8>) -> bool {
    forall|i: int| 0 <= i < s.len() ==> 48 <= #[trigger] s[i] <= 57
}

/// The number that the decimal digits `s` write.
pub open spec fn digits_value(s: Seq<u8>) -> nat
    decreases s.len(),
{
    if s.len() == 0 {
        0
    } else {
        digits_value(s.drop_last()) * 10 + (s.last() - 48) as nat
    }
}

/// The number that a token writes: decimal digits, at least one, after an
/// optional plus sign, for a number of at most `max`.
pub open spec fn number_of_token(token: Seq<u8>, max: nat) -> Option<nat> {
    let digits = if token.len() > 0 && token[0] == 43 {
        token.subrange(1, token.len() as int)
    } else {
        token
    };
    if digits.len() > 0 && all_digits(digits) && digits_value(digits) <= max {
        Some(digits_value(digits))
    } else {
        None
    }
}

/// The size that a token writes: a number that 32 bits can hold.
pub open spec fn size_of_token(token: Seq<u8>) -> Option<u32> {
    match number_of_token(token, u32::MAX as nat) {
        Some(n) => Some(n as u32),
        None => None,
    }
}

/// The line at the start of `input`, without its terminator: the bytes
/// before the first line feed and the carriage return that must stand before
/// it.
pub open spec fn first_line(input: Seq<u8>) -> Result<Seq<u8>, ParseError> {
    let nl = find_byte(input, 0, LF);
    if nl >= input.len() {
        Err(ParseError::Incomplete)
    } else if nl == 0 || input[nl - 1] != CR {
        Err(ParseError::Malformed)
    } else {
        Ok(input.subrange(0, nl - 1))
    }
}

/// The request at the start of `input` and the number of bytes it takes.
///
/// The request line ends with the first line feed, which a carriage return
/// must precede. Its tokens are set apart by single spaces: the command, the
/// key and, on a store, the size of the value. A no-op has no key. A store
/// is complete once the value and the line end behind it have come.
pub open spec fn spec_parse_command(input: Seq<u8>) -> Result<(ParsedCommand, int), ParseError> {
    match first_line(input) {
        Err(e) => Err(e),
        Ok(line) => {
            let after_line = (line.len() + 2) as int;
            let e0 = find_byte(line, 0, SP);
            match command_of_token(line.subrange(0, e0)) {
                None => Err(ParseError::Malformed),
                Some(CommandType::Noop) => Ok((plain_command(CommandType::Noop, 0, 0), after_line)),
                Some(cmd) => if e0 >= line.len() {
                    Err(ParseError::Malformed)
                } else {
                    let e1 = find_byte(line, e0 + 1, SP);
                    if cmd != CommandType::Store {
                        Ok((plain_command(cmd, e0 + 1, e1), after_line))
                    } else if e1 >= line.len() {
                        Err(ParseError::Malformed)
                    } else {
                        match size_of_token(line.subrange(e1 + 1, find_byte(line, e1 + 1, SP))) {
                            None => Err(ParseError::Malformed),
                            Some(size) => if input.len() < after_line + size + 2 {
                                Err(ParseError::Incomplete)
                            } else if input[after_line + size] != CR || input[after_line + size
                                + 1] != LF {
                                Err(ParseError::Malformed)
                            } else {
                                Ok(
                                    (
                                        ParsedCommand {
                                            cmd_type: CommandType::Store,
                                            key_range: ((e0 + 1) as usize)..(e1 as usize),
                                            value_size: Some(size),
                                            flags: Flags::spec_from_bits(0),
                                        },
                                        after_line + size + 2,
                                    ),
                                )
                            },
                        }
                    }
                },
            }
        },
    }
}

/// A request without a value, its key between `key_start` and `key_end`.
pub open spec fn plain_command(cmd: CommandType, key_start: int, key_end: int) -> ParsedCommand {
    ParsedCommand {
        cmd_type: cmd,
        key_range: (key_start as usize)..(key_end as usize),
        value_size: None,
        flags: Flags::spec_from_bits(0),
    }
}

/// The response at the start of `input` and the number of bytes its line
/// takes.
///
/// The line ends as a request line does. `VA` and a size is a hit of that
/// size; `HD` and `STORED` are a hit of size zero; `EN`, `NOT_FOUND` and
/// `END` are a miss; `EX` is an error.
pub open spec fn spec_parse_response(input: Seq<u8>) -> Result<(Response, int), ParseError> {
    match first_line(input) {
        Err(e) => Err(e),
        Ok(line) => {
            let e0 = find_byte(line, 0, SP);
            let token = line.subrange(0, e0);
            if token == "VA".spec_bytes() {
                if e0 >= line.len() {
                    Err(ParseError::Malformed)
                } else {
                    match size_of_token(line.subrange(e0 + 1, find_byte(line, e0 + 1, SP))) {
                        None => Err(ParseError::Malformed),
                        Some(size) => Ok((Response::Found(size), (line.len() + 2) as int)),
                    }
                }
            } else {
                match response_of_token(token) {
                    None => Err(ParseError::Malformed),
                    Some(resp) => Ok((resp, (line.len() + 2) as int)),
                }
            }
        },
    }
}

/// A request that parses announces a value size exactly where it is a store,
/// has an empty key range where it is a no-op, and has its key within the
/// bytes that it takes.
pub proof fn lemma_parsed_command_shape(input: Seq<u8>)
    requires
        input.len() <= usize::MAX,
    ensures
        spec_parse_command(input) matches Ok((cmd, consumed)) ==> {
            &&& cmd.value_size is Some <==> cmd.cmd_type == CommandType::Store
            &&& cmd.cmd_type == CommandType::Noop ==> cmd.key_range.start == cmd.key_range.end
            &&& cmd.key_range.start <= cmd.key_range.end <= consumed <= input.len()
            &&& consumed > 0
        },
{
    match first_line(input) {
        Err(_) => {},
        Ok(line) => {
            lemma_find_byte_bounds(input, 0, LF);
            lemma_find_byte_bounds(line, 0, SP);
            let e0 = find_byte(line, 0, SP);
            if e0 < line.len() {
                lemma_find_byte_bounds(line, e0 + 1, SP);
                let e1 = find_byte(line, e0 + 1, SP);
                if e1 < line.len() {
                    lemma_find_byte_bounds(line, e1 + 1, SP);
                }
            }
        },
    }
}

/// A byte is found at or behind the place where the search starts, within
/// the bytes.
pub proof fn lemma_find_byte_bounds(s: Seq<u8>, from: int, b: u8)
    requires
        0 <= from <= s.len(),
    ensures
        from <= find_byte(s, from, b) <= s.len(),
        find_byte(s, from, b) < s.len() ==> s[find_byte(s, from, b)] == b,
    decreases s.len() - from,
{
    if from < s.len() && s[from] != b {
        lemma_find_byte_bounds(s, from + 1, b);
    }
}

/// What stands at the start of a reassembled stream.
#[derive(Debug)]
pub enum StreamItem {
    /// A request, which takes this many bytes.
    Command(ParsedCommand, usize),
    /// Bytes that are no request, this many up to the next line: skip them.
    Skip(usize),
    /// The start of a request that has not come in full: wait for more.
    NeedMore,
}

/// What stands at the start of the stream `input`: a request; or bytes that
/// are no request, to be skipped up to and with the next line feed; or a
/// request of which too little has come.
pub open spec fn stream_item(input: Seq<u8>) -> StreamItem {
    match spec_parse_command(input) {
        Ok((cmd, consumed)) => StreamItem::Command(cmd, consumed as usize),
        Err(ParseError::Malformed) => StreamItem::Skip((find_byte(input, 0, LF) + 1) as usize),
        Err(ParseError::Incomplete) => StreamItem::NeedMore,
    }
}

/// How many bytes of the stream `input` the item at its start takes.
pub open spec fn item_len(input: Seq<u8>) -> int {
    match stream_item(input) {
        StreamItem::Command(_, consumed) => consumed as int,
        StreamItem::Skip(n) => n as int,
        StreamItem::NeedMore => 0,
    }
}

/// The requests that a stream holds in full, each with the place where it
/// starts, and how many bytes they and the bytes skipped between them take.
/// What follows is the start of a request that has not come in full.
pub open spec fn stream_commands(input: Seq<u8>, from: int) -> (Seq<(ParsedCommand, usize)>, int)
    decreases input.len() - from,
{
    if from < 0 || from >= input.len() {
        (Seq::empty(), from)
    } else {
        let rest = input.subrange(from, input.len() as int);
        match stream_item(rest) {
            StreamItem::NeedMore => (Seq::empty(), from),
            StreamItem::Skip(n) => if 0 < n <= rest.len() {
                stream_commands(input, from + n)
            } else {
                (Seq::empty(), from)
            },
            StreamItem::Command(cmd, n) => if 0 < n <= rest.len() {
                (
                    seq![(cmd, from as usize)] + stream_commands(input, from + n).0,
                    stream_commands(input, from + n).1,
                )
            } else {
                (Seq::empty(), from)
            },
        }
    }
}

/// The requests of a stream lie within what is done with: each starts at or
/// behind the place where the parsing began, its key lies within the bytes
/// done with, and there are no more requests than such bytes.
pub proof fn lemma_stream_commands_shape(input: Seq<u8>, from: int)
    requires
        0 <= from,
        input.len() <= usize::MAX,
    ensures
        from <= stream_commands(input, from).1,
        from <= input.len() ==> stream_commands(input, from).1 <= input.len(),
        stream_commands(input, from).0.len() <= stream_commands(input, from).1 - from,
        forall|k: int|
            0 <= k < stream_commands(input, from).0.len() ==> {
                let request = #[trigger] stream_commands(input, from).0[k];
                &&& from <= request.1
                &&& request.0.key_range.start <= request.0.key_range.end
                &&& request.1 + request.0.key_range.end <= stream_commands(input, from).1
            },
    decreases input.len() - from,
{
    if from < input.len() {
        let rest = input.subrange(from, input.len() as int);
        lemma_parsed_command_shape(rest);
        match stream_item(rest) {
            StreamItem::NeedMore => {},
            StreamItem::Skip(n) => {
                if 0 < n <= rest.len() {
                    lemma_stream_commands_shape(input, from + n);
                }
            },
            StreamItem::Command(cmd, n) => {
                if 0 < n <= rest.len() {
                    lemma_stream_commands_shape(input, from + n);
                    let more = stream_commands(input, from + n).0;
                    let all = stream_commands(input, from).0;
                    assert(all =~= seq![(cmd, from as usize)] + more);
                    assert forall|k: int| 0 <= k < all.len() implies {
                        let request = #[trigger] all[k];
                        &&& from <= request.1
                        &&& request.0.key_range.start <= request.0.key_range.end
                        &&& request.1 + request.0.key_range.end <= stream_commands(input, from).1
                    } by {
                        if k > 0 {
                            assert(all[k] == more[k - 1]);
                        }
                    }
                }
            },
        }
    }
}

/// Finds `b` in `s` at or behind `from`.
pub fn find(s: &[u8], from: usize, b: u8) -> (r: usize)
    requires
        from <= s@.len(),
    ensures
        r == find_byte(s@, from as int, b),
        from <= r <= s@.len(),
        r < s@.len() ==> s@[r as int] == b,
        forall|i: int| from <= i < r ==> s@[i] != b,
{
    let mut i: usize = from;
    while i < s.len() && s[i] != b
        invariant
            from <= i <= s@.len(),
            find_byte(s@, from as int, b) == find_byte(s@, i as int, b),
            forall|j: int| from <= j < i ==> s@[j] != b,
        decreases s@.len() - i,
    {
        i = i + 1;
    }
    i
}

/// Whether the bytes of `s` from `start` to `end` are `word`, with ASCII
/// capital letters counted as small ones where `fold` says so.
pub fn word_is(s: &[u8], start: usize, end: usize, word: &str, fold: bool) -> (r: bool)
    requires
        start <= end <= s@.len(),
    ensures
        fold ==> r == (lower_case(s@.subrange(start as int, end as int)) == word.spec_bytes()),
        !fold ==> r == (s@.subrange(start as int, end as int) == word.spec_bytes()),
{
    let w = word.as_bytes();
    let ghost token = s@.subrange(start as int, end as int);
    if w.len() != end - start {
        return false;
    }
    let mut i: usize = 0;
    while i < w.len()
        invariant
            i <= w@.len(),
            w@.len() == end - start,
            start <= end <= s@.len(),
            w@ == word.spec_bytes(),
            token == s@.subrange(start as int, end as int),
            fold ==> forall|j: int| 0 <= j < i ==> lower_case(token)[j] == w@[j],
            !fold ==> forall|j: int| 0 <= j < i ==> token[j] == w@[j],
        decreases w@.len() - i,
    {
        let b: u8 = s[start + i];
        let c: u8 = if fold && 65 <= b && b <= 90 {
            b + 32
        } else {
            b
        };
        if c != w[i] {
            proof {
                if fold {
                    assert(lower_case(token)[i as int] != w@[i as int]);
                } else {
                    assert(token[i as int] != w@[i as int]);
                }
            }
            return false;
        }
        i = i + 1;
    }
    proof {
        if fold {
            assert(lower_case(token) =~= w@);
        } else {
            assert(token =~= w@);
        }
    }
    true
}

/// The value of a longer run of digits is no less than that of its start.
pub proof fn lemma_digits_value_grows(s: Seq<u8>, i: int)
    requires
        all_digits(s),
        0 <= i <= s.len(),
    ensures
        digits_value(s.take(i)) <= digits_value(s),
    decreases s.len() - i,
{
    if i < s.len() {
        lemma_digits_value_grows(s, i + 1);
        assert(s.take(i + 1).drop_last() =~= s.take(i));
    } else {
        assert(s.take(i) =~= s);
    }
}

/// Reads the number of at most `max` that the bytes of `s` from `start` to
/// `end` write.
pub fn read_number(s: &[u8], start: usize, end: usize, max: u64) -> (r: Option<u64>)
    requires
        start <= end <= s@.len(),
    ensures
        r matches Some(n) ==> number_of_token(s@.subrange(start as int, end as int), max as nat)
            == Some(n as nat),
        r is None ==> number_of_token(s@.subrange(start as int, end as int), max as nat) is None,
{
    let ghost token = s@.subrange(start as int, end as int);
    let first: usize = if start < end && s[start] == 43 {
        start + 1
    } else {
        start
    };
    let ghost digits = s@.subrange(first as int, end as int);
    proof {
        if first == start {
            assert(digits =~= token);
        } else {
            assert(digits =~= token.subrange(1, token.len() as int));
        }
    }
    if first == end {
        return None;
    }
    let mut value: u128 = 0;
    let mut i: usize = first;
    proof {
        assert(digits.take(0) =~= Seq::<u8>::empty());
    }
    while i < end
        invariant
            first <= i <= end <= s@.len(),
            first < end,
            token == s@.subrange(start as int, end as int),
            digits == s@.subrange(first as int, end as int),
            digits == (if token.len() > 0 && token[0] == 43 {
                token.subrange(1, token.len() as int)
            } else {
                token
            }),
            all_digits(digits.take(i - first)),
            value == digits_value(digits.take(i - first)),
            value <= max,
        decreases end - i,
    {
        let b: u8 = s[i];
        if b < 48 || b > 57 {
            proof {
                assert(digits[i - first] == b);
            }
            return None;
        }
        proof {
            let next = digits.take(i - first + 1);
            assert(next.drop_last() =~= digits.take(i - first));
            assert(next.last() == b);
            assert forall|j: int| 0 <= j < next.len() implies 48 <= #[trigger] next[j] <= 57 by {
                if j < i - first {
                    assert(digits.take(i - first)[j] == next[j]);
                }
            }
        }
        value = value * 10 + (b - 48) as u128;
        if value > max as u128 {
            proof {
                if all_digits(digits) {
                    lemma_digits_value_grows(digits, i - first + 1);
                }
            }
            return None;
        }
        i = i + 1;
    }
    proof {
        assert(digits.take(end - first) =~= digits);
    }
    Some(value as u64)
}

/// Reads the size that the bytes of `s` from `start` to `end` write.
pub fn read_size(s: &[u8], start: usize, end: usize) -> (r: Option<u32>)
    requires
        start <= end <= s@.len(),
    ensures
        r == size_of_token(s@.subrange(start as int, end as int)),
{
    match read_number(s, start, end, u32::MAX as u64) {
        Some(n) => Some(n as u32),
        None => None,
    }
}

/// Finds the line at the start of `input`: the place of its line feed.
fn line_feed(input: &[u8]) -> (r: Result<usize, ParseError>)
    ensures
        match first_line(input@) {
            Ok(line) => r matches Ok(nl) && 1 <= nl < input@.len() && line == input@.subrange(
                0,
                nl - 1,
            ) && nl == find_byte(input@, 0, LF),
            Err(e) => r matches Err(f) && f == e,
        },
        r matches Ok(nl) ==> 1 <= nl < input@.len(),
{
    let nl: usize = find(input, 0, LF);
    if nl >= input.len() {
        return Err(ParseError::Incomplete);
    }
    if nl == 0 || input[nl - 1] != CR {
        return Err(ParseError::Malformed);
    }
    Ok(nl)
}

/// A parser of memcached requests and responses. It keeps nothing between
/// calls.
pub struct MemcacheParser;

impl MemcacheParser {
    /// A parser.
    pub fn new() -> (r: MemcacheParser) {
        MemcacheParser
    }

    /// The command that the token of `line` before `end` names.
    fn command_at(line: &[u8], end: usize) -> (r: Option<CommandType>)
        requires
            end <= line@.len(),
        ensures
            r == command_of_token(line@.subrange(0, end as int)),
    {
        if word_is(line, 0, end, "get", true) || word_is(line, 0, end, "mg", true) {
            Some(CommandType::Get)
        } else if word_is(line, 0, end, "set", true) || word_is(line, 0, end, "ms", true) {
            Some(CommandType::Store)
        } else if word_is(line, 0, end, "delete", true) || word_is(line, 0, end, "md", true) {
            Some(CommandType::Delete)
        } else if word_is(line, 0, end, "noop", true) || word_is(line, 0, end, "mn", true) {
            Some(CommandType::Noop)
        } else {
            None
        }
    }

    /// Decodes the request at the start of `input`, and hands back what
    /// follows it.
    pub fn parse_command<'a>(&self, input: &'a [u8]) -> (r: Result<
        (ParsedCommand, &'a [u8]),
        ParseError,
    >)
        ensures
            match spec_parse_command(input@) {
                Ok((cmd, consumed)) => r matches Ok((c, rest)) && c == cmd && rest@
                    == input@.subrange(consumed, input@.len() as int) && consumed
                    <= input@.len(),
                Err(e) => r matches Err(f) && f == e,
            },
    {
        let nl: usize = match line_feed(input) {
            Ok(nl) => nl,
            Err(e) => {
                return Err(e);
            },
        };
        let total: usize = input.len();
        let line = slice_subrange(input, 0, nl - 1);
        let after_line: usize = nl + 1;
        let e0: usize = find(line, 0, SP);
        let cmd = match MemcacheParser::command_at(line, e0) {
            Some(cmd) => cmd,
            None => {
                return Err(ParseError::Malformed);
            },
        };
        if cmd == CommandType::Noop {
            return Ok(
                (
                    ParsedCommand {
                        cmd_type: cmd,
                        key_range: 0..0,
                        value_size: None,
                        flags: Flags::from_bits(0),
                    },
                    slice_subrange(input, after_line, total),
                ),
            );
        }
        if e0 >= line.len() {
            return Err(ParseError::Malformed);
        }
        let e1: usize = find(line, e0 + 1, SP);
        if cmd != CommandType::Store {
            return Ok(
                (
                    ParsedCommand {
                        cmd_type: cmd,
                        key_range: (e0 + 1)..e1,
                        value_size: None,
                        flags: Flags::from_bits(0),
                    },
                    slice_subrange(input, after_line, total),
                ),
            );
        }
        if e1 >= line.len() {
            return Err(ParseError::Malformed);
        }
        let e2: usize = find(line, e1 + 1, SP);
        let size: u32 = match read_size(line, e1 + 1, e2) {
            Some(size) => size,
            None => {
                return Err(ParseError::Malformed);
            },
        };
        let left: usize = total - after_line;
        if (left as u64) < size as u64 + 2 {
            return Err(ParseError::Incomplete);
        }
        let body_end: usize = after_line + size as usize;
        if input[body_end] != CR || input[body_end + 1] != LF {
            return Err(ParseError::Malformed);
        }
        Ok(
            (
                ParsedCommand {
                    cmd_type: cmd,
                    key_range: (e0 + 1)..e1,
                    value_size: Some(size),
                    flags: Flags::from_bits(0),
                },
                slice_subrange(input, body_end + 2, total),
            ),
        )
    }

    /// Says what stands at the start of the stream `input`. Malformed bytes
    /// are to be skipped up to the next line; the stream goes on behind them.
    pub fn next_in_stream(&self, input: &[u8]) -> (r: StreamItem)
        ensures
            r == stream_item(input@),
            0 <= item_len(input@) <= input@.len(),
            !(r is NeedMore) ==> item_len(input@) > 0,
    {
        match self.parse_command(input) {
            Ok((cmd, rest)) => {
                let consumed: usize = input.len() - rest.len();
                StreamItem::Command(cmd, consumed)
            },
            Err(ParseError::Incomplete) => StreamItem::NeedMore,
            Err(ParseError::Malformed) => {
                let total: usize = input.len();
                let nl: usize = find(input, 0, LF);
                proof {
                    if nl >= total {
                        assert(first_line(input@) == Err::<Seq<u8>, ParseError>(
                            ParseError::Incomplete,
                        ));
                    }
                }
                StreamItem::Skip(nl + 1)
            },
        }
    }

    /// Takes from the stream `input` every request that has come in full.
    /// Each is handed out with the place where it starts, to which its key
    /// range is relative. The number says how many bytes are done with: the
    /// caller keeps what follows, and hands it in again when more has come.
    pub fn parse_available(&self, input: &[u8]) -> (r: (Vec<(ParsedCommand, usize)>, usize))
        ensures
            r.0@ == stream_commands(input@, 0).0,
            r.1 == stream_commands(input@, 0).1,
            r.1 <= input@.len(),
    {
        self.parse_available_from(input, 0)
    }

    /// Takes from the stream `input` every request that has come in full at
    /// or behind the place `from`, before which the stream is done with.
    /// Each is handed out with the place where it starts in the stream, to
    /// which its key range is relative, and the number says up to where the
    /// stream is done with now.
    pub fn parse_available_from(&self, input: &[u8], from: usize) -> (r: (
        Vec<(ParsedCommand, usize)>,
        usize,
    ))
        ensures
            r.0@ == stream_commands(input@, from as int).0,
            r.1 == stream_commands(input@, from as int).1,
            from <= r.1,
            from <= input@.len() ==> r.1 <= input@.len(),
    {
        let mut out: Vec<(ParsedCommand, usize)> = Vec::new();
        let total: usize = input.len();
        let mut at: usize = from;
        proof {
            assert(Seq::<(ParsedCommand, usize)>::empty() + stream_commands(input@, from as int).0
                =~= stream_commands(input@, from as int).0);
        }
        while at < total
            invariant
                from <= at,
                from <= total ==> at <= total,
                total == input@.len(),
                stream_commands(input@, from as int).0 == out@ + stream_commands(
                    input@,
                    at as int,
                ).0,
                stream_commands(input@, from as int).1 == stream_commands(input@, at as int).1,
            decreases total - at,
        {
            let rest = vstd::slice::slice_subrange(input, at, total);
            match self.next_in_stream(rest) {
                StreamItem::NeedMore => {
                    proof {
                        assert(out@ + Seq::<(ParsedCommand, usize)>::empty() =~= out@);
                    }
                    return (out, at);
                },
                StreamItem::Skip(n) => {
                    at = at + n;
                },
                StreamItem::Command(cmd, n) => {
                    proof {
                        let more = stream_commands(input@, at + n).0;
                        assert(out@ + (seq![(cmd, at)] + more) =~= out@.push((cmd, at)) + more);
                    }
                    out.push((cmd, at));
                    at = at + n;
                },
            }
        }
        proof {
            assert(out@ + Seq::<(ParsedCommand, usize)>::empty() =~= out@);
        }
        (out, at)
    }

    /// Decodes the response line at the start of `input`.
    pub fn parse_response(&self, input: &[u8]) -> (r: Result<ParsedResponse, ParseError>)
        ensures
            match spec_parse_response(input@) {
                Ok((resp, consumed)) => r matches Ok(p) && p.resp == resp && p.consumed
                    == consumed && consumed <= input@.len(),
                Err(e) => r matches Err(f) && f == e,
            },
    {
        let nl: usize = match line_feed(input) {
            Ok(nl) => nl,
            Err(e) => {
                return Err(e);
            },
        };
        let total: usize = input.len();
        let line = slice_subrange(input, 0, nl - 1);
        let e0: usize = find(line, 0, SP);
        let resp = if word_is(line, 0, e0, "VA", false) {
            if e0 >= line.len() {
                return Err(ParseError::Malformed);
            }
            let e1: usize = find(line, e0 + 1, SP);
            match read_size(line, e0 + 1, e1) {
                Some(size) => Response::Found(size),
                None => {
                    return Err(ParseError::Malformed);
                },
            }
        } else if word_is(line, 0, e0, "HD", false) || word_is(line, 0, e0, "STORED", false) {
            Response::Found(0)
        } else if word_is(line, 0, e0, "EN", false) || word_is(line, 0, e0, "NOT_FOUND", false)
            || word_is(line, 0, e0, "END", false) {
            Response::NotFound
        } else if word_is(line, 0, e0, "EX", false) {
            Response::Error
        } else {
            return Err(ParseError::Malformed);
        };
        Ok(ParsedResponse { resp, consumed: nl + 1 })
    }
}

} // verus!
