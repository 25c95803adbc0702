//! One recording: from the packets of a source to the bytes of a profile.

use crate::profile::codec::ProfileError;
use crate::profile::{CommandType, Event};
use crate::record::anonymizer::Anonymizer;
use crate::record::parser::{
    find, find_byte, spec_parse_command, word_is, MemcacheParser, ParsedCommand, CR, LF,
};
use crate::record::stream_reassembler::{
    ascending, contiguous_prefix, contiguous_stream, flow_id, holds_segment, is_idle,
    lemma_segment_in_order, released, same_flow, stream_before, stream_of, with_segment, ConnKey,
    FlowId, Segment, SegmentOutcome, StreamReassembler, DEFAULT_FLOW_CAP, DEFAULT_IDLE_WINDOW,
};
use crate::record::parser::stream_commands;
use crate::record::writer::ProfileWriter;
use vstd::prelude::*;
use vstd::slice::slice_subrange;
use vstd::string::*;
use vstd::utf8::valid_utf8;

verus! {

/// How many connections the packets of a source are told apart into.
pub const CONNECTION_SLOTS: u64 = 32;

/// Calls `std::str::from_utf8` and tells whether it succeeded. Trusted: it
/// succeeds on well-formed UTF-8 and on nothing else.
#[verifier::external_body]
fn is_utf8(bytes: &[u8]) -> (r: bool)
    ensures
        r == valid_utf8(bytes@),
{
    std::str::from_utf8(bytes).is_ok()
}

/// The first place at or behind `from` where a carriage return stands before
/// a line feed; the length of `s` where none does.
pub open spec fn first_line_end(s: Seq<u8>, from: int) -> int
    decreases s.len() - from,
{
    if from + 1 >= s.len() {
        s.len() as int
    } else if s[from] == CR && s[from + 1] == LF {
        from
    } else {
        first_line_end(s, from + 1)
    }
}

/// Whether the three bytes of `s` from `at` on start one of the words `get`,
/// `set`, `delete` and `noop`.
pub open spec fn command_word_at(s: Seq<u8>, at: int) -> bool {
    let w = s.subrange(at, at + 3);
    0 <= at && at + 3 <= s.len() && (w == "get".spec_bytes() || w == "set".spec_bytes() || w
        == "del".spec_bytes() || w == "noo".spec_bytes())
}

/// The last place at or before `at` where a command word starts; -1 where
/// none does.
pub open spec fn last_command_word(s: Seq<u8>, at: int) -> int
    decreases at + 1,
{
    if at < 0 {
        -1
    } else if command_word_at(s, at) {
        at
    } else {
        last_command_word(s, at - 1)
    }
}

/// Where the request starts in a packet that may carry headers before it:
/// at the last command word that ends before the first line end, and at the
/// start of the packet where there is no such word or no line end.
pub open spec fn payload_start(packet: Seq<u8>) -> int {
    let end = first_line_end(packet, 0);
    if end >= packet.len() {
        0
    } else {
        let word = last_command_word(packet.subrange(0, end), end - 3);
        if word < 0 {
            0
        } else {
            word
        }
    }
}

/// Finds the first line end of `s`.
fn find_line_end(s: &[u8]) -> (r: usize)
    ensures
        r == first_line_end(s@, 0),
        r <= s@.len(),
{
    let n: usize = s.len();
    let mut i: usize = 0;
    while n - i >= 2 && !(s[i] == CR && s[i + 1] == LF)
        invariant
            i <= n,
            n == s@.len(),
            first_line_end(s@, 0) == first_line_end(s@, i as int),
        decreases n - i,
    {
        i = i + 1;
    }
    if n - i < 2 {
        n
    } else {
        i
    }
}

/// Whether a command word starts at `at` in `s`.
fn is_command_word(s: &[u8], at: usize) -> (r: bool)
    requires
        at + 3 <= s@.len(),
    ensures
        r == command_word_at(s@, at as int),
{
    let n: usize = s.len();
    let end: usize = at + 3;
    word_is(s, at, end, "get", false) || word_is(s, at, end, "set", false) || word_is(
        s,
        at,
        end,
        "del",
        false,
    ) || word_is(s, at, end, "noo", false)
}

/// Finds where the request starts in `packet`.
pub fn find_payload(packet: &[u8]) -> (r: usize)
    ensures
        r == payload_start(packet@),
        r <= packet@.len(),
{
    let end: usize = find_line_end(packet);
    if end >= packet.len() {
        return 0;
    }
    let head = slice_subrange(packet, 0, end);
    if end < 3 {
        proof {
            assert(last_command_word(head@, end - 3) == -1) by {
                reveal_with_fuel(last_command_word, 4);
            }
        }
        return 0;
    }
    let mut at: usize = end - 3;
    loop
        invariant
            at + 3 <= end,
            end == head@.len(),
            head@ == packet@.subrange(0, end as int),
            end < packet@.len(),
            end == first_line_end(packet@, 0),
            last_command_word(head@, end - 3) == last_command_word(head@, at as int),
        decreases at,
    {
        if is_command_word(head, at) {
            return at;
        }
        if at == 0 {
            proof {
                assert(last_command_word(head@, -1) == -1);
            }
            return 0;
        }
        at = at - 1;
    }
}

/// The key of a request, as the bytes of `payload` that its range names.
pub open spec fn key_of(payload: Seq<u8>, cmd: ParsedCommand) -> Seq<u8> {
    payload.subrange(cmd.key_range.start as int, cmd.key_range.end as int)
}

/// What became of a packet.
#[derive(Debug, Clone, Copy)]
pub enum PacketOutcome {
    /// The packet held a request, which was written as this event.
    Recorded(Event),
    /// The packet held nothing to record.
    Skipped,
}

/// The event that a session makes of a packet: none where the packet holds
/// no request that parses, or a store without a value.
pub open spec fn event_of_packet(
    anonymizer: Anonymizer,
    packet: Seq<u8>,
    packet_number: u64,
    now_micros: u64,
) -> Option<Event> {
    let payload = packet.subrange(payload_start(packet), packet.len() as int);
    if !valid_utf8(payload) || find_byte(payload, 0, CR) >= payload.len() || find_byte(
        payload,
        0,
        LF,
    ) >= payload.len() {
        None
    } else {
        match spec_parse_command(payload) {
            Err(_) => None,
            Ok((cmd, _)) => if cmd.key_range.start > cmd.key_range.end || cmd.key_range.end
                > payload.len() || cmd.key_range.end - cmd.key_range.start > u32::MAX {
                None
            } else if cmd.cmd_type == CommandType::Store && (cmd.value_size is None
                || cmd.value_size == Some(0u32)) {
                None
            } else {
                Some(
                    Event {
                        timestamp: now_micros,
                        conn_id: (packet_number % CONNECTION_SLOTS) as u16,
                        cmd_type: cmd.cmd_type,
                        flags: cmd.flags,
                        key_hash: anonymizer.fingerprint(key_of(payload, cmd)),
                        key_size: if cmd.cmd_type == CommandType::Noop {
                            0
                        } else {
                            (cmd.key_range.end - cmd.key_range.start) as u32
                        },
                        value_size: if cmd.cmd_type == CommandType::Store {
                            cmd.value_size
                        } else {
                            None
                        },
                    },
                )
            },
        }
    }
}

/// What a session keeps of a flow: the flow, the number of its connection,
/// and how many bytes of its stream are done with.
pub type FlowEntry = (FlowId, u16, usize);

/// Where the flow `id` stands in `table` at or behind `from`; the length of
/// the table where it does not.
pub open spec fn flow_place(table: Seq<FlowEntry>, id: FlowId, from: int) -> int
    decreases table.len() - from,
{
    if from < 0 || from >= table.len() {
        table.len() as int
    } else if table[from].0 == id {
        from
    } else {
        flow_place(table, id, from + 1)
    }
}

/// Whether `table` holds the flow `id`.
pub open spec fn knows_flow(table: Seq<FlowEntry>, id: FlowId) -> bool {
    flow_place(table, id, 0) < table.len()
}

/// The connection that the events of the flow `id` carry: the number that
/// `table` holds for the flow, and the next free number `next` for a flow
/// that it does not hold.
pub open spec fn connection_of(table: Seq<FlowEntry>, next: u16, id: FlowId) -> u16 {
    if knows_flow(table, id) {
        table[flow_place(table, id, 0)].1
    } else {
        next
    }
}

/// How many bytes of the stream of the flow `id` are done with: parsed into
/// requests, or skipped. None for a flow that the table does not hold.
pub open spec fn bytes_done(table: Seq<FlowEntry>, id: FlowId) -> usize {
    if knows_flow(table, id) {
        table[flow_place(table, id, 0)].2
    } else {
        0
    }
}

/// The table in which the flow `id` has `done` bytes done with: in its
/// place and under its number where the table holds the flow, and at the
/// end under the number `next` where it does not.
pub open spec fn with_progress(table: Seq<FlowEntry>, next: u16, id: FlowId, done: usize) -> Seq<
    FlowEntry,
> {
    if knows_flow(table, id) {
        let place = flow_place(table, id, 0);
        table.update(place, (id, table[place].1, done))
    } else {
        table.push((id, next, done))
    }
}

/// The next free number once the flow `id` has its place in the table.
/// Numbers are given in turn, and start again at zero behind the last one.
pub open spec fn next_number_after(table: Seq<FlowEntry>, next: u16, id: FlowId) -> u16 {
    if knows_flow(table, id) {
        next
    } else if next == u16::MAX {
        0
    } else {
        (next + 1) as u16
    }
}

/// The entries of `table` whose flows `reassembler` holds, in their order.
pub open spec fn kept_flows(table: Seq<FlowEntry>, reassembler: StreamReassembler) -> Seq<
    FlowEntry,
>
    decreases table.len(),
{
    if table.len() == 0 {
        Seq::empty()
    } else if reassembler.has_flow(table.last().0) {
        kept_flows(table.drop_last(), reassembler).push(table.last())
    } else {
        kept_flows(table.drop_last(), reassembler)
    }
}

/// The event of a request that starts at the place `request.1` of `stream`:
/// none where its key does not lie within the stream, or for a store
/// without a value.
pub open spec fn event_of_request(
    anonymizer: Anonymizer,
    stream: Seq<u8>,
    request: (ParsedCommand, usize),
    conn_id: u16,
    now_micros: u64,
) -> Option<Event> {
    let cmd = request.0;
    let start = request.1 + cmd.key_range.start;
    let end = request.1 + cmd.key_range.end;
    if start > end || end > stream.len() || end - start > u32::MAX {
        None
    } else if cmd.cmd_type == CommandType::Store && (cmd.value_size is None || cmd.value_size
        == Some(0u32)) {
        None
    } else {
        Some(
            Event {
                timestamp: now_micros,
                conn_id,
                cmd_type: cmd.cmd_type,
                flags: cmd.flags,
                key_hash: anonymizer.fingerprint(stream.subrange(start, end)),
                key_size: if cmd.cmd_type == CommandType::Noop {
                    0
                } else {
                    (end - start) as u32
                },
                value_size: if cmd.cmd_type == CommandType::Store {
                    cmd.value_size
                } else {
                    None
                },
            },
        )
    }
}

/// The events of the requests `requests` of `stream`, in their order.
pub open spec fn events_of_requests(
    anonymizer: Anonymizer,
    stream: Seq<u8>,
    requests: Seq<(ParsedCommand, usize)>,
    conn_id: u16,
    now_micros: u64,
) -> Seq<Event>
    decreases requests.len(),
{
    if requests.len() == 0 {
        Seq::empty()
    } else {
        let before = events_of_requests(
            anonymizer,
            stream,
            requests.drop_last(),
            conn_id,
            now_micros,
        );
        match event_of_request(anonymizer, stream, requests.last(), conn_id, now_micros) {
            Some(event) => before.push(event),
            None => before,
        }
    }
}

/// Where the parsing of a flow goes on when a segment comes. The flow held
/// `segments`, and `done` bytes of its stream were done with. A segment that
/// takes its place before the end of what was done with is late: its bytes
/// are passed over, so that what stood behind them is not parsed again.
pub open spec fn resumed_at(segments: Seq<Segment>, segment: Segment, done: usize) -> usize {
    if !holds_segment(segments, segment) && stream_before(segments, segment.0).len() < done {
        if done + segment.1.len() > usize::MAX {
            usize::MAX
        } else {
            (done + segment.1.len()) as usize
        }
    } else {
        done
    }
}

/// What a segment brings to a flow that held `segments` and had `done`
/// bytes of its stream done with: the bytes that have come without a gap
/// once the segment is in its place, the requests that stand among them in
/// full behind what is done with, and the place up to which they are done
/// with then.
pub open spec fn requests_after(
    segments: Seq<Segment>,
    segment: Segment,
    done: usize,
) -> (Seq<u8>, Seq<(ParsedCommand, usize)>, int) {
    let stream = contiguous_stream(with_segment(segments, segment).0);
    let from = resumed_at(segments, segment, done);
    (stream, stream_commands(stream, from as int).0, stream_commands(stream, from as int).1)
}

/// Segments that come in order are parsed as the bytes of their payloads
/// one after the other: where the segments of a flow came without a gap and
/// a segment starts where the last one ends, or is the first of its flow,
/// the requests that it brings are those that stand in full in the stream
/// from before with its payload behind it, from where the stream was done
/// with.
pub proof fn lemma_requests_in_order(
    segments: Seq<Segment>,
    segment: Segment,
    done: usize,
)
    requires
        ascending(segments),
        contiguous_prefix(segments) == segments.len(),
        segments.len() > 0 ==> segments.last().0 < segment.0 == segments.last().0
            + segments.last().1.len(),
        done <= stream_of(segments).len(),
    ensures
        requests_after(segments, segment, done) == (
            stream_of(segments) + segment.1,
            stream_commands(stream_of(segments) + segment.1, done as int).0,
            stream_commands(stream_of(segments) + segment.1, done as int).1,
        ),
{
    lemma_segment_in_order(segments, segment);
}

/// How many bytes of a stream stay done with when its first `freed` bytes
/// are released, where `done` were done with before.
pub open spec fn left_after_release(done: int, freed: nat) -> usize {
    if done >= freed {
        (done - freed) as usize
    } else {
        0
    }
}

/// The flows of a table as plain values.
pub open spec fn plain_flows(flows: Seq<(ConnKey, u16, usize)>) -> Seq<FlowEntry> {
    Seq::new(flows.len(), |i: int| (flow_id(flows[i].0), flows[i].1, flows[i].2))
}

/// Finds the place of the flow of `key` in `flows`.
fn find_flow(flows: &Vec<(ConnKey, u16, usize)>, key: &ConnKey) -> (r: usize)
    ensures
        r == flow_place(plain_flows(flows@), flow_id(*key), 0),
        r <= flows@.len(),
{
    let ghost table = plain_flows(flows@);
    let mut i: usize = 0;
    while i < flows.len() && !same_flow(&flows[i].0, key)
        invariant
            i <= flows@.len(),
            table == plain_flows(flows@),
            flow_place(table, flow_id(*key), 0) == flow_place(table, flow_id(*key), i as int),
        decreases flows@.len() - i,
    {
        i = i + 1;
    }
    i
}

/// Notes that `done` bytes of the flow of `key` are done with, where `place`
/// is the place of the flow and `next` the next free number.
fn set_progress(
    flows: &mut Vec<(ConnKey, u16, usize)>,
    place: usize,
    key: ConnKey,
    next: u16,
    done: usize,
)
    requires
        place == flow_place(plain_flows(old(flows)@), flow_id(key), 0),
    ensures
        plain_flows(final(flows)@) == with_progress(
            plain_flows(old(flows)@),
            next,
            flow_id(key),
            done,
        ),
{
    if place < flows.len() {
        let number: u16 = flows[place].1;
        flows[place] = (key, number, done);
    } else {
        flows.push((key, next, done));
    }
    assert(plain_flows(flows@) =~= with_progress(
        plain_flows(old(flows)@),
        next,
        flow_id(key),
        done,
    ));
}

/// Drops the entries of the flows that `reassembler` does not hold.
fn keep_held(flows: &mut Vec<(ConnKey, u16, usize)>, reassembler: &StreamReassembler)
    requires
        reassembler.wf(),
    ensures
        plain_flows(final(flows)@) == kept_flows(plain_flows(old(flows)@), *reassembler),
{
    let ghost table = plain_flows(flows@);
    let mut kept: Vec<(ConnKey, u16, usize)> = Vec::new();
    let mut i: usize = 0;
    proof {
        assert(plain_flows(kept@) =~= kept_flows(table.take(0), *reassembler));
    }
    while i < flows.len()
        invariant
            i <= flows@.len(),
            reassembler.wf(),
            table == plain_flows(flows@),
            plain_flows(kept@) == kept_flows(table.take(i as int), *reassembler),
        decreases flows@.len() - i,
    {
        let entry: (ConnKey, u16, usize) = flows[i];
        proof {
            assert(table.take(i + 1).drop_last() =~= table.take(i as int));
            assert(table.take(i + 1).last() == table[i as int]);
        }
        if reassembler.holds(entry.0) {
            proof {
                assert(plain_flows(kept@.push(entry)) =~= plain_flows(kept@).push(
                    table[i as int],
                ));
            }
            kept.push(entry);
        }
        i = i + 1;
    }
    proof {
        assert(table.take(i as int) =~= table);
    }
    *flows = kept;
}

/// The events of requests are valid, carry the connection and the time
/// given, and are no more than the requests.
pub proof fn lemma_events_of_requests(
    anonymizer: Anonymizer,
    stream: Seq<u8>,
    requests: Seq<(ParsedCommand, usize)>,
    conn_id: u16,
    now_micros: u64,
)
    ensures
        events_of_requests(anonymizer, stream, requests, conn_id, now_micros).len()
            <= requests.len(),
        forall|k: int|
            0 <= k < events_of_requests(anonymizer, stream, requests, conn_id, now_micros).len()
                ==> {
                let e = #[trigger] events_of_requests(
                    anonymizer,
                    stream,
                    requests,
                    conn_id,
                    now_micros,
                )[k];
                e.valid() && e.conn_id == conn_id && e.timestamp == now_micros
            },
    decreases requests.len(),
{
    if requests.len() > 0 {
        lemma_events_of_requests(anonymizer, stream, requests.drop_last(), conn_id, now_micros);
    }
}

/// Makes the event of the request `cmd` that starts at `at` in `stream`.
fn make_event(
    anonymizer: &Anonymizer,
    stream: &[u8],
    cmd: &ParsedCommand,
    at: usize,
    conn_id: u16,
    now_micros: u64,
) -> (r: Option<Event>)
    ensures
        r == event_of_request(*anonymizer, stream@, (*cmd, at), conn_id, now_micros),
        r matches Some(e) ==> e.valid(),
{
    let total: usize = stream.len();
    let start: usize = cmd.key_range.start;
    let end: usize = cmd.key_range.end;
    if at > total || start > end || end > total - at || end - start > u32::MAX as usize {
        return None;
    }
    let key = slice_subrange(stream, at + start, at + end);
    Event::from_command(
        now_micros,
        conn_id,
        cmd.cmd_type,
        cmd.flags,
        anonymizer.hash_key(key),
        (end - start) as u32,
        cmd.value_size,
    )
}

/// Makes the events of the requests `requests` of `stream`.
fn make_events(
    anonymizer: &Anonymizer,
    stream: &[u8],
    requests: &Vec<(ParsedCommand, usize)>,
    conn_id: u16,
    now_micros: u64,
) -> (r: Vec<Event>)
    ensures
        r@ == events_of_requests(*anonymizer, stream@, requests@, conn_id, now_micros),
        forall|k: int| 0 <= k < r@.len() ==> (#[trigger] r@[k]).valid(),
{
    let mut out: Vec<Event> = Vec::new();
    let mut i: usize = 0;
    while i < requests.len()
        invariant
            i <= requests@.len(),
            out@ == events_of_requests(
                *anonymizer,
                stream@,
                requests@.take(i as int),
                conn_id,
                now_micros,
            ),
            forall|k: int| 0 <= k < out@.len() ==> (#[trigger] out@[k]).valid(),
        decreases requests@.len() - i,
    {
        proof {
            assert(requests@.take(i + 1).drop_last() =~= requests@.take(i as int));
            assert(requests@.take(i + 1).last() == requests@[i as int]);
        }
        match make_event(anonymizer, stream, &requests[i].0, requests[i].1, conn_id, now_micros) {
            Some(event) => {
                out.push(event);
            },
            None => {},
        }
        i = i + 1;
    }
    proof {
        assert(requests@.take(i as int) =~= requests@);
    }
    out
}

/// Writes `events` one behind the other.
fn write_all(writer: &mut ProfileWriter, events: &Vec<Event>)
    requires
        old(writer).wf(),
        old(writer).events().len() + events@.len() <= u64::MAX,
        forall|k: int| 0 <= k < events@.len() ==> (#[trigger] events@[k]).valid(),
    ensures
        final(writer).wf(),
        final(writer).events() == old(writer).events() + events@,
        final(writer).handed_out() == old(writer).handed_out(),
{
    let mut i: usize = 0;
    proof {
        assert(writer.events() =~= old(writer).events() + events@.take(0));
    }
    while i < events.len()
        invariant
            i <= events@.len(),
            writer.wf(),
            writer.events() == old(writer).events() + events@.take(i as int),
            writer.handed_out() == old(writer).handed_out(),
            old(writer).events().len() + events@.len() <= u64::MAX,
            forall|k: int| 0 <= k < events@.len() ==> (#[trigger] events@[k]).valid(),
        decreases events@.len() - i,
    {
        proof {
            assert(events@[i as int].valid());
            assert((old(writer).events() + events@.take(i as int)).push(events@[i as int])
                =~= old(writer).events() + events@.take(i + 1));
        }
        let _ = writer.write_event(&events[i]);
        i = i + 1;
    }
    proof {
        assert(events@.take(i as int) =~= events@);
    }
}

/// A recording in progress.
pub struct RecordSession {
    parser: MemcacheParser,
    anonymizer: Anonymizer,
    writer: ProfileWriter,
    reassembler: StreamReassembler,
    flows: Vec<(ConnKey, u16, usize)>,
    next_number: u16,
    packet_count: u64,
    event_count: u64,
}

impl RecordSession {
    /// The writer that holds what was recorded.
    pub closed spec fn writer(&self) -> ProfileWriter {
        self.writer
    }

    /// The anonymizer of the session.
    pub closed spec fn anonymizer(&self) -> Anonymizer {
        self.anonymizer
    }

    /// The reassembler that holds the segments of the flows.
    pub closed spec fn reassembler(&self) -> StreamReassembler {
        self.reassembler
    }

    /// The flows that the session follows, in the order in which their
    /// first segments came, each with the number of its connection and the
    /// number of bytes of its stream that are done with.
    pub closed spec fn flow_table(&self) -> Seq<FlowEntry> {
        plain_flows(self.flows@)
    }

    /// The number that the next new flow gets.
    pub closed spec fn next_number(&self) -> u16 {
        self.next_number
    }

    /// How many packets the session has seen.
    pub closed spec fn packets(&self) -> u64 {
        self.packet_count
    }

    /// How many events the session has recorded.
    pub closed spec fn events_recorded(&self) -> u64 {
        self.event_count
    }

    /// The writer and the reassembler are sound, and the writer has written
    /// the events counted.
    pub open spec fn wf(&self) -> bool {
        &&& self.writer().wf()
        &&& self.reassembler().wf()
        &&& self.events_recorded() == self.writer().events().len()
    }

    /// A session that has seen nothing, with keys anonymised under `salt`.
    pub fn new(salt: u64) -> (r: RecordSession)
        ensures
            r.wf(),
            r.anonymizer().salt() == salt,
            r.packets() == 0,
            r.events_recorded() == 0,
            r.writer().events() == Seq::<Event>::empty(),
            r.writer().handed_out() == Seq::<u8>::empty(),
            r.flow_table() == Seq::<FlowEntry>::empty(),
            r.next_number() == 0,
            r.reassembler().flow_cap() == DEFAULT_FLOW_CAP,
            r.reassembler().idle_window() == DEFAULT_IDLE_WINDOW,
            forall|id: FlowId| !r.reassembler().has_flow(id),
            forall|id: FlowId| r.reassembler().segments(id) == Seq::<Segment>::empty(),
    {
        let flows: Vec<(ConnKey, u16, usize)> = Vec::new();
        assert(plain_flows(flows@) =~= Seq::<FlowEntry>::empty());
        RecordSession {
            parser: MemcacheParser::new(),
            anonymizer: Anonymizer::new(salt),
            writer: ProfileWriter::new(),
            reassembler: StreamReassembler::new(),
            flows,
            next_number: 0,
            packet_count: 0,
            event_count: 0,
        }
    }

    /// A session that has seen nothing, with keys anonymised under `salt`,
    /// whose flows hold `flow_cap` bytes at most and are given up after
    /// `idle_window` microseconds without a segment.
    pub fn with_limits(salt: u64, flow_cap: usize, idle_window: u64) -> (r: RecordSession)
        ensures
            r.wf(),
            r.anonymizer().salt() == salt,
            r.packets() == 0,
            r.events_recorded() == 0,
            r.writer().events() == Seq::<Event>::empty(),
            r.writer().handed_out() == Seq::<u8>::empty(),
            r.flow_table() == Seq::<FlowEntry>::empty(),
            r.next_number() == 0,
            r.reassembler().flow_cap() == flow_cap,
            r.reassembler().idle_window() == idle_window,
            forall|id: FlowId| !r.reassembler().has_flow(id),
            forall|id: FlowId| r.reassembler().segments(id) == Seq::<Segment>::empty(),
    {
        let flows: Vec<(ConnKey, u16, usize)> = Vec::new();
        assert(plain_flows(flows@) =~= Seq::<FlowEntry>::empty());
        RecordSession {
            parser: MemcacheParser::new(),
            anonymizer: Anonymizer::new(salt),
            writer: ProfileWriter::new(),
            reassembler: StreamReassembler::with_limits(flow_cap, idle_window),
            flows,
            next_number: 0,
            packet_count: 0,
            event_count: 0,
        }
    }

    /// How many packets the session has seen.
    pub fn packet_count(&self) -> (r: u64)
        ensures
            r == self.packets(),
    {
        self.packet_count
    }

    /// How many events the session has recorded.
    pub fn event_count(&self) -> (r: u64)
        ensures
            r == self.events_recorded(),
    {
        self.event_count
    }

    /// Takes in one packet, seen `now_micros` microseconds after the start
    /// of the capture. Where the packet holds a request, the request is
    /// written as an event: its key anonymised, its connection told from the
    /// number of the packet.
    pub fn on_packet(&mut self, packet: &[u8], now_micros: u64) -> (r: Result<
        PacketOutcome,
        ProfileError,
    >)
        requires
            old(self).wf(),
            old(self).packets() < u64::MAX,
        ensures
            final(self).wf(),
            final(self).packets() == old(self).packets() + 1,
            final(self).anonymizer() == old(self).anonymizer(),
            final(self).reassembler() == old(self).reassembler(),
            final(self).flow_table() == old(self).flow_table(),
            final(self).next_number() == old(self).next_number(),
            final(self).writer().handed_out() == old(self).writer().handed_out(),
            match event_of_packet(
                old(self).anonymizer(),
                packet@,
                (old(self).packets() + 1) as u64,
                now_micros,
            ) {
                None => r matches Ok(PacketOutcome::Skipped) && final(self).writer().events()
                    == old(self).writer().events(),
                Some(event) => event.valid() && if old(self).writer().events().len() < u64::MAX {
                    r matches Ok(PacketOutcome::Recorded(e))
                        && e == event
                        && final(self).writer().events() == old(self).writer().events().push(event)
                } else {
                    r matches Err(e)
                        && e == ProfileError::TooManyEvents
                        && final(self).writer().events() == old(self).writer().events()
                },
            },
    {
        self.packet_count = self.packet_count + 1;
        let start: usize = find_payload(packet);
        let payload = slice_subrange(packet, start, packet.len());
        if !is_utf8(payload) || find(payload, 0, CR) >= payload.len() || find(payload, 0, LF)
            >= payload.len() {
            return Ok(PacketOutcome::Skipped);
        }
        let cmd = match self.parser.parse_command(payload) {
            Ok((cmd, _)) => cmd,
            Err(_) => {
                return Ok(PacketOutcome::Skipped);
            },
        };
        let key_start: usize = cmd.key_range.start;
        let key_end: usize = cmd.key_range.end;
        if key_start > key_end || key_end > payload.len() || key_end - key_start
            > u32::MAX as usize {
            return Ok(PacketOutcome::Skipped);
        }
        let key = slice_subrange(payload, key_start, key_end);
        let made = Event::from_command(
            now_micros,
            (self.packet_count % CONNECTION_SLOTS) as u16,
            cmd.cmd_type,
            cmd.flags,
            self.anonymizer.hash_key(key),
            (key_end - key_start) as u32,
            cmd.value_size,
        );
        let event = match made {
            Some(event) => event,
            None => {
                return Ok(PacketOutcome::Skipped);
            },
        };
        match self.writer.write_event(&event) {
            Err(e) => Err(e),
            Ok(()) => {
                self.event_count = self.event_count + 1;
                Ok(PacketOutcome::Recorded(event))
            },
        }
    }

    /// Takes in one segment of the flow `flow`, seen `now_micros`
    /// microseconds after the start of the capture: its payload goes to its
    /// place in the flow at the sequence number `seq`. Every request that
    /// then stands in full among the bytes of the flow that have come
    /// without a gap, behind what was done with before, is written as an
    /// event: its key anonymised, its connection the number of the flow, its
    /// time the time of this segment. A flow gets its number with its first
    /// segment: the numbers are given in turn. The flow is then done with up to the
    /// end of the last such request; a request of which too little has come,
    /// and what stands behind a gap, wait for the segments to come. A
    /// segment that comes too late, before the end of what was done with, is
    /// passed over. Where the flow then holds more than its cap, its oldest
    /// contiguous part is released, and counts no longer. Tells what became
    /// of the segment, and how many events were written.
    ///
    /// Where the writer has no room for the events, none is written and
    /// nothing more is done with; the flow keeps the segment.
    pub fn on_segment(&mut self, flow: ConnKey, seq: u32, payload: &[u8], now_micros: u64) -> (r:
        Result<(SegmentOutcome, usize), ProfileError>)
        requires
            old(self).wf(),
        ensures
            final(self).wf(),
            final(self).packets() == old(self).packets(),
            final(self).anonymizer() == old(self).anonymizer(),
            final(self).writer().handed_out() == old(self).writer().handed_out(),
            final(self).reassembler().now() == now_micros,
            final(self).reassembler().flow_cap() == old(self).reassembler().flow_cap(),
            final(self).reassembler().idle_window() == old(self).reassembler().idle_window(),
            final(self).reassembler().has_flow(flow_id(flow)),
            final(self).reassembler().last_seen(flow_id(flow)) == now_micros,
            final(self).next_number() == next_number_after(
                old(self).flow_table(),
                old(self).next_number(),
                flow_id(flow),
            ),
            forall|id: FlowId|
                id != flow_id(flow) ==> final(self).reassembler().segments(id) == old(
                    self,
                ).reassembler().segments(id) && final(self).reassembler().last_seen(id) == old(
                    self,
                ).reassembler().last_seen(id) && final(self).reassembler().has_flow(id) == old(
                    self,
                ).reassembler().has_flow(id),
            ({
                let id = flow_id(flow);
                let held = with_segment(old(self).reassembler().segments(id), (seq, payload@));
                let before = bytes_done(old(self).flow_table(), id);
                let (stream, requests, done) = requests_after(
                    old(self).reassembler().segments(id),
                    (seq, payload@),
                    before,
                );
                let events = events_of_requests(
                    old(self).anonymizer(),
                    stream,
                    requests,
                    connection_of(old(self).flow_table(), old(self).next_number(), id),
                    now_micros,
                );
                let cap = old(self).reassembler().flow_cap();
                if old(self).writer().events().len() + events.len() <= u64::MAX {
                    &&& r == Ok::<(SegmentOutcome, usize), ProfileError>(
                        (held.1, events.len() as usize),
                    )
                    &&& final(self).writer().events() == old(self).writer().events() + events
                    &&& final(self).reassembler().segments(id) == released(held.0, cap).1
                    &&& final(self).flow_table() == with_progress(
                        old(self).flow_table(),
                        old(self).next_number(),
                        id,
                        left_after_release(done, released(held.0, cap).0.len()),
                    )
                } else {
                    &&& r == Err::<(SegmentOutcome, usize), ProfileError>(
                        ProfileError::TooManyEvents,
                    )
                    &&& final(self).writer().events() == old(self).writer().events()
                    &&& final(self).reassembler().segments(id) == held.0
                    &&& final(self).flow_table() == with_progress(
                        old(self).flow_table(),
                        old(self).next_number(),
                        id,
                        resumed_at(old(self).reassembler().segments(id), (seq, payload@), before),
                    )
                }
            }),
    {
        self.reassembler.set_time(now_micros);
        let ahead: usize = self.reassembler.bytes_before(flow, seq);
        let outcome = self.reassembler.add_packet(flow, seq, payload);
        let stream = self.reassembler.get_contiguous(flow);
        let place: usize = find_flow(&self.flows, &flow);
        let next: u16 = self.next_number;
        let (conn_id, before): (u16, usize) = if place < self.flows.len() {
            (self.flows[place].1, self.flows[place].2)
        } else {
            self.next_number = if next == u16::MAX {
                0
            } else {
                next + 1
            };
            (next, 0)
        };
        let fresh: bool = match outcome {
            SegmentOutcome::Duplicate => false,
            _ => true,
        };
        let from: usize = if fresh && ahead < before {
            if payload.len() > usize::MAX - before {
                usize::MAX
            } else {
                before + payload.len()
            }
        } else {
            before
        };
        let (requests, done) = self.parser.parse_available_from(stream.as_slice(), from);
        let events = make_events(
            &self.anonymizer,
            stream.as_slice(),
            &requests,
            conn_id,
            now_micros,
        );
        let room: u64 = u64::MAX - self.writer.event_count();
        if events.len() as u64 > room {
            set_progress(&mut self.flows, place, flow, next, from);
            return Err(ProfileError::TooManyEvents);
        }
        write_all(&mut self.writer, &events);
        self.event_count = self.event_count + events.len() as u64;
        let freed: usize = if self.reassembler.exceeds_cap(flow) {
            self.reassembler.release(flow).len()
        } else {
            0
        };
        let left: usize = if done >= freed {
            done - freed
        } else {
            0
        };
        set_progress(&mut self.flows, place, flow, next, left);
        Ok((outcome, events.len()))
    }

    /// Gives up, at the time `now_micros`, the flows that have been idle for
    /// longer than the idle window, and says how many they were. Nothing is
    /// kept of such a flow: with its next segment it starts anew, as a new
    /// connection.
    pub fn evict_idle(&mut self, now_micros: u64) -> (r: usize)
        requires
            old(self).wf(),
        ensures
            final(self).wf(),
            final(self).packets() == old(self).packets(),
            final(self).anonymizer() == old(self).anonymizer(),
            final(self).writer() == old(self).writer(),
            final(self).reassembler().now() == now_micros,
            final(self).reassembler().flow_cap() == old(self).reassembler().flow_cap(),
            final(self).reassembler().idle_window() == old(self).reassembler().idle_window(),
            r == old(self).reassembler().flows() - final(self).reassembler().flows(),
            forall|id: FlowId|
                final(self).reassembler().has_flow(id) == (old(self).reassembler().has_flow(id)
                    && !is_idle(
                    old(self).reassembler().last_seen(id),
                    old(self).reassembler().idle_window(),
                    now_micros,
                )),
            forall|id: FlowId|
                final(self).reassembler().has_flow(id) ==> final(self).reassembler().segments(id)
                    == old(self).reassembler().segments(id),
            forall|id: FlowId|
                !final(self).reassembler().has_flow(id) ==> final(self).reassembler().segments(id)
                    == Seq::<Segment>::empty(),
            final(self).flow_table() == kept_flows(
                old(self).flow_table(),
                final(self).reassembler(),
            ),
            final(self).next_number() == old(self).next_number(),
    {
        self.reassembler.set_time(now_micros);
        let evicted: usize = self.reassembler.evict_idle();
        keep_held(&mut self.flows, &self.reassembler);
        evicted
    }

    /// Hands out the bytes recorded since the last call, for the caller to
    /// append to the file.
    pub fn take_bytes(&mut self) -> (r: Vec<u8>)
        requires
            old(self).wf(),
        ensures
            final(self).wf(),
            r@ == old(self).writer().pending(),
            final(self).writer().pending() == Seq::<u8>::empty(),
            final(self).writer().handed_out() == old(self).writer().handed_out() + r@,
            final(self).writer().events() == old(self).writer().events(),
            final(self).packets() == old(self).packets(),
            final(self).anonymizer() == old(self).anonymizer(),
            final(self).reassembler() == old(self).reassembler(),
            final(self).flow_table() == old(self).flow_table(),
            final(self).next_number() == old(self).next_number(),
    {
        self.writer.take_bytes()
    }

    /// Ends the recording: hands out the bytes still to be written, the
    /// trailer last. With what was handed out before they are the file of a
    /// profile that holds the events recorded.
    pub fn finish(self) -> (r: Vec<u8>)
        requires
            self.wf(),
        ensures
            self.writer().handed_out() + r@ == crate::profile::layout::profile_image(
                self.writer().events(),
            ),
    {
        self.writer.finish()
    }
}

} // verus!
