//! Putting the segments of each flow back in sequence order.

use vstd::prelude::*;
use vstd::string::*;

verus! {

/// One direction of a TCP connection: source address and port, destination
/// address and port.
pub type ConnKey = ((&'static str, u16), (&'static str, u16));

/// A flow key as plain values: the bytes of both addresses, and both ports.
pub type FlowId = (Seq<u8>, u16, Seq<u8>, u16);

/// A segment as plain values: its sequence number and its payload.
pub type Segment = (u32, Seq<u8>);

/// The plain value of a flow key.
pub open spec fn flow_id(key: ConnKey) -> FlowId {
    ((key.0).0.spec_bytes(), (key.0).1, (key.1).0.spec_bytes(), (key.1).1)
}

/// What became of a segment handed to the reassembler.
#[derive(Debug, Clone, Copy, PartialEq, Eq, Structural)]
pub enum SegmentOutcome {
    /// The segment was put in its place in the flow.
    Added,
    /// The flow holds the same payload at the same sequence number already.
    Duplicate,
    /// The segment overlaps one that the flow holds, with other bytes: a
    /// protocol violation. The segment was put in its place all the same.
    Conflict,
}

/// Whether two segments hold different bytes at one place of the sequence
/// space.
pub open spec fn segments_conflict(a: Segment, b: Segment) -> bool {
    exists|i: int|
        0 <= i < a.1.len() && b.0 <= a.0 + i < b.0 + b.1.len() && #[trigger] a.1[i] != b.1[a.0 + i
            - b.0]
}

/// Whether `segs` holds the very segment `s`.
pub open spec fn holds_segment(segs: Seq<Segment>, s: Segment) -> bool {
    exists|i: int| 0 <= i < segs.len() && segs[i] == s
}

/// Whether `s` conflicts with a segment of `segs`.
pub open spec fn conflicts_with_any(segs: Seq<Segment>, s: Segment) -> bool {
    exists|i: int| 0 <= i < segs.len() && segments_conflict(#[trigger] segs[i], s)
}

/// Whether `segs` is in ascending order of sequence numbers.
pub open spec fn ascending(segs: Seq<Segment>) -> bool {
    forall|i: int, j: int| 0 <= i <= j < segs.len() ==> segs[i].0 <= segs[j].0
}

/// The first place at or behind `from` whose segment has a sequence number
/// above `seq`; the length of `segs` where there is none. A new segment put
/// there stands behind every segment of its own sequence number.
pub open spec fn place_for(segs: Seq<Segment>, from: int, seq: u32) -> int
    decreases segs.len() - from,
{
    if from >= segs.len() {
        segs.len() as int
    } else if segs[from].0 > seq {
        from
    } else {
        place_for(segs, from + 1, seq)
    }
}

/// What a flow holds after `s` was handed in, and what became of `s`. A
/// segment that the flow holds already is absorbed. Any other takes its
/// place, and is flagged where it contradicts a segment of the flow.
pub open spec fn with_segment(segs: Seq<Segment>, s: Segment) -> (Seq<Segment>, SegmentOutcome) {
    if holds_segment(segs, s) {
        (segs, SegmentOutcome::Duplicate)
    } else if conflicts_with_any(segs, s) {
        (segs.insert(place_for(segs, 0, s.0), s), SegmentOutcome::Conflict)
    } else {
        (segs.insert(place_for(segs, 0, s.0), s), SegmentOutcome::Added)
    }
}

/// The payloads of `segs`, one after the other.
pub open spec fn stream_of(segs: Seq<Segment>) -> Seq<u8>
    decreases segs.len(),
{
    if segs.len() == 0 {
        Seq::empty()
    } else {
        stream_of(segs.drop_last()) + segs.last().1
    }
}

/// Where the run of segments that starts at `i` ends: the first place behind
/// `i` whose segment does not start where the one before it ends; the length
/// of `segs` where the run reaches the end.
pub open spec fn run_end(segs: Seq<Segment>, i: int) -> int
    decreases segs.len() - i,
{
    if i + 1 >= segs.len() {
        segs.len() as int
    } else if segs[i + 1].0 == segs[i].0 + segs[i].1.len() {
        run_end(segs, i + 1)
    } else {
        i + 1
    }
}

/// How many segments the oldest contiguous prefix of a flow takes: the run
/// of segments from the first one on in which each starts where the one
/// before it ends.
pub open spec fn contiguous_prefix(segs: Seq<Segment>) -> int {
    run_end(segs, 0)
}

/// What is released from a flow that holds `segs` under a cap of `cap`
/// bytes, and what stays: the oldest contiguous prefix goes where the flow
/// holds more than the cap, and nothing goes where it does not.
pub open spec fn released(segs: Seq<Segment>, cap: usize) -> (Seq<u8>, Seq<Segment>) {
    if stream_of(segs).len() > cap {
        (
            stream_of(segs.take(contiguous_prefix(segs))),
            segs.skip(contiguous_prefix(segs)),
        )
    } else {
        (Seq::empty(), segs)
    }
}

/// The bytes of a flow that have come without a gap: the payloads of its
/// oldest contiguous run of segments, one after the other.
pub open spec fn contiguous_stream(segs: Seq<Segment>) -> Seq<u8> {
    stream_of(segs.take(contiguous_prefix(segs)))
}

/// The bytes of a flow that stand before the place that a new segment with
/// the sequence number `seq` takes.
pub open spec fn stream_before(segs: Seq<Segment>, seq: u32) -> Seq<u8> {
    stream_of(segs.take(place_for(segs, 0, seq)))
}

/// Whether a flow last seen at `last_seen` has been idle for more than
/// `window` at the time `now`.
pub open spec fn is_idle(last_seen: u64, window: u64, now: u64) -> bool {
    last_seen + window < now
}

/// The stream of segments one after the other is their streams one after
/// the other.
pub proof fn lemma_stream_of_concat(a: Seq<Segment>, b: Seq<Segment>)
    ensures
        stream_of(a + b) == stream_of(a) + stream_of(b),
    decreases b.len(),
{
    if b.len() == 0 {
        assert(a + b =~= a);
        assert(stream_of(a) + stream_of(b) =~= stream_of(a));
    } else {
        lemma_stream_of_concat(a, b.drop_last());
        assert((a + b).drop_last() =~= a + b.drop_last());
        assert(stream_of(a + b) =~= stream_of(a) + stream_of(b));
    }
}

/// No segment is lost: a segment that a flow does not hold already stands in
/// the stream of the flow from then on, behind the payloads of the segments
/// that do not come after it and before the payloads of those that do, and
/// the flow stays in ascending order.
pub proof fn lemma_segment_in_stream(segs: Seq<Segment>, s: Segment)
    requires
        ascending(segs),
        !holds_segment(segs, s),
    ensures
        0 <= place_for(segs, 0, s.0) <= segs.len(),
        with_segment(segs, s).0 == segs.insert(place_for(segs, 0, s.0), s),
        ascending(with_segment(segs, s).0),
        stream_of(with_segment(segs, s).0) == stream_of(segs.take(place_for(segs, 0, s.0))) + s.1
            + stream_of(segs.skip(place_for(segs, 0, s.0))),
        stream_of(with_segment(segs, s).0).len() == stream_of(segs).len() + s.1.len(),
        forall|i: int| 0 <= i < place_for(segs, 0, s.0) ==> (#[trigger] segs[i]).0 <= s.0,
        forall|i: int| place_for(segs, 0, s.0) <= i < segs.len() ==> (#[trigger] segs[i]).0 > s.0,
{
    lemma_place_for(segs, 0, s.0);
    let place = place_for(segs, 0, s.0);
    let after = segs.insert(place, s);
    let front = segs.take(place);
    let back = segs.skip(place);
    assert forall|i: int| place <= i < segs.len() implies (#[trigger] segs[i]).0 > s.0 by {
        assert(segs[place].0 <= segs[i].0);
    }
    assert forall|a: int, b: int| 0 <= a <= b < after.len() implies after[a].0 <= after[b].0 by {
        if a < place && b > place {
            assert(segs[b - 1].0 >= segs[place].0);
        }
    }
    assert(after =~= front + seq![s] + back);
    assert(segs =~= front + back);
    lemma_stream_of_concat(front + seq![s], back);
    lemma_stream_of_concat(front, seq![s]);
    lemma_stream_of_concat(front, back);
    assert(stream_of(seq![s]) =~= s.1) by {
        assert(seq![s].drop_last() =~= Seq::<Segment>::empty());
        assert(stream_of(Seq::<Segment>::empty()) =~= Seq::<u8>::empty());
    }
}

/// A run that reaches the end of a flow goes on through a segment that is
/// put at the end and starts where the last one ends.
proof fn lemma_run_goes_on(segs: Seq<Segment>, s: Segment, i: int)
    requires
        0 <= i < segs.len(),
        run_end(segs, i) == segs.len(),
        s.0 == segs.last().0 + segs.last().1.len(),
    ensures
        run_end(segs.push(s), i) == segs.len() + 1,
    decreases segs.len() - i,
{
    let after = segs.push(s);
    if i + 1 < segs.len() {
        assert(after[i] == segs[i] && after[i + 1] == segs[i + 1]);
        lemma_run_goes_on(segs, s, i + 1);
    } else {
        assert(after[i] == segs.last() && after[i + 1] == s);
        assert(run_end(after, i + 1) == after.len());
    }
}

/// Segments that come in order give their payloads one after the other: a
/// segment that starts where the last one of a flow without a gap ends, or
/// that is the first of its flow, goes to the end of the flow, none of whose
/// bytes stand behind its place, and the bytes that have come without a gap
/// are those from before and then its payload.
pub proof fn lemma_segment_in_order(segs: Seq<Segment>, s: Segment)
    requires
        ascending(segs),
        contiguous_prefix(segs) == segs.len(),
        segs.len() > 0 ==> segs.last().0 < s.0 == segs.last().0 + segs.last().1.len(),
    ensures
        with_segment(segs, s).0 == segs.push(s),
        !(with_segment(segs, s).1 is Duplicate),
        stream_before(segs, s.0) == stream_of(segs),
        contiguous_stream(segs) == stream_of(segs),
        contiguous_stream(with_segment(segs, s).0) == stream_of(segs) + s.1,
{
    lemma_place_for(segs, 0, s.0);
    let place = place_for(segs, 0, s.0);
    if place < segs.len() {
        assert(segs[place].0 <= segs.last().0);
    }
    if holds_segment(segs, s) {
        let i = choose|i: int| 0 <= i < segs.len() && segs[i] == s;
        assert(segs[i].0 <= segs.last().0);
    }
    let after = segs.push(s);
    assert(segs.insert(place, s) =~= after);
    assert(segs.take(place) =~= segs);
    assert(segs.take(contiguous_prefix(segs)) =~= segs);
    if segs.len() > 0 {
        lemma_run_goes_on(segs, s, 0);
    }
    assert(after.take(contiguous_prefix(after)) =~= after);
    assert(after.drop_last() =~= segs);
}

/// The place for a new segment lies within the flow, behind the segments
/// passed over, none of which comes after the new one.
pub proof fn lemma_place_for(segs: Seq<Segment>, from: int, seq: u32)
    requires
        0 <= from <= segs.len(),
    ensures
        from <= place_for(segs, from, seq) <= segs.len(),
        forall|i: int| from <= i < place_for(segs, from, seq) ==> (#[trigger] segs[i]).0 <= seq,
        place_for(segs, from, seq) < segs.len() ==> segs[place_for(segs, from, seq)].0 > seq,
    decreases segs.len() - from,
{
    if from < segs.len() && segs[from].0 <= seq {
        lemma_place_for(segs, from + 1, seq);
    }
}

/// The segments of a buffer as plain values.
pub open spec fn plain_segments(segs: Seq<(u32, Vec<u8>)>) -> Seq<Segment> {
    Seq::new(segs.len(), |i: int| (segs[i].0, segs[i].1@))
}

/// Whether two flow keys name the same flow.
pub fn same_flow(a: &ConnKey, b: &ConnKey) -> (r: bool)
    ensures
        r == (flow_id(*a) == flow_id(*b)),
{
    let r: bool = (a.0).1 == (b.0).1 && (a.1).1 == (b.1).1 && same_bytes(
        (a.0).0.as_bytes(),
        (b.0).0.as_bytes(),
    ) && same_bytes((a.1).0.as_bytes(), (b.1).0.as_bytes());
    r
}

/// Whether two byte strings are equal.
pub fn same_bytes(a: &[u8], b: &[u8]) -> (r: bool)
    ensures
        r == (a@ == b@),
{
    if a.len() != b.len() {
        return false;
    }
    let mut i: usize = 0;
    while i < a.len()
        invariant
            i <= a@.len(),
            a@.len() == b@.len(),
            forall|j: int| 0 <= j < i ==> a@[j] == b@[j],
        decreases a@.len() - i,
    {
        if a[i] != b[i] {
            return false;
        }
        i = i + 1;
    }
    assert(a@ =~= b@);
    true
}

/// Whether the segment at `seq_a` with payload `a` and the one at `seq_b`
/// with payload `b` hold different bytes at one place of the sequence space.
pub fn payloads_conflict(seq_a: u32, a: &[u8], seq_b: u32, b: &[u8]) -> (r: bool)
    ensures
        r == segments_conflict((seq_a, a@), (seq_b, b@)),
{
    let end_a: u128 = seq_a as u128 + a.len() as u128;
    let end_b: u128 = seq_b as u128 + b.len() as u128;
    let low: u128 = if seq_a > seq_b {
        seq_a as u128
    } else {
        seq_b as u128
    };
    let high: u128 = if end_a < end_b {
        end_a
    } else {
        end_b
    };
    let mut p: u128 = low;
    while p < high
        invariant
            low <= p,
            low == (if seq_a > seq_b {
                seq_a as u128
            } else {
                seq_b as u128
            }),
            high <= seq_a + a@.len(),
            high <= seq_b + b@.len(),
            high == seq_a + a@.len() || high == seq_b + b@.len(),
            a@.len() <= usize::MAX,
            b@.len() <= usize::MAX,
            forall|i: int|
                0 <= i < a@.len() && seq_b <= seq_a + i < seq_b + b@.len() && seq_a + i < p
                    ==> #[trigger] a@[i] == b@[seq_a + i - seq_b],
        decreases high - p,
    {
        assert(p - seq_a < a@.len() && p - seq_b < b@.len());
        let i: usize = (p - seq_a as u128) as usize;
        let j: usize = (p - seq_b as u128) as usize;
        if a[i] != b[j] {
            proof {
                let sa: Segment = (seq_a, a@);
                let sb: Segment = (seq_b, b@);
                assert(0 <= i < sa.1.len() && sb.0 <= sa.0 + i < sb.0 + sb.1.len() && sa.1[i as int]
                    != sb.1[sa.0 + i - sb.0]);
                assert(segments_conflict(sa, sb));
            }
            return true;
        }
        p = p + 1;
    }
    false
}

/// Looks among `segments` for the segment `data` at `seq` itself, and for one
/// that contradicts it.
fn scan_segments(segments: &Vec<(u32, Vec<u8>)>, seq: u32, data: &[u8]) -> (r: (bool, bool))
    ensures
        r.0 == holds_segment(plain_segments(segments@), (seq, data@)),
        r.1 == conflicts_with_any(plain_segments(segments@), (seq, data@)),
{
    let ghost segs = plain_segments(segments@);
    let mut duplicate: bool = false;
    let mut conflict: bool = false;
    let mut i: usize = 0;
    while i < segments.len()
        invariant
            i <= segments@.len(),
            segs == plain_segments(segments@),
            duplicate == exists|j: int| 0 <= j < i && segs[j] == (seq, data@),
            conflict == exists|j: int|
                0 <= j < i && segments_conflict(#[trigger] segs[j], (seq, data@)),
        decreases segments@.len() - i,
    {
        let held = &segments[i];
        assert(segs[i as int] == (held.0, held.1@));
        if held.0 == seq && same_bytes(held.1.as_slice(), data) {
            duplicate = true;
        }
        if payloads_conflict(held.0, held.1.as_slice(), seq, data) {
            conflict = true;
        }
        i = i + 1;
    }
    (duplicate, conflict)
}

/// Finds the place among `segments` for a new segment at `seq`.
fn find_place(segments: &Vec<(u32, Vec<u8>)>, seq: u32) -> (place: usize)
    ensures
        place == place_for(plain_segments(segments@), 0, seq),
        place <= segments@.len(),
        forall|j: int| 0 <= j < place ==> plain_segments(segments@)[j].0 <= seq,
        place < segments@.len() ==> plain_segments(segments@)[place as int].0 > seq,
{
    let ghost segs = plain_segments(segments@);
    let mut place: usize = 0;
    while place < segments.len() && segments[place].0 <= seq
        invariant
            place <= segments@.len(),
            segs == plain_segments(segments@),
            place_for(segs, 0, seq) == place_for(segs, place as int, seq),
            forall|j: int| 0 <= j < place ==> segs[j].0 <= seq,
        decreases segments@.len() - place,
    {
        place = place + 1;
    }
    place
}

/// The bytes that a flow may hold before its oldest part is released, where
/// nothing else is asked for.
pub const DEFAULT_FLOW_CAP: usize = 1048576;

/// The time, in microseconds, that a flow may stay idle before it is
/// evicted, where nothing else is asked for.
pub const DEFAULT_IDLE_WINDOW: u64 = 60000000;

/// The segments of one flow.
struct StreamBuffer {
    key: ConnKey,
    segments: Vec<(u32, Vec<u8>)>,
    last_seen: u64,
}

/// No flow is held twice.
spec fn distinct_flows(streams: Seq<StreamBuffer>) -> bool {
    forall|i: int, j: int|
        0 <= i < j < streams.len() ==> flow_id(streams[i].key) != flow_id(streams[j].key)
}

/// Whether `streams` holds the flow `id`.
spec fn holds_flow(streams: Seq<StreamBuffer>, id: FlowId) -> bool {
    exists|i: int| 0 <= i < streams.len() && flow_id(#[trigger] streams[i].key) == id
}

/// Where `streams` holds the flow `id`.
spec fn place_of(streams: Seq<StreamBuffer>, id: FlowId) -> int {
    choose|i: int| 0 <= i < streams.len() && flow_id(#[trigger] streams[i].key) == id
}

/// Among distinct flows, the flow at `i` is found at `i`.
proof fn lemma_place_of(streams: Seq<StreamBuffer>, i: int)
    requires
        distinct_flows(streams),
        0 <= i < streams.len(),
    ensures
        holds_flow(streams, flow_id(streams[i].key)),
        place_of(streams, flow_id(streams[i].key)) == i,
{
    let id = flow_id(streams[i].key);
    let k = place_of(streams, id);
    if k < i {
        assert(false);
    }
    if i < k {
        assert(false);
    }
}

/// A change of one flow that keeps its key leaves every flow where it is.
proof fn lemma_update_frame(before: Seq<StreamBuffer>, after: Seq<StreamBuffer>, index: int)
    requires
        distinct_flows(before),
        after.len() == before.len(),
        0 <= index < before.len(),
        flow_id(after[index].key) == flow_id(before[index].key),
        forall|k: int| 0 <= k < before.len() && k != index ==> after[k] == before[k],
    ensures
        distinct_flows(after),
        forall|id: FlowId| holds_flow(after, id) == holds_flow(before, id),
        forall|id: FlowId| holds_flow(before, id) ==> place_of(after, id) == place_of(before, id),
        place_of(after, flow_id(before[index].key)) == index,
{
    assert forall|i: int, j: int| 0 <= i < j < after.len() implies flow_id(after[i].key)
        != flow_id(after[j].key) by {
        assert(flow_id(after[i].key) == flow_id(before[i].key));
        assert(flow_id(after[j].key) == flow_id(before[j].key));
    }
    lemma_place_of(after, index);
    assert forall|id: FlowId| holds_flow(after, id) == holds_flow(before, id) by {
        if holds_flow(before, id) {
            let k = place_of(before, id);
            assert(flow_id(after[k].key) == id);
        }
        if holds_flow(after, id) {
            let k = place_of(after, id);
            assert(flow_id(before[k].key) == id);
        }
    }
    assert forall|id: FlowId| holds_flow(before, id) implies place_of(after, id) == place_of(
        before,
        id,
    ) by {
        let k = place_of(before, id);
        assert(flow_id(after[k].key) == id);
        lemma_place_of(after, k);
    }
}

/// Those of the flows of `flows` from `from` on that are not idle, in order.
spec fn survivors(flows: Seq<StreamBuffer>, from: int, window: u64, now: u64) -> Seq<StreamBuffer>
    decreases flows.len() - from,
{
    if from >= flows.len() {
        Seq::empty()
    } else if is_idle(flows[from].last_seen, window, now) {
        survivors(flows, from + 1, window, now)
    } else {
        seq![flows[from]] + survivors(flows, from + 1, window, now)
    }
}

/// Whether `flows` holds `b` at or behind `from`.
spec fn held_from(flows: Seq<StreamBuffer>, from: int, b: StreamBuffer) -> bool {
    exists|j: int| from <= j < flows.len() && #[trigger] flows[j] == b
}

/// Every survivor is a flow that is not idle.
proof fn lemma_survivor_origin(
    flows: Seq<StreamBuffer>,
    from: int,
    window: u64,
    now: u64,
    k: int,
)
    requires
        0 <= from <= flows.len(),
        0 <= k < survivors(flows, from, window, now).len(),
    ensures
        held_from(flows, from, survivors(flows, from, window, now)[k]),
        !is_idle(survivors(flows, from, window, now)[k].last_seen, window, now),
    decreases flows.len() - from,
{
    if from < flows.len() {
        let rest = survivors(flows, from + 1, window, now);
        if is_idle(flows[from].last_seen, window, now) {
            lemma_survivor_origin(flows, from + 1, window, now, k);
            let j = choose|j: int| from + 1 <= j < flows.len() && #[trigger] flows[j] == rest[k];
            assert(flows[j] == rest[k]);
        } else if k == 0 {
            assert(flows[from] == survivors(flows, from, window, now)[0]);
        } else {
            lemma_survivor_origin(flows, from + 1, window, now, k - 1);
            let j = choose|j: int|
                from + 1 <= j < flows.len() && #[trigger] flows[j] == rest[k - 1];
            assert(flows[j] == rest[k - 1]);
        }
    }
}

/// Every flow that is not idle survives.
proof fn lemma_survives(flows: Seq<StreamBuffer>, from: int, window: u64, now: u64, j: int)
    requires
        0 <= from <= j < flows.len(),
        !is_idle(flows[j].last_seen, window, now),
    ensures
        survivors(flows, from, window, now).contains(flows[j]),
    decreases flows.len() - from,
{
    let all = survivors(flows, from, window, now);
    let rest = survivors(flows, from + 1, window, now);
    if j == from {
        assert(all[0] == flows[j]);
    } else {
        lemma_survives(flows, from + 1, window, now, j);
        let k = choose|k: int| 0 <= k < rest.len() && rest[k] == flows[j];
        if is_idle(flows[from].last_seen, window, now) {
            assert(all[k] == flows[j]);
        } else {
            assert(all[k + 1] == flows[j]);
        }
    }
}

/// No more flows survive than there are.
proof fn lemma_survivors_len(flows: Seq<StreamBuffer>, from: int, window: u64, now: u64)
    requires
        0 <= from <= flows.len(),
    ensures
        survivors(flows, from, window, now).len() <= flows.len() - from,
    decreases flows.len() - from,
{
    if from < flows.len() {
        lemma_survivors_len(flows, from + 1, window, now);
    }
}

/// No flow survives twice.
proof fn lemma_survivors_distinct(flows: Seq<StreamBuffer>, from: int, window: u64, now: u64)
    requires
        0 <= from <= flows.len(),
        distinct_flows(flows),
    ensures
        distinct_flows(survivors(flows, from, window, now)),
    decreases flows.len() - from,
{
    let all = survivors(flows, from, window, now);
    if from < flows.len() {
        lemma_survivors_distinct(flows, from + 1, window, now);
        let rest = survivors(flows, from + 1, window, now);
        if !is_idle(flows[from].last_seen, window, now) {
            assert forall|a: int, b: int| 0 <= a < b < all.len() implies flow_id(all[a].key)
                != flow_id(all[b].key) by {
                assert(all[b] == rest[b - 1]);
                if a == 0 {
                    lemma_survivor_origin(flows, from + 1, window, now, b - 1);
                    let j = choose|j: int|
                        from + 1 <= j < flows.len() && #[trigger] flows[j] == rest[b - 1];
                    assert(all[a] == flows[from]);
                } else {
                    assert(all[a] == rest[a - 1]);
                }
            }
        }
    }
}

/// Holds, for each flow, the segments seen so far in ascending order of
/// their sequence numbers. A flow that grows beyond the cap can have its
/// oldest contiguous part released; flows that stay idle can be evicted.
pub struct StreamReassembler {
    streams: Vec<StreamBuffer>,
    flow_cap: usize,
    idle_window: u64,
    now: u64,
}

impl StreamReassembler {
    /// No flow is held twice, and every flow is in ascending order.
    pub closed spec fn wf(&self) -> bool {
        &&& distinct_flows(self.streams@)
        &&& forall|i: int|
            0 <= i < self.streams@.len() ==> ascending(
                plain_segments(#[trigger] self.streams@[i].segments@),
            )
    }

    /// Whether the flow `id` is held.
    pub closed spec fn has_flow(&self, id: FlowId) -> bool {
        holds_flow(self.streams@, id)
    }

    /// The segments held for the flow `id`, in order; none for a flow that
    /// is not held.
    pub closed spec fn segments(&self, id: FlowId) -> Seq<Segment> {
        if holds_flow(self.streams@, id) {
            plain_segments(self.streams@[place_of(self.streams@, id)].segments@)
        } else {
            Seq::empty()
        }
    }

    /// The time at which the flow `id` last got a segment; zero for a flow
    /// that is not held.
    pub closed spec fn last_seen(&self, id: FlowId) -> u64 {
        if holds_flow(self.streams@, id) {
            self.streams@[place_of(self.streams@, id)].last_seen
        } else {
            0
        }
    }

    /// How many flows are held.
    pub closed spec fn flows(&self) -> nat {
        self.streams@.len()
    }

    /// The bytes that a flow may hold before its oldest part is released.
    pub closed spec fn flow_cap(&self) -> usize {
        self.flow_cap
    }

    /// The time that a flow may stay idle before it is evicted.
    pub closed spec fn idle_window(&self) -> u64 {
        self.idle_window
    }

    /// The time as the reassembler was last told.
    pub closed spec fn now(&self) -> u64 {
        self.now
    }

    /// The segments of every flow stand in ascending order.
    pub proof fn lemma_segments_ascending(&self, id: FlowId)
        requires
            self.wf(),
        ensures
            ascending(self.segments(id)),
    {
    }

    /// A reassembler that holds no flow, with the default cap and window.
    pub fn new() -> (r: StreamReassembler)
        ensures
            r.wf(),
            r.flow_cap() == DEFAULT_FLOW_CAP,
            r.idle_window() == DEFAULT_IDLE_WINDOW,
            r.now() == 0,
            forall|id: FlowId| !r.has_flow(id),
            forall|id: FlowId| r.segments(id) == Seq::<Segment>::empty(),
    {
        StreamReassembler::with_limits(DEFAULT_FLOW_CAP, DEFAULT_IDLE_WINDOW)
    }

    /// A reassembler that holds no flow, with a cap of `flow_cap` bytes for
    /// each flow and an idle window of `idle_window`.
    pub fn with_limits(flow_cap: usize, idle_window: u64) -> (r: StreamReassembler)
        ensures
            r.wf(),
            r.flow_cap() == flow_cap,
            r.idle_window() == idle_window,
            r.now() == 0,
            forall|id: FlowId| !r.has_flow(id),
            forall|id: FlowId| r.segments(id) == Seq::<Segment>::empty(),
    {
        StreamReassembler { streams: Vec::new(), flow_cap, idle_window, now: 0 }
    }

    /// Tells the reassembler the time. Segments handed in from now on are
    /// seen at this time.
    pub fn set_time(&mut self, now: u64)
        requires
            old(self).wf(),
        ensures
            final(self).wf(),
            final(self).now() == now,
            final(self).flow_cap() == old(self).flow_cap(),
            final(self).idle_window() == old(self).idle_window(),
            final(self).flows() == old(self).flows(),
            forall|id: FlowId| final(self).has_flow(id) == old(self).has_flow(id),
            forall|id: FlowId| final(self).segments(id) == old(self).segments(id),
            forall|id: FlowId| final(self).last_seen(id) == old(self).last_seen(id),
    {
        self.now = now;
    }

    /// Whether the flow of `conn_id` is held.
    pub fn holds(&self, conn_id: ConnKey) -> (r: bool)
        requires
            self.wf(),
        ensures
            r == self.has_flow(flow_id(conn_id)),
    {
        match self.find_flow(&conn_id) {
            Some(_) => true,
            None => false,
        }
    }

    /// Where the flow of `key` is held, if it is.
    fn find_flow(&self, key: &ConnKey) -> (r: Option<usize>)
        requires
            self.wf(),
        ensures
            r is None ==> !self.has_flow(flow_id(*key)),
            r matches Some(i) ==> i < self.streams@.len() && self.has_flow(flow_id(*key))
                && place_of(self.streams@, flow_id(*key)) == i,
    {
        let mut i: usize = 0;
        while i < self.streams.len()
            invariant
                i <= self.streams@.len(),
                self.wf(),
                forall|j: int| 0 <= j < i ==> flow_id(self.streams@[j].key) != flow_id(*key),
            decreases self.streams@.len() - i,
        {
            if same_flow(&self.streams[i].key, key) {
                proof {
                    lemma_place_of(self.streams@, i as int);
                }
                return Some(i);
            }
            i = i + 1;
        }
        None
    }

    /// Puts `buffer` in the place of the flow at `index`, which it is a
    /// later state of.
    fn replace_flow(&mut self, index: usize, buffer: StreamBuffer)
        requires
            old(self).wf(),
            index < old(self).streams@.len(),
            flow_id(buffer.key) == flow_id(old(self).streams@[index as int].key),
            ascending(plain_segments(buffer.segments@)),
        ensures
            final(self).wf(),
            final(self).flow_cap() == old(self).flow_cap(),
            final(self).idle_window() == old(self).idle_window(),
            final(self).now() == old(self).now(),
            final(self).has_flow(flow_id(buffer.key)),
            final(self).segments(flow_id(buffer.key)) == plain_segments(buffer.segments@),
            final(self).last_seen(flow_id(buffer.key)) == buffer.last_seen,
            forall|id: FlowId| final(self).has_flow(id) == old(self).has_flow(id),
            forall|id: FlowId|
                id != flow_id(buffer.key) ==> final(self).segments(id) == old(self).segments(id)
                    && final(self).last_seen(id) == old(self).last_seen(id),
    {
        let ghost before = self.streams@;
        self.streams.set(index, buffer);
        proof {
            lemma_update_frame(before, self.streams@, index as int);
        }
    }

    /// Takes the flow at `index` out to be changed, and leaves an empty
    /// flow of the same key in its place.
    fn take_flow(&mut self, index: usize) -> (taken: StreamBuffer)
        requires
            old(self).wf(),
            index < old(self).streams@.len(),
        ensures
            final(self).wf(),
            final(self).flow_cap() == old(self).flow_cap(),
            final(self).idle_window() == old(self).idle_window(),
            final(self).now() == old(self).now(),
            taken == old(self).streams@[index as int],
            final(self).streams@.len() == old(self).streams@.len(),
            flow_id(final(self).streams@[index as int].key) == flow_id(taken.key),
            forall|id: FlowId| final(self).has_flow(id) == old(self).has_flow(id),
            forall|id: FlowId|
                id != flow_id(taken.key) ==> final(self).segments(id) == old(self).segments(id)
                    && final(self).last_seen(id) == old(self).last_seen(id),
    {
        let ghost before = self.streams@;
        let mut buffer = StreamBuffer {
            key: self.streams[index].key,
            segments: Vec::new(),
            last_seen: self.streams[index].last_seen,
        };
        std::mem::swap(&mut buffer, &mut self.streams[index]);
        proof {
            let after = self.streams@;
            assert(plain_segments(after[index as int].segments@) =~= Seq::<Segment>::empty());
            lemma_update_frame(before, after, index as int);
            lemma_place_of(before, index as int);
        }
        buffer
    }

    /// Hands in a segment of the flow `conn_id`: `data` at sequence number
    /// `seq`. The segment takes its place behind the segments of the flow
    /// that do not come after it. A segment that the flow holds already
    /// changes nothing; a segment that contradicts one of the flow takes its
    /// place too, and is reported. Either way the flow was seen now.
    pub fn add_packet(&mut self, conn_id: ConnKey, seq: u32, data: &[u8]) -> (r: SegmentOutcome)
        requires
            old(self).wf(),
        ensures
            final(self).wf(),
            final(self).flow_cap() == old(self).flow_cap(),
            final(self).idle_window() == old(self).idle_window(),
            final(self).now() == old(self).now(),
            final(self).has_flow(flow_id(conn_id)),
            final(self).segments(flow_id(conn_id)) == with_segment(
                old(self).segments(flow_id(conn_id)),
                (seq, data@),
            ).0,
            r == with_segment(old(self).segments(flow_id(conn_id)), (seq, data@)).1,
            final(self).last_seen(flow_id(conn_id)) == old(self).now(),
            forall|id: FlowId|
                id != flow_id(conn_id) ==> final(self).segments(id) == old(self).segments(id)
                    && final(self).last_seen(id) == old(self).last_seen(id)
                        && final(self).has_flow(id) == old(self).has_flow(id),
    {
        let found = self.find_flow(&conn_id);
        let index: usize = match found {
            Some(i) => i,
            None => {
                self.open_flow(conn_id);
                self.streams.len() - 1
            },
        };
        let ghost segs = plain_segments(self.streams@[index as int].segments@);
        let (duplicate, conflict) = scan_segments(&self.streams[index].segments, seq, data);
        let place: usize = find_place(&self.streams[index].segments, seq);
        let mut buffer = self.take_flow(index);
        buffer.last_seen = self.now;
        let outcome = if duplicate {
            SegmentOutcome::Duplicate
        } else {
            buffer.segments.insert(place, (seq, vstd::slice::slice_to_vec(data)));
            proof {
                let after = segs.insert(place as int, (seq, data@));
                assert(plain_segments(buffer.segments@) =~= after);
                assert(ascending(after)) by {
                    assert forall|a: int, b: int| 0 <= a <= b < after.len() implies after[a].0
                        <= after[b].0 by {
                        if a < place && b > place {
                            assert(segs[b - 1].0 >= segs[place as int].0);
                        }
                    }
                }
            }
            if conflict {
                SegmentOutcome::Conflict
            } else {
                SegmentOutcome::Added
            }
        };
        self.replace_flow(index, buffer);
        outcome
    }

    /// Starts to hold the flow of `key`, with no segments yet.
    fn open_flow(&mut self, key: ConnKey)
        requires
            old(self).wf(),
            !old(self).has_flow(flow_id(key)),
        ensures
            final(self).wf(),
            final(self).flow_cap() == old(self).flow_cap(),
            final(self).idle_window() == old(self).idle_window(),
            final(self).now() == old(self).now(),
            final(self).streams@.len() == old(self).streams@.len() + 1,
            final(self).has_flow(flow_id(key)),
            place_of(final(self).streams@, flow_id(key)) == final(self).streams@.len() - 1,
            final(self).streams@.last().segments@.len() == 0,
            final(self).segments(flow_id(key)) == Seq::<Segment>::empty(),
            old(self).segments(flow_id(key)) == Seq::<Segment>::empty(),
            forall|id: FlowId|
                id != flow_id(key) ==> final(self).segments(id) == old(self).segments(id)
                    && final(self).last_seen(id) == old(self).last_seen(id)
                        && final(self).has_flow(id) == old(self).has_flow(id),
    {
        let ghost before = self.streams@;
        self.streams.push(StreamBuffer { key, segments: Vec::new(), last_seen: self.now });
        proof {
            let after = self.streams@;
            let last = after.len() - 1;
            assert(plain_segments(after[last].segments@) =~= Seq::<Segment>::empty());
            assert(distinct_flows(after)) by {
                assert forall|i: int, j: int| 0 <= i < j < after.len() implies flow_id(
                    after[i].key,
                ) != flow_id(after[j].key) by {
                    assert(after[i] == before[i]);
                    if j < last {
                        assert(after[j] == before[j]);
                    }
                }
            }
            lemma_place_of(after, last);
            assert forall|id: FlowId| id != flow_id(key) implies {
                &&& self.segments(id) == old(self).segments(id)
                &&& self.last_seen(id) == old(self).last_seen(id)
                &&& self.has_flow(id) == old(self).has_flow(id)
            } by {
                if holds_flow(before, id) {
                    let k = place_of(before, id);
                    assert(after[k] == before[k]);
                    lemma_place_of(after, k);
                }
                if holds_flow(after, id) {
                    let k = place_of(after, id);
                    assert(after[k] == before[k]);
                }
            }
        }
    }

    /// The bytes of the flow `conn_id`: the payloads of its segments in
    /// ascending order of their sequence numbers, one after the other.
    /// Nothing for a flow that is not held.
    pub fn get_stream(&self, conn_id: ConnKey) -> (r: Vec<u8>)
        requires
            self.wf(),
        ensures
            r@ == stream_of(self.segments(flow_id(conn_id))),
    {
        match self.find_flow(&conn_id) {
            None => Vec::new(),
            Some(index) => {
                let segments = &self.streams[index].segments;
                proof {
                    assert(plain_segments(segments@).take(segments@.len() as int)
                        =~= plain_segments(segments@));
                }
                concat_segments(segments, segments.len())
            },
        }
    }

    /// The bytes of the flow `conn_id` that have come without a gap: the
    /// payloads of its oldest contiguous run of segments. What stands behind
    /// a gap waits for the segments that fill it.
    pub fn get_contiguous(&self, conn_id: ConnKey) -> (r: Vec<u8>)
        requires
            self.wf(),
        ensures
            r@ == contiguous_stream(self.segments(flow_id(conn_id))),
    {
        match self.find_flow(&conn_id) {
            None => {
                proof {
                    let none = Seq::<Segment>::empty();
                    assert(none.take(contiguous_prefix(none)) =~= none);
                }
                Vec::new()
            },
            Some(index) => {
                let segments = &self.streams[index].segments;
                let prefix: usize = prefix_length(segments);
                concat_segments(segments, prefix)
            },
        }
    }

    /// How many bytes of the flow `conn_id` stand before the place that a
    /// new segment with the sequence number `seq` takes.
    pub fn bytes_before(&self, conn_id: ConnKey, seq: u32) -> (r: usize)
        requires
            self.wf(),
        ensures
            r == stream_before(self.segments(flow_id(conn_id)), seq).len(),
    {
        match self.find_flow(&conn_id) {
            None => {
                proof {
                    let none = Seq::<Segment>::empty();
                    assert(none.take(place_for(none, 0, seq)) =~= none);
                }
                0
            },
            Some(index) => {
                let segments = &self.streams[index].segments;
                let place: usize = find_place(segments, seq);
                concat_segments(segments, place).len()
            },
        }
    }

    /// Whether the flow `conn_id` holds more bytes than the cap allows.
    pub fn exceeds_cap(&self, conn_id: ConnKey) -> (r: bool)
        requires
            self.wf(),
        ensures
            r == (stream_of(self.segments(flow_id(conn_id))).len() > self.flow_cap()),
    {
        match self.find_flow(&conn_id) {
            None => false,
            Some(index) => over_cap(&self.streams[index].segments, self.flow_cap),
        }
    }

    /// Releases the oldest contiguous prefix of the flow `conn_id` where the
    /// flow holds more bytes than the cap allows: its bytes are handed out,
    /// for the parser, and its segments leave the flow. A flow within the
    /// cap is left alone and hands out nothing.
    pub fn release(&mut self, conn_id: ConnKey) -> (r: Vec<u8>)
        requires
            old(self).wf(),
        ensures
            final(self).wf(),
            final(self).flow_cap() == old(self).flow_cap(),
            final(self).idle_window() == old(self).idle_window(),
            final(self).now() == old(self).now(),
            r@ == released(old(self).segments(flow_id(conn_id)), old(self).flow_cap()).0,
            final(self).segments(flow_id(conn_id)) == released(
                old(self).segments(flow_id(conn_id)),
                old(self).flow_cap(),
            ).1,
            forall|id: FlowId| final(self).has_flow(id) == old(self).has_flow(id),
            forall|id: FlowId| final(self).last_seen(id) == old(self).last_seen(id),
            forall|id: FlowId|
                id != flow_id(conn_id) ==> final(self).segments(id) == old(self).segments(id),
    {
        let index: usize = match self.find_flow(&conn_id) {
            None => {
                proof {
                    assert(stream_of(Seq::<Segment>::empty()) =~= Seq::<u8>::empty());
                }
                return Vec::new();
            },
            Some(index) => index,
        };
        if !over_cap(&self.streams[index].segments, self.flow_cap) {
            return Vec::new();
        }
        let ghost segs = plain_segments(self.streams@[index as int].segments@);
        let prefix: usize = prefix_length(&self.streams[index].segments);
        let out = concat_segments(&self.streams[index].segments, prefix);
        let mut buffer = self.take_flow(index);
        let mut rest = buffer.segments.split_off(prefix);
        std::mem::swap(&mut buffer.segments, &mut rest);
        proof {
            assert(plain_segments(buffer.segments@) =~= segs.skip(prefix as int));
            assert(ascending(segs.skip(prefix as int))) by {
                assert forall|a: int, b: int|
                    0 <= a <= b < segs.skip(prefix as int).len() implies segs.skip(
                    prefix as int,
                )[a].0 <= segs.skip(prefix as int)[b].0 by {
                    assert(segs[a + prefix].0 <= segs[b + prefix].0);
                }
            }
        }
        self.replace_flow(index, buffer);
        out
    }

    /// Evicts the flows that have been idle for more than the idle window,
    /// and says how many they were.
    pub fn evict_idle(&mut self) -> (r: usize)
        requires
            old(self).wf(),
        ensures
            final(self).wf(),
            final(self).flow_cap() == old(self).flow_cap(),
            final(self).idle_window() == old(self).idle_window(),
            final(self).now() == old(self).now(),
            r == old(self).flows() - final(self).flows(),
            forall|id: FlowId|
                final(self).has_flow(id) == (old(self).has_flow(id) && !is_idle(
                    old(self).last_seen(id),
                    old(self).idle_window(),
                    old(self).now(),
                )),
            forall|id: FlowId|
                final(self).has_flow(id) ==> final(self).segments(id) == old(self).segments(id)
                    && final(self).last_seen(id) == old(self).last_seen(id),
            forall|id: FlowId|
                !final(self).has_flow(id) ==> final(self).segments(id) == Seq::<Segment>::empty(),
    {
        let ghost before = self.streams@;
        let ghost window = self.idle_window;
        let ghost now = self.now;
        let total: usize = self.streams.len();
        let mut i: usize = total;
        proof {
            assert(self.streams@ =~= before.take(i as int) + survivors(
                before,
                i as int,
                window,
                now,
            ));
        }
        while i > 0
            invariant
                i <= before.len(),
                total == before.len(),
                self.flow_cap == old(self).flow_cap,
                self.idle_window == window,
                self.now == now,
                self.streams@ == before.take(i as int) + survivors(before, i as int, window, now),
            decreases i,
        {
            i = i - 1;
            let last_seen: u64 = self.streams[i].last_seen;
            let idle: bool = (last_seen as u128) + (self.idle_window as u128) < self.now as u128;
            if idle {
                self.streams.remove(i);
            }
            proof {
                assert(self.streams@ =~= before.take(i as int) + survivors(
                    before,
                    i as int,
                    window,
                    now,
                ));
            }
        }
        proof {
            let after = self.streams@;
            assert(after =~= survivors(before, 0, window, now));
            lemma_survivors_distinct(before, 0, window, now);
            lemma_survivors_len(before, 0, window, now);
            assert forall|k: int| 0 <= k < after.len() implies ascending(
                plain_segments(#[trigger] after[k].segments@),
            ) by {
                lemma_survivor_origin(before, 0, window, now, k);
                let j = choose|j: int| 0 <= j < before.len() && #[trigger] before[j] == after[k];
                assert(ascending(plain_segments(before[j].segments@)));
            }
            assert forall|id: FlowId|
                holds_flow(after, id) == (holds_flow(before, id) && !is_idle(
                    old(self).last_seen(id),
                    window,
                    now,
                )) by {
                if holds_flow(after, id) {
                    let k = place_of(after, id);
                    lemma_survivor_origin(before, 0, window, now, k);
                    let j = choose|j: int|
                        0 <= j < before.len() && #[trigger] before[j] == after[k];
                    lemma_place_of(before, j);
                }
                if holds_flow(before, id) && !is_idle(old(self).last_seen(id), window, now) {
                    let j = place_of(before, id);
                    lemma_survives(before, 0, window, now, j);
                    let k = choose|k: int| 0 <= k < after.len() && after[k] == before[j];
                    assert(flow_id(after[k].key) == id);
                }
            }
            assert forall|id: FlowId| holds_flow(after, id) implies {
                &&& self.segments(id) == old(self).segments(id)
                &&& self.last_seen(id) == old(self).last_seen(id)
            } by {
                let k = place_of(after, id);
                lemma_survivor_origin(before, 0, window, now, k);
                let j = choose|j: int| 0 <= j < before.len() && #[trigger] before[j] == after[k];
                lemma_place_of(before, j);
            }
        }
        total - self.streams.len()
    }

    /// How many flows are held.
    pub fn flow_count(&self) -> (r: usize)
        ensures
            r == self.flows(),
    {
        self.streams.len()
    }
}

/// The payloads of the first `count` of `segments`, one after the other.
fn concat_segments(segments: &Vec<(u32, Vec<u8>)>, count: usize) -> (r: Vec<u8>)
    requires
        count <= segments@.len(),
    ensures
        r@ == stream_of(plain_segments(segments@).take(count as int)),
{
    let ghost segs = plain_segments(segments@);
    let mut out: Vec<u8> = Vec::new();
    let mut i: usize = 0;
    proof {
        assert(segs.take(0) =~= Seq::<Segment>::empty());
    }
    while i < count
        invariant
            i <= count <= segments@.len(),
            segs == plain_segments(segments@),
            out@ == stream_of(segs.take(i as int)),
        decreases count - i,
    {
        proof {
            assert(segs.take(i + 1).drop_last() =~= segs.take(i as int));
        }
        out.extend_from_slice(segments[i].1.as_slice());
        i = i + 1;
    }
    out
}

/// A flow holds no less than its first segments hold.
proof fn lemma_stream_grows(segs: Seq<Segment>, i: int)
    requires
        0 <= i <= segs.len(),
    ensures
        stream_of(segs.take(i)).len() <= stream_of(segs).len(),
    decreases segs.len() - i,
{
    if i < segs.len() {
        lemma_stream_grows(segs, i + 1);
        assert(segs.take(i + 1).drop_last() =~= segs.take(i));
    } else {
        assert(segs.take(i) =~= segs);
    }
}

/// Whether `segments` hold more than `cap` bytes.
fn over_cap(segments: &Vec<(u32, Vec<u8>)>, cap: usize) -> (r: bool)
    ensures
        r == (stream_of(plain_segments(segments@)).len() > cap),
{
    let ghost segs = plain_segments(segments@);
    let mut held: usize = 0;
    let mut i: usize = 0;
    proof {
        assert(segs.take(0) =~= Seq::<Segment>::empty());
    }
    while i < segments.len()
        invariant
            i <= segments@.len(),
            segs == plain_segments(segments@),
            held == stream_of(segs.take(i as int)).len(),
            held <= cap,
        decreases segments@.len() - i,
    {
        let len: usize = segments[i].1.len();
        proof {
            assert(segs.take(i + 1).drop_last() =~= segs.take(i as int));
            lemma_stream_grows(segs, i + 1);
        }
        if len > cap - held {
            return true;
        }
        held = held + len;
        i = i + 1;
    }
    proof {
        assert(segs.take(i as int) =~= segs);
    }
    false
}

/// How many segments the oldest contiguous prefix of `segments` takes.
fn prefix_length(segments: &Vec<(u32, Vec<u8>)>) -> (r: usize)
    ensures
        r == contiguous_prefix(plain_segments(segments@)),
        r <= segments@.len(),
{
    let ghost segs = plain_segments(segments@);
    let n: usize = segments.len();
    if n == 0 {
        return 0;
    }
    let mut i: usize = 0;
    while i + 1 < n
        invariant
            i < n,
            n == segments@.len(),
            segs == plain_segments(segments@),
            run_end(segs, 0) == run_end(segs, i as int),
        decreases n - i,
    {
        let end: u128 = segments[i].0 as u128 + segments[i].1.len() as u128;
        if segments[i + 1].0 as u128 != end {
            return i + 1;
        }
        i = i + 1;
    }
    n
}

} // verus!
