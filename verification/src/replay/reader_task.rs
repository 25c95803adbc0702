//! The dispatcher: reads the events of a profile and says, one step at a
//! time, which event goes to which connection next.

use crate::profile::codec::{decode_event, ProfileError};
use crate::profile::layout::{all_encodable, event_frames};
use crate::profile::Event;
use crate::record::parser::{number_of_token, read_number, word_is};
use crate::replay::streamer::{announced_len, lemma_first_frame, ProfileStreamer};
use std::collections::HashSet;
use vstd::prelude::*;
use vstd::string::*;

verus! {

broadcast use vstd::std_specs::hash::group_hash_axioms;

/// How many events each connection's queue holds at most.
pub const QUEUE_CAPACITY: usize = 1000;

/// How often the profile is replayed.
#[derive(Debug, Clone, Copy, PartialEq, Eq, Structural)]
pub enum LoopMode {
    Once,
    Times(usize),
    Infinite,
}

/// The loop mode that `name` names: `once`, `infinite`, or `times:` and a
/// number of at least one.
pub open spec fn loop_mode_named(name: Seq<u8>) -> Option<LoopMode> {
    if name == "once".spec_bytes() {
        Some(LoopMode::Once)
    } else if name == "infinite".spec_bytes() {
        Some(LoopMode::Infinite)
    } else if name.len() >= 6 && name.subrange(0, 6) == "times:".spec_bytes() {
        match number_of_token(name.subrange(6, name.len() as int), usize::MAX as nat) {
            Some(n) => if n >= 1 {
                Some(LoopMode::Times(n as usize))
            } else {
                None
            },
            None => None,
        }
    } else {
        None
    }
}

impl LoopMode {
    /// The loop mode that `name` names; `None` for any other word.
    pub fn parse(name: &str) -> (r: Option<LoopMode>)
        ensures
            r == loop_mode_named(name.spec_bytes()),
    {
        let bytes = name.as_bytes();
        let len: usize = bytes.len();
        assert(bytes@.subrange(0, len as int) =~= bytes@);
        if word_is(bytes, 0, len, "once", false) {
            Some(LoopMode::Once)
        } else if word_is(bytes, 0, len, "infinite", false) {
            Some(LoopMode::Infinite)
        } else if len >= 6 && word_is(bytes, 0, 6, "times:", false) {
            match read_number(bytes, 6, len, usize::MAX as u64) {
                Some(n) => if n >= 1 {
                    Some(LoopMode::Times(n as usize))
                } else {
                    None
                },
                None => None,
            }
        } else {
            None
        }
    }

    /// How many passes over the profile the mode asks for; `None` for passes
    /// without end.
    pub open spec fn spec_passes(self) -> Option<usize> {
        match self {
            LoopMode::Once => Some(1usize),
            LoopMode::Times(n) => Some(n),
            LoopMode::Infinite => None,
        }
    }

    /// How many passes over the profile the mode asks for; `None` for passes
    /// without end.
    pub fn passes(&self) -> (r: Option<usize>)
        ensures
            r == self.spec_passes(),
    {
        match self {
            LoopMode::Once => Some(1),
            LoopMode::Times(n) => Some(*n),
            LoopMode::Infinite => None,
        }
    }
}

/// What the dispatcher asks of its caller next.
#[derive(Debug, Clone, Copy)]
pub enum DispatchAction {
    /// Put the event into the queue of its connection, waiting for room or
    /// for cancellation, and come back.
    Send(Event),
    /// The event belongs to a connection that takes no events: log it, drop
    /// it, and come back.
    Drop(Event),
    /// A pass has ended and the next one starts at the first event: come
    /// back.
    Rewind,
    /// Close every queue: the dispatcher is done.
    Finished,
}

/// What stands next in the event region.
pub enum Delivery {
    /// An event for a connection that takes events, in a frame of `used`
    /// bytes.
    Send { event: Event, used: int },
    /// An event for a connection that takes none, in a frame of `used`
    /// bytes.
    Drop { event: Event, used: int },
    /// The end of the pass.
    End,
    /// A frame that cannot be read; the cursor moves behind its length.
    Fail { error: ProfileError },
}

/// What stands next in `remaining`, for the connections `known`.
pub open spec fn next_delivery(remaining: Seq<u8>, known: Set<u16>) -> Delivery {
    if remaining.len() < 2 {
        Delivery::End
    } else {
        let len = announced_len(remaining);
        if 2 + len > remaining.len() {
            Delivery::Fail { error: ProfileError::EventExceedsBoundary }
        } else {
            match decode_event(remaining.subrange(2, 2 + len)) {
                Err(error) => Delivery::Fail { error },
                Ok(event) => if known.contains(event.conn_id) {
                    Delivery::Send { event, used: 2 + len }
                } else {
                    Delivery::Drop { event, used: 2 + len }
                },
            }
        }
    }
}

/// The events that one pass over `remaining` hands out, in order.
pub open spec fn pass_deliveries(remaining: Seq<u8>, known: Set<u16>) -> Seq<Event>
    decreases remaining.len(),
{
    if remaining.len() < 2 {
        Seq::empty()
    } else {
        let len = announced_len(remaining);
        if 2 + len > remaining.len() {
            Seq::empty()
        } else {
            match decode_event(remaining.subrange(2, 2 + len)) {
                Err(_) => Seq::empty(),
                Ok(event) => (if known.contains(event.conn_id) {
                    seq![event]
                } else {
                    Seq::empty()
                }) + pass_deliveries(
                    remaining.subrange(2 + len, remaining.len() as int),
                    known,
                ),
            }
        }
    }
}

/// Those of `events` that belong to the connections `known`, in order.
pub open spec fn for_connections(events: Seq<Event>, known: Set<u16>) -> Seq<Event>
    decreases events.len(),
{
    if events.len() == 0 {
        Seq::empty()
    } else {
        (if known.contains(events[0].conn_id) {
            seq![events[0]]
        } else {
            Seq::empty()
        }) + for_connections(events.drop_first(), known)
    }
}

/// Routes the events of a profile to the connections they were recorded on,
/// pass after pass.
pub struct Dispatcher {
    streamer: ProfileStreamer,
    connections: HashSet<u16>,
    passes_left: Option<usize>,
    finished: bool,
}

impl Dispatcher {
    /// The cursor of the dispatcher lies within the event region.
    pub closed spec fn wf(&self) -> bool {
        self.streamer.wf()
    }

    /// The event region of the profile.
    pub closed spec fn region(&self) -> Seq<u8> {
        self.streamer.region()
    }

    /// The bytes of the event region that this pass has not read yet: the
    /// region from the cursor on.
    pub open spec fn remaining(&self) -> Seq<u8> {
        self.region().subrange(self.position(), self.region().len() as int)
    }

    /// The cursor lies within the region.
    pub proof fn lemma_position_in_region(&self)
        requires
            self.wf(),
        ensures
            0 <= self.position() <= self.region().len(),
    {
        self.streamer.lemma_position_in_region();
    }

    /// How many bytes of the event region this pass has read.
    pub closed spec fn position(&self) -> int {
        self.streamer.position()
    }

    /// The connections that take events.
    pub closed spec fn connections(&self) -> Set<u16> {
        self.connections@
    }

    /// The passes still to run, this one included; `None` for passes without
    /// end.
    pub closed spec fn passes_left(&self) -> Option<usize> {
        self.passes_left
    }

    /// Whether the dispatcher is done.
    pub closed spec fn finished(&self) -> bool {
        self.finished
    }

    /// Whether the dispatcher has read `used` bytes on from where `before`
    /// stood, and is otherwise as `before` was.
    pub open spec fn moved_on(&self, before: &Dispatcher, used: int) -> bool {
        &&& self.position() == before.position() + used
        &&& self.remaining() == before.remaining().subrange(
            used,
            before.remaining().len() as int,
        )
        &&& !self.finished()
        &&& self.passes_left() == before.passes_left()
    }

    /// Whether the dispatcher stands at the start of the pass that follows
    /// the pass that `before` was in.
    pub open spec fn rewound(&self, before: &Dispatcher) -> bool {
        &&& self.position() == 0
        &&& self.remaining() == self.region()
        &&& !self.finished()
        &&& self.passes_left() == (match before.passes_left() {
            Some(n) => Some((n - 1) as usize),
            None => None,
        })
    }

    /// Whether this pass is the last.
    pub open spec fn on_last_pass(&self) -> bool {
        self.passes_left() == Some(1usize)
    }

    /// Whether no pass is left to run.
    pub open spec fn out_of_passes(&self) -> bool {
        self.passes_left() == Some(0usize)
    }

    /// A dispatcher at the start of the first pass over the profile of
    /// `streamer`, for the connections `connections`.
    pub fn new(streamer: ProfileStreamer, connections: &[u16], loop_mode: LoopMode) -> (r:
        Dispatcher)
        requires
            streamer.wf(),
        ensures
            r.wf(),
            r.region() == streamer.region(),
            r.position() == streamer.position(),
            r.remaining() == streamer.remaining(),
            r.connections() == connections@.to_set(),
            r.passes_left() == loop_mode.spec_passes(),
            !r.finished(),
    {
        let mut set: HashSet<u16> = HashSet::new();
        let mut i: usize = 0;
        while i < connections.len()
            invariant
                i <= connections@.len(),
                set@ == connections@.take(i as int).to_set(),
            decreases connections@.len() - i,
        {
            proof {
                assert(connections@.take(i + 1) =~= connections@.take(i as int).push(
                    connections@[i as int],
                ));
                connections@.take(i as int).lemma_push_to_set_commute(connections@[i as int]);
            }
            set.insert(connections[i]);
            i = i + 1;
        }
        proof {
            assert(connections@.take(i as int) =~= connections@);
        }
        Dispatcher {
            streamer,
            connections: set,
            passes_left: loop_mode.passes(),
            finished: false,
        }
    }

    /// Says what to do next. `cancelled` tells whether cancellation has
    /// fired.
    ///
    /// A dispatcher that is done, cancelled or out of passes says
    /// `Finished`. Else it reads the next event: one of a connection that
    /// takes events is to be sent, any other is to be dropped. At the end of
    /// a pass it rewinds where another pass is due, and finishes where none
    /// is. A frame that cannot be read ends the dispatcher with the error.
    pub fn poll(&mut self, cancelled: bool) -> (r: Result<DispatchAction, ProfileError>)
        requires
            old(self).wf(),
        ensures
            final(self).wf(),
            final(self).region() == old(self).region(),
            final(self).connections() == old(self).connections(),
            old(self).finished() || cancelled || old(self).out_of_passes() ==> (r matches Ok(
                DispatchAction::Finished,
            ) && final(self).finished() && final(self).position() == old(self).position()),
            !(old(self).finished() || cancelled || old(self).out_of_passes()) ==> (
            match next_delivery(old(self).remaining(), old(self).connections()) {
                Delivery::Send { event, used } => r matches Ok(DispatchAction::Send(e)) && e
                    == event && final(self).moved_on(old(self), used),
                Delivery::Drop { event, used } => r matches Ok(DispatchAction::Drop(e)) && e
                    == event && final(self).moved_on(old(self), used),
                Delivery::End => if old(self).on_last_pass() {
                    r matches Ok(DispatchAction::Finished) && final(self).finished()
                } else {
                    r matches Ok(DispatchAction::Rewind) && final(self).rewound(old(self))
                },
                Delivery::Fail { error } => r matches Err(e) && e == error
                    && final(self).finished()
                    && final(self).position() == old(self).position() + 2,
            }),
    {
        let out_of_passes: bool = match self.passes_left {
            Some(n) => n == 0,
            None => false,
        };
        if self.finished || cancelled || out_of_passes {
            self.finished = true;
            return Ok(DispatchAction::Finished);
        }
        let ghost here = self.streamer.remaining();
        proof {
            self.streamer.lemma_position_in_region();
        }
        match self.streamer.next_event() {
            Err(e) => {
                self.finished = true;
                Err(e)
            },
            Ok(None) => {
                match self.passes_left {
                    Some(n) => {
                        if n == 1 {
                            self.finished = true;
                            return Ok(DispatchAction::Finished);
                        }
                        self.passes_left = Some(n - 1);
                    },
                    None => {},
                }
                let _ = self.streamer.reset();
                proof {
                    assert(self.remaining() =~= self.region());
                }
                Ok(DispatchAction::Rewind)
            },
            Ok(Some(event)) => {
                proof {
                    self.streamer.lemma_position_in_region();
                    assert(self.streamer.remaining() =~= here.subrange(
                        2 + announced_len(here),
                        here.len() as int,
                    ));
                }
                if self.connections.contains(&event.conn_id) {
                    Ok(DispatchAction::Send(event))
                } else {
                    Ok(DispatchAction::Drop(event))
                }
            },
        }
    }

    /// Takes `conn_id` out of the connections that take events: its queue
    /// was closed. Events of that connection are dropped from now on.
    pub fn connection_closed(&mut self, conn_id: u16)
        requires
            old(self).wf(),
        ensures
            final(self).wf(),
            final(self).connections() == old(self).connections().remove(conn_id),
            final(self).region() == old(self).region(),
            final(self).position() == old(self).position(),
            final(self).remaining() == old(self).remaining(),
            final(self).passes_left() == old(self).passes_left(),
            final(self).finished() == old(self).finished(),
    {
        self.connections.remove(&conn_id);
    }

    /// Whether any connection takes events still.
    pub fn has_connections(&self) -> (r: bool)
        ensures
            r == (self.connections().len() > 0),
    {
        self.connections.len() > 0
    }
}

/// What `poll` hands out step by step is what a pass hands out: an event
/// that is sent stands first among the deliveries of the pass, before the
/// deliveries of what follows it; an event that is dropped is none of them;
/// and where the pass ends or fails, it hands out nothing more.
pub proof fn lemma_delivery_heads_pass(remaining: Seq<u8>, known: Set<u16>)
    ensures
        match next_delivery(remaining, known) {
            Delivery::Send { event, used } => 2 <= used <= remaining.len() && pass_deliveries(
                remaining,
                known,
            ) == seq![event] + pass_deliveries(
                remaining.subrange(used, remaining.len() as int),
                known,
            ),
            Delivery::Drop { event, used } => 2 <= used <= remaining.len() && pass_deliveries(
                remaining,
                known,
            ) == pass_deliveries(remaining.subrange(used, remaining.len() as int), known),
            Delivery::End => pass_deliveries(remaining, known) == Seq::<Event>::empty(),
            Delivery::Fail { error } => pass_deliveries(remaining, known) == Seq::<
                Event,
            >::empty(),
        },
{
    if remaining.len() >= 2 {
        let len = announced_len(remaining);
        if 2 + len <= remaining.len() {
            let rest = remaining.subrange(2 + len, remaining.len() as int);
            assert(Seq::<Event>::empty() + pass_deliveries(rest, known) =~= pass_deliveries(
                rest,
                known,
            ));
        }
    }
}

/// What stands next in the frames of written events: nothing where there
/// are no events; else the first event, to be sent where its connection
/// takes events and dropped where it does not, with the frames of the events
/// that follow behind it.
pub proof fn lemma_next_delivery_of_written(events: Seq<Event>, known: Set<u16>)
    requires
        all_encodable(events),
    ensures
        events.len() == 0 ==> next_delivery(event_frames(events), known) == Delivery::End,
        events.len() > 0 ==> next_delivery(event_frames(events), known) == (if known.contains(
            events[0].conn_id,
        ) {
            Delivery::Send { event: events[0], used: (2 + events[0].wire().len()) as int }
        } else {
            Delivery::Drop { event: events[0], used: (2 + events[0].wire().len()) as int }
        }),
        events.len() > 0 ==> event_frames(events).subrange(
            (2 + events[0].wire().len()) as int,
            event_frames(events).len() as int,
        ) == event_frames(events.drop_first()),
        events.len() > 0 ==> all_encodable(events.drop_first()),
{
    if events.len() == 0 {
        assert(event_frames(events) =~= Seq::<u8>::empty());
    } else {
        lemma_first_frame(events);
        let rest = events.drop_first();
        assert forall|i: int| 0 <= i < rest.len() implies (#[trigger] rest[i]).encodable() by {
            assert(rest[i] == events[i + 1]);
        }
    }
}

/// A pass over the frames of written events hands out the events of the
/// connections that take events, in the order of the profile.
pub proof fn lemma_pass_in_profile_order(events: Seq<Event>, known: Set<u16>)
    requires
        all_encodable(events),
    ensures
        pass_deliveries(event_frames(events), known) == for_connections(events, known),
    decreases events.len(),
{
    if events.len() == 0 {
        assert(event_frames(events) =~= Seq::<u8>::empty());
    } else {
        lemma_first_frame(events);
        let rest = events.drop_first();
        assert(all_encodable(rest)) by {
            assert forall|i: int| 0 <= i < rest.len() implies (#[trigger] rest[i]).encodable() by {
                assert(rest[i] == events[i + 1]);
            }
        }
        lemma_pass_in_profile_order(rest, known);
    }
}

/// Taking the events of some connections apart keeps the order within each
/// part.
pub proof fn lemma_for_connections_concat(a: Seq<Event>, b: Seq<Event>, known: Set<u16>)
    ensures
        for_connections(a + b, known) == for_connections(a, known) + for_connections(b, known),
    decreases a.len(),
{
    if a.len() == 0 {
        assert(a + b =~= b);
        assert(for_connections(a, known) + for_connections(b, known) =~= for_connections(
            b,
            known,
        ));
    } else {
        lemma_for_connections_concat(a.drop_first(), b, known);
        assert((a + b).drop_first() =~= a.drop_first() + b);
        assert(for_connections(a + b, known) =~= for_connections(a, known) + for_connections(
            b,
            known,
        ));
    }
}

/// Each connection sees its events in the order of the profile: among the
/// events handed out for the connections that take events, those of one such
/// connection are the events that the profile holds for it, in the same
/// order.
pub proof fn lemma_connection_sees_profile_order(events: Seq<Event>, known: Set<u16>, conn: u16)
    requires
        known.contains(conn),
    ensures
        for_connections(for_connections(events, known), set![conn]) == for_connections(
            events,
            set![conn],
        ),
    decreases events.len(),
{
    if events.len() > 0 {
        let first = events[0];
        let rest = events.drop_first();
        lemma_connection_sees_profile_order(rest, known, conn);
        let head = if known.contains(first.conn_id) {
            seq![first]
        } else {
            Seq::<Event>::empty()
        };
        lemma_for_connections_concat(head, for_connections(rest, known), set![conn]);
        if known.contains(first.conn_id) {
            assert(head.drop_first() =~= Seq::<Event>::empty());
            assert(for_connections(Seq::<Event>::empty(), set![conn]) =~= Seq::<Event>::empty());
            assert(for_connections(head, set![conn]) =~= (if set![conn].contains(first.conn_id) {
                seq![first]
            } else {
                Seq::<Event>::empty()
            }));
        } else {
            assert(for_connections(head, set![conn]) =~= Seq::<Event>::empty());
            assert(first.conn_id != conn);
        }
    }
}

} // verus!
