//! The layout of a profile file, as mathematics: event frames head to tail,
//! then the metadata block, its length and the magic number.

use crate::profile::{
    CommandDistribution, CommandType, Event, ProfileMetadata, PROFILE_MAGIC, PROFILE_VERSION,
};
use vstd::bytes::*;
use vstd::prelude::*;
use vstd::relations::injective_on;
use vstd::set_lib::*;

verus! {

/// A payload with its length before it, as 16 bits little-endian.
pub open spec fn frame(payload: Seq<u8>) -> Seq<u8> {
    spec_u16_to_le_bytes(payload.len() as u16) + payload
}

/// The event region of a profile that holds `events` in this order.
pub open spec fn event_frames(events: Seq<Event>) -> Seq<u8>
    decreases events.len(),
{
    if events.len() == 0 {
        Seq::empty()
    } else {
        event_frames(events.drop_last()) + frame(events.last().wire())
    }
}

/// The connections that `events` were seen on.
pub open spec fn connection_ids(events: Seq<Event>) -> Set<u16>
    decreases events.len(),
{
    if events.len() == 0 {
        Set::empty()
    } else {
        connection_ids(events.drop_last()).insert(events.last().conn_id)
    }
}

/// How many of `events` are of the kind `cmd`.
pub open spec fn command_count(events: Seq<Event>, cmd: CommandType) -> nat
    decreases events.len(),
{
    if events.len() == 0 {
        0
    } else {
        command_count(events.drop_last(), cmd) + (if events.last().cmd_type == cmd {
            1nat
        } else {
            0nat
        })
    }
}

/// The command distribution of `events`.
pub open spec fn distribution_of(events: Seq<Event>) -> CommandDistribution {
    CommandDistribution {
        get: command_count(events, CommandType::Get) as u64,
        store: command_count(events, CommandType::Store) as u64,
        delete: command_count(events, CommandType::Delete) as u64,
        noop: command_count(events, CommandType::Noop) as u64,
    }
}

/// The lowest and the highest timestamp among `events`; zeros where there
/// are none.
pub open spec fn time_range_of(events: Seq<Event>) -> (u64, u64)
    decreases events.len(),
{
    if events.len() == 0 {
        (0, 0)
    } else if events.len() == 1 {
        (events[0].timestamp, events[0].timestamp)
    } else {
        let r = time_range_of(events.drop_last());
        let t = events.last().timestamp;
        (
            if t < r.0 {
                t
            } else {
                r.0
            },
            if t > r.1 {
                t
            } else {
                r.1
            },
        )
    }
}

/// The metadata block of a profile that holds `events`.
pub open spec fn metadata_of(events: Seq<Event>) -> ProfileMetadata {
    ProfileMetadata {
        magic: PROFILE_MAGIC,
        version: PROFILE_VERSION,
        total_events: events.len() as u64,
        time_range: time_range_of(events),
        unique_connections: connection_ids(events).len() as u32,
        command_distribution: distribution_of(events),
    }
}

/// The tail of a profile: the metadata block, its length as 16 bits
/// little-endian, and the magic number as 32 bits little-endian.
pub open spec fn trailer(m: ProfileMetadata) -> Seq<u8> {
    m.wire() + spec_u16_to_le_bytes(m.wire().len() as u16) + spec_u32_to_le_bytes(PROFILE_MAGIC)
}

/// The whole file of a profile that holds `events` in this order.
pub open spec fn profile_image(events: Seq<Event>) -> Seq<u8> {
    event_frames(events) + trailer(metadata_of(events))
}

/// Every one of `events` can be written.
pub open spec fn all_encodable(events: Seq<Event>) -> bool {
    forall|i: int| 0 <= i < events.len() ==> (#[trigger] events[i]).encodable()
}

/// No more than 65536 connections can be told apart.
pub proof fn lemma_connection_ids_bound(events: Seq<Event>)
    ensures
        connection_ids(events).finite(),
        connection_ids(events).len() <= 65536,
        connection_ids(events).len() <= events.len(),
    decreases events.len(),
{
    if events.len() > 0 {
        lemma_connection_ids_bound(events.drop_last());
    }
    let s = connection_ids(events);
    let f = |c: u16| c as int;
    let image = s.map(f);
    assert(injective_on(f, s));
    lemma_map_size(s, image, f);
    lemma_int_range(0, 65536);
    assert(image.subset_of(set_int_range(0, 65536)));
    lemma_len_subset(image, set_int_range(0, 65536));
}

/// Every event is counted under exactly one command.
pub proof fn lemma_command_counts_sum(events: Seq<Event>)
    ensures
        command_count(events, CommandType::Get) + command_count(events, CommandType::Store)
            + command_count(events, CommandType::Delete) + command_count(
            events,
            CommandType::Noop,
        ) == events.len(),
    decreases events.len(),
{
    if events.len() > 0 {
        lemma_command_counts_sum(events.drop_last());
    }
}

/// The time range is ordered.
pub proof fn lemma_time_range_ordered(events: Seq<Event>)
    ensures
        time_range_of(events).0 <= time_range_of(events).1,
    decreases events.len(),
{
    if events.len() > 1 {
        lemma_time_range_ordered(events.drop_last());
    }
}

/// The metadata of a recorded profile counts its events: the total is the
/// number of events in the file, and the counts of the command distribution
/// add up to the total. Its time range is ordered.
pub proof fn lemma_metadata_counts_events(events: Seq<Event>)
    requires
        events.len() <= u64::MAX,
    ensures
        metadata_of(events).total_events == events.len(),
        metadata_of(events).command_distribution.total() == metadata_of(events).total_events,
        metadata_of(events).consistent(),
        metadata_of(events).unique_connections == connection_ids(events).len(),
{
    lemma_command_counts_sum(events);
    lemma_time_range_ordered(events);
    lemma_connection_ids_bound(events);
}

} // verus!
