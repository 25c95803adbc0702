//! Reading a whole profile into memory.

use crate::profile::codec::{
    decode_event, decode_metadata, lemma_metadata_round_trip, ProfileError,
};
use crate::profile::layout::{
    all_encodable, connection_ids, event_frames, frame, metadata_of, profile_image,
};
use crate::profile::{Event, ProfileMetadata, PROFILE_MAGIC};
use crate::replay::streamer::lemma_first_frame;
use std::collections::HashSet;
use vstd::bytes::*;
use vstd::prelude::*;
use vstd::slice::slice_subrange;

verus! {

broadcast use vstd::std_specs::hash::group_hash_axioms;

/// The events that a region of frames holds, in order. Reading stops without
/// an error where less than a length is left, or where a length reaches
/// beyond the region; it fails where a frame does not decode.
pub open spec fn parse_events(region: Seq<u8>) -> Result<Seq<Event>, ProfileError>
    decreases region.len(),
{
    if region.len() < 2 {
        Ok(Seq::empty())
    } else {
        let len = spec_u16_from_le_bytes(region.subrange(0, 2)) as int;
        if 2 + len > region.len() {
            Ok(Seq::empty())
        } else {
            match decode_event(region.subrange(2, 2 + len)) {
                Err(e) => Err(e),
                Ok(event) => prepend(
                    seq![event],
                    parse_events(region.subrange(2 + len, region.len() as int)),
                ),
            }
        }
    }
}

/// `events` before the events of `rest`, where `rest` has any.
pub open spec fn prepend(events: Seq<Event>, rest: Result<Seq<Event>, ProfileError>) -> Result<
    Seq<Event>,
    ProfileError,
> {
    match rest {
        Err(e) => Err(e),
        Ok(more) => Ok(events + more),
    }
}

/// Where the metadata block of a profile starts, found from the tail: the
/// magic number in the last four bytes, the block's length in the two bytes
/// before it, the block before that.
pub open spec fn metadata_start(data: Seq<u8>) -> Result<int, ProfileError> {
    let len = data.len() as int;
    if len < 4 {
        Err(ProfileError::TooSmall)
    } else if spec_u32_from_le_bytes(data.subrange(len - 4, len)) != PROFILE_MAGIC {
        Err(ProfileError::MissingEndMarker)
    } else if len < 6 {
        Err(ProfileError::TooSmallForMetadata)
    } else if len - 6 < spec_u16_from_le_bytes(data.subrange(len - 6, len - 4)) {
        Err(ProfileError::MetadataExceedsFile)
    } else {
        Ok(len - 6 - spec_u16_from_le_bytes(data.subrange(len - 6, len - 4)))
    }
}

/// The metadata and the events of the profile `data`, or why it is none.
pub open spec fn parse_profile(data: Seq<u8>) -> Result<
    (ProfileMetadata, Seq<Event>),
    ProfileError,
> {
    match metadata_start(data) {
        Err(e) => Err(e),
        Ok(start) => match decode_metadata(data.subrange(start, data.len() - 6)) {
            Err(e) => Err(e),
            Ok(metadata) => match parse_events(data.subrange(0, start)) {
                Err(e) => Err(e),
                Ok(events) => Ok((metadata, events)),
            },
        },
    }
}

/// Finds the metadata block of a profile from its tail.
pub fn locate_metadata(data: &[u8]) -> (r: Result<usize, ProfileError>)
    ensures
        match metadata_start(data@) {
            Ok(start) => r == Ok::<usize, ProfileError>(start as usize) && 0 <= start
                <= data@.len() - 6,
            Err(e) => r == Err::<usize, ProfileError>(e),
        },
{
    let len: usize = data.len();
    if len < 4 {
        return Err(ProfileError::TooSmall);
    }
    let marker: u32 = u32_from_le_bytes(slice_subrange(data, len - 4, len));
    if marker != PROFILE_MAGIC {
        return Err(ProfileError::MissingEndMarker);
    }
    if len < 6 {
        return Err(ProfileError::TooSmallForMetadata);
    }
    let metadata_len: usize = u16_from_le_bytes(slice_subrange(data, len - 6, len - 4)) as usize;
    if len - 6 < metadata_len {
        return Err(ProfileError::MetadataExceedsFile);
    }
    Ok(len - 6 - metadata_len)
}

/// A profile read into memory.
pub struct ProfileReader {
    metadata: ProfileMetadata,
    events: Vec<Event>,
}

impl ProfileReader {
    /// The metadata block of the profile.
    pub closed spec fn spec_metadata(&self) -> ProfileMetadata {
        self.metadata
    }

    /// The events of the profile, in order.
    pub closed spec fn spec_events(&self) -> Seq<Event> {
        self.events@
    }

    /// Reads the profile that `data` holds.
    pub fn new(data: &[u8]) -> (r: Result<ProfileReader, ProfileError>)
        ensures
            match parse_profile(data@) {
                Ok((metadata, events)) => r matches Ok(reader) && reader.spec_metadata()
                    == metadata && reader.spec_events() == events,
                Err(e) => r matches Err(f) && f == e,
            },
    {
        let start: usize = match locate_metadata(data) {
            Ok(start) => start,
            Err(e) => {
                return Err(e);
            },
        };
        let metadata = match ProfileMetadata::decode(slice_subrange(data, start, data.len() - 6)) {
            Ok(m) => m,
            Err(e) => {
                return Err(e);
            },
        };
        let ghost region = data@.subrange(0, start as int);
        let mut events: Vec<Event> = Vec::new();
        let mut offset: usize = 0;
        proof {
            assert(region.subrange(0, region.len() as int) =~= region);
        }
        while start - offset >= 2
            invariant
                offset <= start <= data@.len() - 6,
                region == data@.subrange(0, start as int),
                metadata_start(data@) == Ok::<int, ProfileError>(start as int),
                decode_metadata(data@.subrange(start as int, data@.len() - 6)) == Ok::<
                    ProfileMetadata,
                    ProfileError,
                >(metadata),
                parse_events(region) == prepend(
                    events@,
                    parse_events(region.subrange(offset as int, start as int)),
                ),
            decreases start - offset,
        {
            let ghost rest = region.subrange(offset as int, start as int);
            let len: usize = u16_from_le_bytes(slice_subrange(data, offset, offset + 2)) as usize;
            proof {
                assert(rest.subrange(0, 2) =~= data@.subrange(offset as int, offset + 2));
            }
            if len > start - offset - 2 {
                proof {
                    assert(events@ + Seq::<Event>::empty() =~= events@);
                }
                return Ok(ProfileReader { metadata, events });
            }
            let body = slice_subrange(data, offset + 2, offset + 2 + len);
            proof {
                assert(rest.subrange(2, 2 + len) =~= body@);
                assert(rest.subrange(2 + len, rest.len() as int) =~= region.subrange(
                    offset + 2 + len,
                    start as int,
                ));
            }
            let event = match Event::decode(body) {
                Ok(e) => e,
                Err(e) => {
                    return Err(e);
                },
            };
            proof {
                let tail = parse_events(region.subrange(offset + 2 + len, start as int));
                match tail {
                    Ok(more) => {
                        assert(events@ + (seq![event] + more) =~= events@.push(event) + more);
                    },
                    Err(_) => {},
                }
            }
            events.push(event);
            offset = offset + 2 + len;
        }
        proof {
            assert(events@ + Seq::<Event>::empty() =~= events@);
        }
        Ok(ProfileReader { metadata, events })
    }

    /// The metadata block of the profile.
    pub fn metadata(&self) -> (r: &ProfileMetadata)
        ensures
            *r == self.spec_metadata(),
    {
        &self.metadata
    }

    /// The events of the profile, in order.
    pub fn events(&self) -> (r: &[Event])
        ensures
            r@ == self.spec_events(),
    {
        self.events.as_slice()
    }

    /// The connections that the events of the profile were seen on, each
    /// once, in the order in which they first occur.
    pub fn connection_ids(&self) -> (r: Vec<u16>)
        ensures
            r@ == first_seen(self.spec_events()),
            r@.to_set() == connection_ids(self.spec_events()),
            r@.no_duplicates(),
    {
        unique_connections(self.events.as_slice())
    }
}

/// The connections that `events` were seen on, each once, in the order in
/// which they first occur.
pub open spec fn first_seen(events: Seq<Event>) -> Seq<u16>
    decreases events.len(),
{
    if events.len() == 0 {
        Seq::empty()
    } else if first_seen(events.drop_last()).contains(events.last().conn_id) {
        first_seen(events.drop_last())
    } else {
        first_seen(events.drop_last()).push(events.last().conn_id)
    }
}

/// The connections that `events` were seen on, each once, in the order in
/// which they first occur.
pub fn unique_connections(events: &[Event]) -> (r: Vec<u16>)
    ensures
        r@ == first_seen(events@),
        r@.to_set() == connection_ids(events@),
        r@.no_duplicates(),
{
    let mut seen: HashSet<u16> = HashSet::new();
    let mut out: Vec<u16> = Vec::new();
    let mut i: usize = 0;
    proof {
        assert(events@.take(0) =~= Seq::<Event>::empty());
        assert(out@.to_set() =~= Set::<u16>::empty());
    }
    while i < events.len()
        invariant
            i <= events@.len(),
            seen@ == connection_ids(events@.take(i as int)),
            out@ == first_seen(events@.take(i as int)),
            out@.to_set() == seen@,
            out@.no_duplicates(),
        decreases events@.len() - i,
    {
        let id: u16 = events[i].conn_id;
        proof {
            assert(events@.take(i + 1).drop_last() =~= events@.take(i as int));
            out@.lemma_push_to_set_commute(id);
        }
        if seen.insert(id) {
            proof {
                assert(!out@.contains(id));
            }
            out.push(id);
        } else {
            proof {
                assert(seen@.insert(id) =~= seen@);
            }
        }
        i = i + 1;
    }
    proof {
        assert(events@.take(i as int) =~= events@);
    }
    out
}

/// The frames of `rest` behind the frame of `first` are the frames of
/// `first` before `rest`.
pub proof fn lemma_event_frames_front(first: Event, rest: Seq<Event>)
    ensures
        event_frames(seq![first] + rest) == frame(first.wire()) + event_frames(rest),
    decreases rest.len(),
{
    let all = seq![first] + rest;
    if rest.len() == 0 {
        assert(all.drop_last() =~= Seq::<Event>::empty());
        assert(event_frames(Seq::<Event>::empty()) =~= Seq::<u8>::empty());
        assert(event_frames(all) =~= frame(first.wire()));
        assert(frame(first.wire()) + event_frames(rest) =~= frame(first.wire()));
    } else {
        lemma_event_frames_front(first, rest.drop_last());
        assert(all.drop_last() =~= seq![first] + rest.drop_last());
        assert(event_frames(all) =~= frame(first.wire()) + event_frames(rest));
    }
}

/// Reading the frames of events that can be written gives the events back.
pub proof fn lemma_parse_event_frames(events: Seq<Event>)
    requires
        all_encodable(events),
    ensures
        parse_events(event_frames(events)) == Ok::<Seq<Event>, ProfileError>(events),
    decreases events.len(),
{
    if events.len() > 0 {
        let first = events.first();
        let rest = events.drop_first();
        lemma_first_frame(events);
        assert(all_encodable(rest)) by {
            assert forall|i: int| 0 <= i < rest.len() implies (#[trigger] rest[i]).encodable() by {
                assert(rest[i] == events[i + 1]);
            }
        }
        lemma_parse_event_frames(rest);
        assert(seq![first] + rest =~= events);
    } else {
        assert(events =~= Seq::<Event>::empty());
        assert(event_frames(events) =~= Seq::<u8>::empty());
    }
}

/// What is read from a written profile is what was written: for every
/// sequence of events that can be written, the file of a profile that holds
/// them reads back as the same events, field for field and in order, with the
/// metadata that sums them up.
pub proof fn lemma_read_write_round_trip(events: Seq<Event>)
    requires
        all_encodable(events),
    ensures
        parse_profile(profile_image(events)) == Ok::<(ProfileMetadata, Seq<Event>), ProfileError>(
            (metadata_of(events), events),
        ),
{
    let m = metadata_of(events);
    let data = profile_image(events);
    let frames = event_frames(events);
    lemma_metadata_round_trip(m, Seq::empty());
    lemma_parse_event_frames(events);
    lemma_auto_spec_u16_to_from_le_bytes();
    lemma_auto_spec_u32_to_from_le_bytes();
    let len = data.len() as int;
    let mlen = m.wire().len() as int;
    assert(len == frames.len() + mlen + 6);
    assert(data.subrange(len - 4, len) =~= spec_u32_to_le_bytes(PROFILE_MAGIC));
    assert(data.subrange(len - 6, len - 4) =~= spec_u16_to_le_bytes(mlen as u16));
    assert(data.subrange(frames.len() as int, len - 6) =~= m.wire() + Seq::<u8>::empty());
    assert(data.subrange(0, frames.len() as int) =~= frames);
}

} // verus!
