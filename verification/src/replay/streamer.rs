//! Streaming the events of a profile one by one, with rewind.

use crate::profile::codec::{
    decode_event, lemma_event_round_trip, lemma_metadata_round_trip, ProfileError,
};
use crate::profile::layout::{all_encodable, event_frames, frame, metadata_of, profile_image};
use crate::profile::{Event, PROFILE_MAGIC};
use crate::replay::reader::{lemma_event_frames_front, locate_metadata, metadata_start};
use vstd::bytes::*;
use vstd::prelude::*;
use vstd::slice::slice_subrange;

verus! {

/// Where the event region of a profile ends, for a streamer: as the reader
/// finds it, but a file of less than six bytes is too small whatever it
/// holds.
pub open spec fn stream_region_end(data: Seq<u8>) -> Result<int, ProfileError> {
    if data.len() < 6 {
        Err(ProfileError::TooSmall)
    } else {
        metadata_start(data)
    }
}

/// The length that the frame at the start of `remaining` announces.
pub open spec fn announced_len(remaining: Seq<u8>) -> int {
    spec_u16_from_le_bytes(remaining.subrange(0, 2)) as int
}

/// A forward cursor over the events of a profile held in memory.
pub struct ProfileStreamer {
    data: Vec<u8>,
    event_end_offset: usize,
    current_offset: usize,
}

impl ProfileStreamer {
    /// The cursor lies within the event region, and the region within the
    /// file.
    pub closed spec fn wf(&self) -> bool {
        self.current_offset <= self.event_end_offset <= self.data@.len()
    }

    /// The event region of the profile.
    pub closed spec fn region(&self) -> Seq<u8> {
        self.data@.subrange(0, self.event_end_offset as int)
    }

    /// How many bytes of the region lie before the cursor.
    pub closed spec fn position(&self) -> int {
        self.current_offset as int
    }

    /// The bytes of the region from the cursor on.
    pub open spec fn remaining(&self) -> Seq<u8> {
        self.region().subrange(self.position(), self.region().len() as int)
    }

    /// The cursor lies within the region.
    pub proof fn lemma_position_in_region(&self)
        requires
            self.wf(),
        ensures
            0 <= self.position() <= self.region().len(),
    {
    }

    /// A streamer at the start of the profile that `data` holds.
    pub fn new(data: Vec<u8>) -> (r: Result<ProfileStreamer, ProfileError>)
        ensures
            match stream_region_end(data@) {
                Ok(end) => r matches Ok(s) && s.wf() && s.position() == 0 && s.region()
                    == data@.subrange(0, end),
                Err(e) => r matches Err(f) && f == e,
            },
    {
        if data.len() < 6 {
            return Err(ProfileError::TooSmall);
        }
        match locate_metadata(data.as_slice()) {
            Err(e) => Err(e),
            Ok(end) => Ok(ProfileStreamer { data, event_end_offset: end, current_offset: 0 }),
        }
    }

    /// The next event, or `None` where less than a length is left before the
    /// end of the event region. Where the length read reaches beyond the
    /// region, or the event does not decode, the call fails and the cursor
    /// stays behind the length.
    pub fn next_event(&mut self) -> (r: Result<Option<Event>, ProfileError>)
        requires
            old(self).wf(),
        ensures
            final(self).wf(),
            final(self).region() == old(self).region(),
            old(self).remaining().len() < 2 ==> r == Ok::<Option<Event>, ProfileError>(None)
                && final(self).position() == old(self).position(),
            old(self).remaining().len() >= 2
                && 2 + announced_len(old(self).remaining()) > old(self).remaining().len()
                ==> r == Err::<Option<Event>, ProfileError>(
                ProfileError::EventExceedsBoundary,
            ) && final(self).position() == old(self).position() + 2,
            old(self).remaining().len() >= 2
                && 2 + announced_len(old(self).remaining()) <= old(self).remaining().len()
                ==> (match decode_event(
                old(self).remaining().subrange(2, 2 + announced_len(old(self).remaining())),
            ) {
                Ok(event) => r == Ok::<Option<Event>, ProfileError>(Some(event))
                    && final(self).position() == old(self).position() + 2 + announced_len(
                    old(self).remaining(),
                ),
                Err(e) => r == Err::<Option<Event>, ProfileError>(e) && final(self).position()
                    == old(self).position() + 2,
            }),
    {
        let ghost remaining = self.remaining();
        if self.event_end_offset - self.current_offset < 2 {
            return Ok(None);
        }
        let len: usize = u16_from_le_bytes(
            slice_subrange(self.data.as_slice(), self.current_offset, self.current_offset + 2),
        ) as usize;
        proof {
            assert(remaining.subrange(0, 2) =~= self.data@.subrange(
                self.current_offset as int,
                self.current_offset + 2,
            ));
        }
        self.current_offset = self.current_offset + 2;
        if len > self.event_end_offset - self.current_offset {
            return Err(ProfileError::EventExceedsBoundary);
        }
        let body = slice_subrange(
            self.data.as_slice(),
            self.current_offset,
            self.current_offset + len,
        );
        proof {
            assert(remaining.subrange(2, 2 + len) =~= body@);
        }
        match Event::decode(body) {
            Err(e) => Err(e),
            Ok(event) => {
                self.current_offset = self.current_offset + len;
                Ok(Some(event))
            },
        }
    }

    /// Moves the cursor back to the first event.
    pub fn reset(&mut self) -> (r: Result<(), ProfileError>)
        requires
            old(self).wf(),
        ensures
            r is Ok,
            final(self).wf(),
            final(self).position() == 0,
            final(self).region() == old(self).region(),
    {
        self.current_offset = 0;
        Ok(())
    }
}

/// At the start of the frames of written events stands the first event: its
/// length is announced, it fits, it decodes to the event, and behind it stand
/// the frames of the events that follow.
pub proof fn lemma_first_frame(events: Seq<Event>)
    requires
        all_encodable(events),
        events.len() > 0,
    ensures
        event_frames(events).len() >= 2,
        announced_len(event_frames(events)) == events[0].wire().len(),
        2 + announced_len(event_frames(events)) <= event_frames(events).len(),
        decode_event(
            event_frames(events).subrange(2, 2 + announced_len(event_frames(events))),
        ) == Ok::<Event, ProfileError>(events[0]),
        event_frames(events).subrange(
            2 + announced_len(event_frames(events)),
            event_frames(events).len() as int,
        ) == event_frames(events.drop_first()),
{
    let first = events.first();
    let rest = events.drop_first();
    let region = event_frames(events);
    assert(events =~= seq![first] + rest);
    lemma_event_frames_front(first, rest);
    lemma_event_round_trip(first, Seq::empty());
    lemma_auto_spec_u16_to_from_le_bytes();
    let len = first.wire().len() as int;
    assert(region.subrange(0, 2) =~= spec_u16_to_le_bytes(len as u16));
    assert(region.subrange(2, 2 + len) =~= first.wire() + Seq::<u8>::empty());
    assert(region.subrange(2 + len, region.len() as int) =~= event_frames(rest));
}

/// The event region of a written profile is the frames of its events: a
/// streamer over the file of a profile that holds `events` finds its region
/// to end where their frames end.
pub proof fn lemma_region_of_written(events: Seq<Event>)
    ensures
        stream_region_end(profile_image(events)) == Ok::<int, ProfileError>(
            event_frames(events).len() as int,
        ),
        profile_image(events).subrange(0, event_frames(events).len() as int) == event_frames(
            events,
        ),
{
    let m = metadata_of(events);
    let data = profile_image(events);
    let frames = event_frames(events);
    lemma_metadata_round_trip(m, Seq::empty());
    lemma_auto_spec_u16_to_from_le_bytes();
    lemma_auto_spec_u32_to_from_le_bytes();
    let len = data.len() as int;
    let mlen = m.wire().len() as int;
    assert(len == frames.len() + mlen + 6);
    assert(data.subrange(len - 4, len) =~= spec_u32_to_le_bytes(PROFILE_MAGIC));
    assert(data.subrange(len - 6, len - 4) =~= spec_u16_to_le_bytes(mlen as u16));
    assert(data.subrange(0, frames.len() as int) =~= frames);
}

} // verus!
