//! Writing a profile: events in capture order, then the metadata trailer.

use crate::profile::codec::ProfileError;
use crate::profile::layout::{
    all_encodable, connection_ids, distribution_of, event_frames, frame,
    lemma_command_counts_sum, lemma_connection_ids_bound, lemma_metadata_counts_events,
    metadata_of, profile_image, time_range_of, trailer,
};
use crate::profile::{
    CommandDistribution, Event, ProfileMetadata, PROFILE_MAGIC, PROFILE_VERSION,
};
use std::collections::HashSet;
use vstd::bytes::*;
use vstd::prelude::*;

verus! {

broadcast use vstd::std_specs::hash::group_hash_axioms;

/// Appends `payload` to `out` with its length before it.
pub fn push_frame(out: &mut Vec<u8>, payload: &Vec<u8>)
    requires
        payload@.len() <= u16::MAX,
    ensures
        final(out)@ == old(out)@ + frame(payload@),
{
    let len: u16 = payload.len() as u16;
    let mut prefix = u16_to_le_bytes(len);
    out.append(&mut prefix);
    out.extend_from_slice(payload.as_slice());
}

/// Writes the bytes of a profile. The bytes gather in the writer until
/// `take_bytes` or `finish` hands them out; the file is what was handed out,
/// in order.
pub struct ProfileWriter {
    pending: Vec<u8>,
    handed_out: Ghost<Seq<u8>>,
    events: Ghost<Seq<Event>>,
    events_written: u64,
    time_range: Option<(u64, u64)>,
    connections: HashSet<u16>,
    distribution: CommandDistribution,
}

impl ProfileWriter {
    /// The events written so far, in order.
    pub closed spec fn events(&self) -> Seq<Event> {
        self.events@
    }

    /// The bytes that `take_bytes` has handed out so far.
    pub closed spec fn handed_out(&self) -> Seq<u8> {
        self.handed_out@
    }

    /// The bytes that wait in the writer.
    pub closed spec fn pending(&self) -> Seq<u8> {
        self.pending@
    }

    /// What the writer keeps of the events agrees with the events, and the
    /// bytes produced so far are their frames.
    pub closed spec fn wf(&self) -> bool {
        &&& self.handed_out@ + self.pending@ == event_frames(self.events@)
        &&& all_encodable(self.events@)
        &&& self.events_written == self.events@.len()
        &&& self.connections@ == connection_ids(self.events@)
        &&& self.distribution == distribution_of(self.events@)
        &&& self.time_range == (if self.events@.len() == 0 {
            None
        } else {
            Some(time_range_of(self.events@))
        })
    }

    /// Every event written could be written, and its frame is among the
    /// bytes produced.
    pub proof fn lemma_wf(&self)
        requires
            self.wf(),
        ensures
            all_encodable(self.events()),
            self.handed_out() + self.pending() == event_frames(self.events()),
            self.events().len() <= u64::MAX,
    {
    }

    /// A writer that has written nothing.
    pub fn new() -> (w: ProfileWriter)
        ensures
            w.wf(),
            w.events() == Seq::<Event>::empty(),
            w.handed_out() == Seq::<u8>::empty(),
            w.pending() == Seq::<u8>::empty(),
    {
        ProfileWriter {
            pending: Vec::new(),
            handed_out: Ghost(Seq::empty()),
            events: Ghost(Seq::empty()),
            events_written: 0,
            time_range: None,
            connections: HashSet::new(),
            distribution: CommandDistribution::new(),
        }
    }

    /// Writes one event behind those written before. An event whose value
    /// size is present and zero is refused, and so is any event once
    /// `u64::MAX` events were written; then nothing changes.
    pub fn write_event(&mut self, event: &Event) -> (r: Result<(), ProfileError>)
        requires
            old(self).wf(),
        ensures
            final(self).wf(),
            final(self).handed_out() == old(self).handed_out(),
            r is Ok <==> event.encodable() && old(self).events().len() < u64::MAX,
            r is Ok
                ==> final(self).events() == old(self).events().push(*event)
                && final(self).pending() == old(self).pending() + frame(event.wire()),
            r is Err ==> final(self).events() == old(self).events() && final(self).pending()
                == old(self).pending(),
            !event.encodable() ==> r == Err::<(), ProfileError>(ProfileError::InvalidEvent),
            event.encodable() && old(self).events().len() >= u64::MAX ==> r == Err::<
                (),
                ProfileError,
            >(ProfileError::TooManyEvents),
    {
        let encoded = match event.encode() {
            Ok(bytes) => bytes,
            Err(e) => {
                return Err(e);
            },
        };
        if self.events_written == u64::MAX {
            return Err(ProfileError::TooManyEvents);
        }
        let ghost before = self.events@;
        let ghost after = before.push(*event);
        proof {
            crate::profile::codec::lemma_event_round_trip(*event, Seq::empty());
            assert(after.drop_last() =~= before);
            lemma_command_counts_sum(before);
            lemma_command_counts_sum(after);
        }
        push_frame(&mut self.pending, &encoded);
        self.events_written = self.events_written + 1;
        self.connections.insert(event.conn_id);
        self.time_range = match self.time_range {
            None => Some((event.timestamp, event.timestamp)),
            Some((first, last)) => Some(
                (
                    if event.timestamp < first {
                        event.timestamp
                    } else {
                        first
                    },
                    if event.timestamp > last {
                        event.timestamp
                    } else {
                        last
                    },
                ),
            ),
        };
        let count: u64 = self.distribution.count_of(event.cmd_type);
        self.distribution.insert(event.cmd_type, count + 1);
        self.events = Ghost(after);
        proof {
            assert(self.handed_out@ + self.pending@ =~= event_frames(before) + frame(
                event.wire(),
            ));
        }
        Ok(())
    }

    /// Hands out the bytes that wait in the writer, for the caller to append
    /// to the file.
    pub fn take_bytes(&mut self) -> (r: Vec<u8>)
        requires
            old(self).wf(),
        ensures
            final(self).wf(),
            r@ == old(self).pending(),
            final(self).pending() == Seq::<u8>::empty(),
            final(self).handed_out() == old(self).handed_out() + r@,
            final(self).events() == old(self).events(),
    {
        let mut out: Vec<u8> = Vec::new();
        out.append(&mut self.pending);
        self.handed_out = Ghost(self.handed_out@ + out@);
        proof {
            assert(self.handed_out@ + self.pending@ =~= old(self).handed_out@ + old(self).pending@);
        }
        out
    }

    /// How many events were written so far.
    pub fn event_count(&self) -> (r: u64)
        requires
            self.wf(),
        ensures
            r == self.events().len(),
    {
        self.events_written
    }

    /// The metadata of the events written so far.
    pub fn metadata(&self) -> (m: ProfileMetadata)
        requires
            self.wf(),
        ensures
            m == metadata_of(self.events()),
            m.total_events == self.events().len(),
            m.command_distribution.total() == m.total_events,
            m.consistent(),
    {
        proof {
            lemma_metadata_counts_events(self.events@);
            lemma_connection_ids_bound(self.events@);
        }
        ProfileMetadata {
            magic: PROFILE_MAGIC,
            version: PROFILE_VERSION,
            total_events: self.events_written,
            time_range: match self.time_range {
                None => (0, 0),
                Some(r) => r,
            },
            unique_connections: self.connections.len() as u32,
            command_distribution: self.distribution,
        }
    }

    /// Ends the profile: hands out the bytes that wait in the writer and,
    /// behind them, the metadata block, its length and the magic number.
    /// With what was handed out before, they are the whole file.
    pub fn finish(self) -> (r: Vec<u8>)
        requires
            self.wf(),
        ensures
            self.handed_out() + r@ == profile_image(self.events()),
            r@ == self.pending() + trailer(metadata_of(self.events())),
    {
        let metadata = self.metadata();
        let encoded = metadata.encode();
        let mut out = self.pending;
        out.extend_from_slice(encoded.as_slice());
        let mut length = u16_to_le_bytes(encoded.len() as u16);
        out.append(&mut length);
        let mut magic = u32_to_le_bytes(PROFILE_MAGIC);
        out.append(&mut magic);
        proof {
            assert(out@ =~= self.pending@ + trailer(metadata));
            assert(self.handed_out@ + out@ =~= (self.handed_out@ + self.pending@) + trailer(
                metadata,
            ));
        }
        out
    }
}

} // verus!
