//! The binary form of the records in a profile: what `bincode` writes for an
//! event and for the metadata block, and how records map to the event model.

use crate::profile::{CommandDistribution, CommandType, Event, Flags, ProfileMetadata};
use vstd::bytes::*;
use vstd::prelude::*;

verus! {

/// Why a profile could not be written or read.
#[derive(Debug, Clone, Copy, PartialEq, Eq, Structural)]
pub enum ProfileError {
    /// The file is too short to hold the end marker.
    TooSmall,
    /// The file does not end in the magic number.
    MissingEndMarker,
    /// The file is too short to hold the length of the metadata block.
    TooSmallForMetadata,
    /// The metadata block is said to be longer than what precedes it.
    MetadataExceedsFile,
    /// The metadata block does not decode.
    BadMetadata,
    /// An event record does not decode.
    BadEvent,
    /// An event record is said to reach beyond the event region.
    EventExceedsBoundary,
    /// The event cannot be written: its value size is present and zero.
    InvalidEvent,
    /// The writer has counted as many events as it can.
    TooManyEvents,
}

impl ProfileError {
    /// A sentence for the user.
    pub fn message(&self) -> (r: &'static str)
        ensures
            r@ == match *self {
                ProfileError::TooSmall => "file too small"@,
                ProfileError::MissingEndMarker => "invalid file format: missing end marker"@,
                ProfileError::TooSmallForMetadata => "file too small for metadata"@,
                ProfileError::MetadataExceedsFile => "metadata length exceeds file size"@,
                ProfileError::BadMetadata => "metadata block does not decode"@,
                ProfileError::BadEvent => "event record does not decode"@,
                ProfileError::EventExceedsBoundary => "event data exceeds file boundary"@,
                ProfileError::InvalidEvent => "event has a value size of zero"@,
                ProfileError::TooManyEvents => "too many events"@,
            },
    {
        match self {
            ProfileError::TooSmall => "file too small",
            ProfileError::MissingEndMarker => "invalid file format: missing end marker",
            ProfileError::TooSmallForMetadata => "file too small for metadata",
            ProfileError::MetadataExceedsFile => "metadata length exceeds file size",
            ProfileError::BadMetadata => "metadata block does not decode",
            ProfileError::BadEvent => "event record does not decode",
            ProfileError::EventExceedsBoundary => "event data exceeds file boundary",
            ProfileError::InvalidEvent => "event has a value size of zero",
            ProfileError::TooManyEvents => "too many events",
        }
    }
}

/// The error of `bincode`, of which nothing but its presence is used.
#[verifier::external_type_specification]
#[verifier::external_body]
pub struct ExBincodeErrorKind(bincode::ErrorKind);

/// The fields of an event as the profile stores them, in the order in which
/// they are written.
#[derive(Debug, Clone, Copy)]
pub struct EventRecord {
    pub timestamp: u64,
    pub conn_id: u16,
    /// The tag of the command.
    pub command: u32,
    /// The packed flags.
    pub flags: u8,
    pub key_hash: u64,
    pub key_size: u32,
    pub value_size: Option<u32>,
}

/// The bytes of an optional 32-bit size: one byte that says whether it is
/// present, then the size itself where it is.
pub open spec fn optional_size_bytes(size: Option<u32>) -> Seq<u8> {
    match size {
        None => seq![0u8],
        Some(v) => seq![1u8] + spec_u32_to_le_bytes(v),
    }
}

/// The bytes of an event record: its fields in order, each integer
/// little-endian at its full width.
pub open spec fn event_record_bytes(r: EventRecord) -> Seq<u8> {
    spec_u64_to_le_bytes(r.timestamp) + spec_u16_to_le_bytes(r.conn_id) + spec_u32_to_le_bytes(
        r.command,
    ) + seq![r.flags] + spec_u64_to_le_bytes(r.key_hash) + spec_u32_to_le_bytes(r.key_size)
        + optional_size_bytes(r.value_size)
}

/// The event record at the start of `b`, if `b` starts with one. Bytes behind
/// the record are ignored.
pub open spec fn parse_event_record(b: Seq<u8>) -> Option<EventRecord> {
    if b.len() < 28 {
        None
    } else if b[27] == 0 {
        Some(
            EventRecord {
                timestamp: spec_u64_from_le_bytes(b.subrange(0, 8)),
                conn_id: spec_u16_from_le_bytes(b.subrange(8, 10)),
                command: spec_u32_from_le_bytes(b.subrange(10, 14)),
                flags: b[14],
                key_hash: spec_u64_from_le_bytes(b.subrange(15, 23)),
                key_size: spec_u32_from_le_bytes(b.subrange(23, 27)),
                value_size: None,
            },
        )
    } else if b[27] == 1 && b.len() >= 32 {
        Some(
            EventRecord {
                timestamp: spec_u64_from_le_bytes(b.subrange(0, 8)),
                conn_id: spec_u16_from_le_bytes(b.subrange(8, 10)),
                command: spec_u32_from_le_bytes(b.subrange(10, 14)),
                flags: b[14],
                key_hash: spec_u64_from_le_bytes(b.subrange(15, 23)),
                key_size: spec_u32_from_le_bytes(b.subrange(23, 27)),
                value_size: Some(spec_u32_from_le_bytes(b.subrange(28, 32))),
            },
        )
    } else {
        None
    }
}

/// Calls `bincode::serialize` on the fields of an event record as a tuple.
/// Trusted: with its default options bincode writes the fields in order,
/// every integer little-endian at its fixed width and an option as a tag byte
/// before the value; writing to memory without a size limit does not fail.
#[verifier::external_body]
fn bincode_serialize_event(r: &EventRecord) -> (out: Result<Vec<u8>, Box<bincode::ErrorKind>>)
    ensures
        out is Ok,
        out matches Ok(v) ==> v@ == event_record_bytes(*r),
{
    bincode::serialize(
        &(r.timestamp, r.conn_id, r.command, r.flags, r.key_hash, r.key_size, r.value_size),
    )
}

/// Calls `bincode::deserialize` for the fields of an event record as a tuple.
/// Trusted: bincode reads the fields in order as `bincode_serialize_event`
/// writes them, fails where the bytes end early or the option's tag is
/// neither 0 nor 1, and leaves bytes behind the record unread.
#[verifier::external_body]
fn bincode_deserialize_event(bytes: &[u8]) -> (out: Result<EventRecord, Box<bincode::ErrorKind>>)
    ensures
        out matches Ok(r) ==> parse_event_record(bytes@) == Some(r),
        out is Err ==> parse_event_record(bytes@) is None,
{
    bincode::deserialize::<(u64, u16, u32, u8, u64, u32, Option<u32>)>(bytes).map(
        |t| EventRecord {
            timestamp: t.0,
            conn_id: t.1,
            command: t.2,
            flags: t.3,
            key_hash: t.4,
            key_size: t.5,
            value_size: t.6,
        },
    )
}

/// Reading back what was written gives the record, whatever follows it.
pub proof fn lemma_event_record_round_trip(r: EventRecord, rest: Seq<u8>)
    ensures
        parse_event_record(event_record_bytes(r) + rest) == Some(r),
        event_record_bytes(r).len() == (if r.value_size is Some {
            32int
        } else {
            28int
        }),
{
    lemma_auto_spec_u64_to_from_le_bytes();
    lemma_auto_spec_u32_to_from_le_bytes();
    lemma_auto_spec_u16_to_from_le_bytes();
    let b = event_record_bytes(r) + rest;
    assert(b.subrange(0, 8) =~= spec_u64_to_le_bytes(r.timestamp));
    assert(b.subrange(8, 10) =~= spec_u16_to_le_bytes(r.conn_id));
    assert(b.subrange(10, 14) =~= spec_u32_to_le_bytes(r.command));
    assert(b.subrange(15, 23) =~= spec_u64_to_le_bytes(r.key_hash));
    assert(b.subrange(23, 27) =~= spec_u32_to_le_bytes(r.key_size));
    match r.value_size {
        None => {},
        Some(v) => {
            assert(b.subrange(28, 32) =~= spec_u32_to_le_bytes(v));
        },
    }
}

impl Event {
    /// Whether the profile can hold the event: a value size that is present
    /// is not zero.
    pub open spec fn encodable(self) -> bool {
        self.value_size != Some(0u32)
    }

    /// The event as the profile stores it.
    pub open spec fn record(self) -> EventRecord {
        EventRecord {
            timestamp: self.timestamp,
            conn_id: self.conn_id,
            command: self.cmd_type.spec_index(),
            flags: self.flags.spec_bits(),
            key_hash: self.key_hash,
            key_size: self.key_size,
            value_size: self.value_size,
        }
    }

    /// The bytes of the event in a profile, without the length before them.
    pub open spec fn wire(self) -> Seq<u8> {
        event_record_bytes(self.record())
    }

    /// The bytes of the event in a profile, without the length before them.
    /// An event whose value size is present and zero is refused.
    pub fn encode(&self) -> (r: Result<Vec<u8>, ProfileError>)
        ensures
            self.encodable() ==> (r matches Ok(v) && v@ == self.wire()),
            !self.encodable() ==> r == Err::<Vec<u8>, ProfileError>(ProfileError::InvalidEvent),
    {
        match self.value_size {
            Some(v) => {
                if v == 0 {
                    return Err(ProfileError::InvalidEvent);
                }
            },
            None => {},
        }
        let record = EventRecord {
            timestamp: self.timestamp,
            conn_id: self.conn_id,
            command: self.cmd_type.index(),
            flags: self.flags.bits(),
            key_hash: self.key_hash,
            key_size: self.key_size,
            value_size: self.value_size,
        };
        match bincode_serialize_event(&record) {
            Ok(bytes) => Ok(bytes),
            Err(_) => Err(ProfileError::InvalidEvent),
        }
    }

    /// The event at the start of `bytes`. Bytes behind it are ignored.
    pub fn decode(bytes: &[u8]) -> (r: Result<Event, ProfileError>)
        ensures
            r == decode_event(bytes@),
    {
        match bincode_deserialize_event(bytes) {
            Err(_) => Err(ProfileError::BadEvent),
            Ok(record) => event_of_record(record),
        }
    }
}

/// The event that a stored record stands for. A record with a command tag
/// that no command has, or with a value size of zero, stands for none.
pub open spec fn spec_event_of_record(r: EventRecord) -> Result<Event, ProfileError> {
    match CommandType::spec_from_index(r.command) {
        None => Err(ProfileError::BadEvent),
        Some(cmd_type) => if r.value_size == Some(0u32) {
            Err(ProfileError::BadEvent)
        } else {
            Ok(
                Event {
                    timestamp: r.timestamp,
                    conn_id: r.conn_id,
                    cmd_type,
                    flags: Flags::spec_from_bits(r.flags),
                    key_hash: r.key_hash,
                    key_size: r.key_size,
                    value_size: r.value_size,
                },
            )
        },
    }
}

/// The event that starts `b`, or why there is none.
pub open spec fn decode_event(b: Seq<u8>) -> Result<Event, ProfileError> {
    match parse_event_record(b) {
        None => Err(ProfileError::BadEvent),
        Some(r) => spec_event_of_record(r),
    }
}

/// The event that a stored record stands for.
pub fn event_of_record(r: EventRecord) -> (out: Result<Event, ProfileError>)
    ensures
        out == spec_event_of_record(r),
{
    match CommandType::from_index(r.command) {
        None => Err(ProfileError::BadEvent),
        Some(cmd_type) => {
            match r.value_size {
                Some(v) => {
                    if v == 0 {
                        return Err(ProfileError::BadEvent);
                    }
                },
                None => {},
            }
            Ok(
                Event {
                    timestamp: r.timestamp,
                    conn_id: r.conn_id,
                    cmd_type,
                    flags: Flags::from_bits(r.flags),
                    key_hash: r.key_hash,
                    key_size: r.key_size,
                    value_size: r.value_size,
                },
            )
        },
    }
}

/// Decoding the bytes of an event that the profile can hold gives the event
/// back, field for field, whatever follows the bytes.
pub proof fn lemma_event_round_trip(e: Event, rest: Seq<u8>)
    requires
        e.encodable(),
    ensures
        decode_event(e.wire() + rest) == Ok::<Event, ProfileError>(e),
        e.wire().len() == 28 || e.wire().len() == 32,
{
    lemma_event_record_round_trip(e.record(), rest);
    Flags::lemma_bits_round_trip(e.flags);
}

/// The fields of a metadata block as the profile stores them, in the order
/// in which they are written. The command distribution is a list of pairs of
/// a command tag and a count.
#[derive(Debug)]
pub struct MetadataRecord {
    pub magic: u32,
    pub version: u8,
    pub total_events: u64,
    pub first_timestamp: u64,
    pub last_timestamp: u64,
    pub unique_connections: u32,
    pub entries: Vec<(u32, u64)>,
}

/// A metadata record as a mathematical value.
pub struct MetadataFields {
    pub magic: u32,
    pub version: u8,
    pub total_events: u64,
    pub first_timestamp: u64,
    pub last_timestamp: u64,
    pub unique_connections: u32,
    pub entries: Seq<(u32, u64)>,
}

impl View for MetadataRecord {
    type V = MetadataFields;

    open spec fn view(&self) -> MetadataFields {
        MetadataFields {
            magic: self.magic,
            version: self.version,
            total_events: self.total_events,
            first_timestamp: self.first_timestamp,
            last_timestamp: self.last_timestamp,
            unique_connections: self.unique_connections,
            entries: self.entries@,
        }
    }
}

/// The bytes of one pair of the command distribution.
pub open spec fn entry_bytes(e: (u32, u64)) -> Seq<u8> {
    spec_u32_to_le_bytes(e.0) + spec_u64_to_le_bytes(e.1)
}

/// The bytes of the pairs of the command distribution, one after the other.
pub open spec fn entries_bytes(entries: Seq<(u32, u64)>) -> Seq<u8>
    decreases entries.len(),
{
    if entries.len() == 0 {
        Seq::empty()
    } else {
        entries_bytes(entries.drop_last()) + entry_bytes(entries.last())
    }
}

/// The bytes of a metadata record: its fields in order, each integer
/// little-endian at its full width, the number of pairs as a 64-bit integer
/// before the pairs.
pub open spec fn metadata_record_bytes(f: MetadataFields) -> Seq<u8> {
    spec_u32_to_le_bytes(f.magic) + seq![f.version] + spec_u64_to_le_bytes(f.total_events)
        + spec_u64_to_le_bytes(f.first_timestamp) + spec_u64_to_le_bytes(f.last_timestamp)
        + spec_u32_to_le_bytes(f.unique_connections) + spec_u64_to_le_bytes(
        f.entries.len() as u64,
    ) + entries_bytes(f.entries)
}

/// The pair that takes the twelve bytes of `b` from `12 * i` on.
pub open spec fn parse_entry(b: Seq<u8>, i: int) -> (u32, u64) {
    (
        spec_u32_from_le_bytes(b.subrange(12 * i, 12 * i + 4)),
        spec_u64_from_le_bytes(b.subrange(12 * i + 4, 12 * i + 12)),
    )
}

/// The metadata record at the start of `b`, if `b` starts with one. Bytes
/// behind the record are ignored.
pub open spec fn parse_metadata_record(b: Seq<u8>) -> Option<MetadataFields> {
    if b.len() < 41 {
        None
    } else {
        let n = spec_u64_from_le_bytes(b.subrange(33, 41));
        if b.len() - 41 < 12 * n {
            None
        } else {
            Some(
                MetadataFields {
                    magic: spec_u32_from_le_bytes(b.subrange(0, 4)),
                    version: b[4],
                    total_events: spec_u64_from_le_bytes(b.subrange(5, 13)),
                    first_timestamp: spec_u64_from_le_bytes(b.subrange(13, 21)),
                    last_timestamp: spec_u64_from_le_bytes(b.subrange(21, 29)),
                    unique_connections: spec_u32_from_le_bytes(b.subrange(29, 33)),
                    entries: Seq::new(
                        n as nat,
                        |i: int| parse_entry(b.subrange(41, b.len() as int), i),
                    ),
                },
            )
        }
    }
}

/// Calls `bincode::serialize` on the fields of a metadata record as a tuple.
/// Trusted: with its default options bincode writes the fields in order,
/// every integer little-endian at its fixed width, and a list as its length
/// in 64 bits before its items; writing to memory without a size limit does
/// not fail.
#[verifier::external_body]
fn bincode_serialize_metadata(r: &MetadataRecord) -> (out: Result<
    Vec<u8>,
    Box<bincode::ErrorKind>,
>)
    ensures
        out is Ok,
        out matches Ok(v) ==> v@ == metadata_record_bytes(r@),
{
    bincode::serialize(
        &(
            r.magic,
            r.version,
            r.total_events,
            (r.first_timestamp, r.last_timestamp),
            r.unique_connections,
            &r.entries,
        ),
    )
}

/// Calls `bincode::deserialize` for the fields of a metadata record as a
/// tuple. Trusted: bincode reads the fields in order as
/// `bincode_serialize_metadata` writes them, fails where the bytes end before
/// the last pair that the length announces, and leaves bytes behind the
/// record unread.
#[verifier::external_body]
fn bincode_deserialize_metadata(bytes: &[u8]) -> (out: Result<
    MetadataRecord,
    Box<bincode::ErrorKind>,
>)
    ensures
        out matches Ok(r) ==> parse_metadata_record(bytes@) == Some(r@),
        out is Err ==> parse_metadata_record(bytes@) is None,
{
    bincode::deserialize::<(u32, u8, u64, (u64, u64), u32, Vec<(u32, u64)>)>(bytes).map(
        |t| MetadataRecord {
            magic: t.0,
            version: t.1,
            total_events: t.2,
            first_timestamp: (t.3).0,
            last_timestamp: (t.3).1,
            unique_connections: t.4,
            entries: t.5,
        },
    )
}

/// The pairs take twelve bytes each.
pub proof fn lemma_entries_bytes_len(entries: Seq<(u32, u64)>)
    ensures
        entries_bytes(entries).len() == 12 * entries.len(),
    decreases entries.len(),
{
    lemma_auto_spec_u64_to_from_le_bytes();
    lemma_auto_spec_u32_to_from_le_bytes();
    if entries.len() > 0 {
        lemma_entries_bytes_len(entries.drop_last());
    }
}

/// Each pair is read back from its place among the bytes of the pairs,
/// whatever follows them.
pub proof fn lemma_entries_round_trip(entries: Seq<(u32, u64)>, rest: Seq<u8>, i: int)
    requires
        0 <= i < entries.len(),
    ensures
        parse_entry(entries_bytes(entries) + rest, i) == entries[i],
    decreases entries.len(),
{
    lemma_auto_spec_u64_to_from_le_bytes();
    lemma_auto_spec_u32_to_from_le_bytes();
    let front = entries.drop_last();
    let tail = entry_bytes(entries.last());
    lemma_entries_bytes_len(front);
    lemma_entries_bytes_len(entries);
    let b = entries_bytes(entries) + rest;
    if i == entries.len() - 1 {
        assert(b.subrange(12 * i, 12 * i + 4) =~= spec_u32_to_le_bytes(entries[i].0));
        assert(b.subrange(12 * i + 4, 12 * i + 12) =~= spec_u64_to_le_bytes(entries[i].1));
    } else {
        lemma_entries_round_trip(front, tail + rest, i);
        assert(b =~= entries_bytes(front) + (tail + rest));
    }
}

/// Reading back what was written gives the record, whatever follows it.
pub proof fn lemma_metadata_record_round_trip(f: MetadataFields, rest: Seq<u8>)
    requires
        f.entries.len() <= u64::MAX,
    ensures
        parse_metadata_record(metadata_record_bytes(f) + rest) == Some(f),
        metadata_record_bytes(f).len() == 41 + 12 * f.entries.len(),
{
    lemma_auto_spec_u64_to_from_le_bytes();
    lemma_auto_spec_u32_to_from_le_bytes();
    lemma_entries_bytes_len(f.entries);
    let b = metadata_record_bytes(f) + rest;
    let n = f.entries.len() as u64;
    assert(b.subrange(0, 4) =~= spec_u32_to_le_bytes(f.magic));
    assert(b.subrange(5, 13) =~= spec_u64_to_le_bytes(f.total_events));
    assert(b.subrange(13, 21) =~= spec_u64_to_le_bytes(f.first_timestamp));
    assert(b.subrange(21, 29) =~= spec_u64_to_le_bytes(f.last_timestamp));
    assert(b.subrange(29, 33) =~= spec_u32_to_le_bytes(f.unique_connections));
    assert(b.subrange(33, 41) =~= spec_u64_to_le_bytes(n));
    let body = b.subrange(41, b.len() as int);
    assert(body =~= entries_bytes(f.entries) + rest);
    let parsed = parse_metadata_record(b)->Some_0;
    assert forall|i: int| 0 <= i < f.entries.len() implies parsed.entries[i] == f.entries[i] by {
        lemma_entries_round_trip(f.entries, rest, i);
    }
    assert(parsed.entries =~= f.entries);
}

/// The pair that the profile stores for a command that occurred `count`
/// times: none where it never occurred.
pub open spec fn entry_if_counted(cmd: CommandType, count: u64) -> Seq<(u32, u64)> {
    if count == 0 {
        Seq::empty()
    } else {
        seq![(cmd.spec_index(), count)]
    }
}

/// The pairs that the profile stores for a command distribution: one for
/// each command that occurred, in the order of the commands' tags.
pub open spec fn distribution_entries(d: CommandDistribution) -> Seq<(u32, u64)> {
    entry_if_counted(CommandType::Get, d.get) + entry_if_counted(CommandType::Store, d.store)
        + entry_if_counted(CommandType::Delete, d.delete) + entry_if_counted(
        CommandType::Noop,
        d.noop,
    )
}

/// The command distribution that stored pairs stand for. A later pair
/// replaces an earlier one for the same command; a tag that no command has
/// makes the pairs stand for nothing.
pub open spec fn distribution_of_entries(entries: Seq<(u32, u64)>) -> Option<CommandDistribution>
    decreases entries.len(),
{
    if entries.len() == 0 {
        Some(CommandDistribution::zero())
    } else {
        match (
            distribution_of_entries(entries.drop_last()),
            CommandType::spec_from_index(entries.last().0),
        ) {
            (Some(d), Some(cmd)) => Some(d.with_count(cmd, entries.last().1)),
            _ => None,
        }
    }
}

/// The metadata block that starts `b`, or why there is none.
pub open spec fn decode_metadata(b: Seq<u8>) -> Result<ProfileMetadata, ProfileError> {
    match parse_metadata_record(b) {
        None => Err(ProfileError::BadMetadata),
        Some(f) => match distribution_of_entries(f.entries) {
            None => Err(ProfileError::BadMetadata),
            Some(d) => Ok(
                ProfileMetadata {
                    magic: f.magic,
                    version: f.version,
                    total_events: f.total_events,
                    time_range: (f.first_timestamp, f.last_timestamp),
                    unique_connections: f.unique_connections,
                    command_distribution: d,
                },
            ),
        },
    }
}

impl ProfileMetadata {
    /// The block as the profile stores it.
    pub open spec fn fields(self) -> MetadataFields {
        MetadataFields {
            magic: self.magic,
            version: self.version,
            total_events: self.total_events,
            first_timestamp: self.time_range.0,
            last_timestamp: self.time_range.1,
            unique_connections: self.unique_connections,
            entries: distribution_entries(self.command_distribution),
        }
    }

    /// The bytes of the block in a profile, without the length and the magic
    /// number behind them.
    pub open spec fn wire(self) -> Seq<u8> {
        metadata_record_bytes(self.fields())
    }

    /// The bytes of the block in a profile, without the length and the magic
    /// number behind them.
    pub fn encode(&self) -> (r: Vec<u8>)
        ensures
            r@ == self.wire(),
            41 <= r@.len() <= 89,
    {
        let mut entries: Vec<(u32, u64)> = Vec::new();
        let d = &self.command_distribution;
        if d.get != 0 {
            entries.push((CommandType::Get.index(), d.get));
        }
        if d.store != 0 {
            entries.push((CommandType::Store.index(), d.store));
        }
        if d.delete != 0 {
            entries.push((CommandType::Delete.index(), d.delete));
        }
        if d.noop != 0 {
            entries.push((CommandType::Noop.index(), d.noop));
        }
        assert(entries@ =~= distribution_entries(self.command_distribution));
        let record = MetadataRecord {
            magic: self.magic,
            version: self.version,
            total_events: self.total_events,
            first_timestamp: self.time_range.0,
            last_timestamp: self.time_range.1,
            unique_connections: self.unique_connections,
            entries,
        };
        proof {
            lemma_metadata_record_round_trip(record@, Seq::empty());
        }
        match bincode_serialize_metadata(&record) {
            Ok(bytes) => bytes,
            Err(_) => Vec::new(),
        }
    }

    /// The block at the start of `bytes`. Bytes behind it are ignored.
    pub fn decode(bytes: &[u8]) -> (r: Result<ProfileMetadata, ProfileError>)
        ensures
            r == decode_metadata(bytes@),
    {
        match bincode_deserialize_metadata(bytes) {
            Err(_) => Err(ProfileError::BadMetadata),
            Ok(record) => {
                let mut d = CommandDistribution::new();
                let mut i: usize = 0;
                while i < record.entries.len()
                    invariant
                        i <= record.entries.len(),
                        parse_metadata_record(bytes@) == Some(record@),
                        distribution_of_entries(record.entries@.take(i as int)) == Some(d),
                    decreases record.entries.len() - i,
                {
                    let (tag, count) = record.entries[i];
                    proof {
                        assert(record.entries@.take(i + 1).drop_last() =~= record.entries@.take(
                            i as int,
                        ));
                    }
                    match CommandType::from_index(tag) {
                        None => {
                            proof {
                                lemma_bad_entry(record.entries@, i as int);
                            }
                            return Err(ProfileError::BadMetadata);
                        },
                        Some(cmd) => {
                            d.insert(cmd, count);
                        },
                    }
                    i += 1;
                }
                assert(record.entries@.take(i as int) =~= record.entries@);
                Ok(
                    ProfileMetadata {
                        magic: record.magic,
                        version: record.version,
                        total_events: record.total_events,
                        time_range: (record.first_timestamp, record.last_timestamp),
                        unique_connections: record.unique_connections,
                        command_distribution: d,
                    },
                )
            },
        }
    }
}

/// Pairs with a tag that no command has stand for no distribution.
pub proof fn lemma_bad_entry(entries: Seq<(u32, u64)>, i: int)
    requires
        0 <= i < entries.len(),
        CommandType::spec_from_index(entries[i].0) is None,
    ensures
        distribution_of_entries(entries) is None,
    decreases entries.len(),
{
    if i < entries.len() - 1 {
        lemma_bad_entry(entries.drop_last(), i);
    }
}

/// The pairs stored for a distribution stand for that distribution.
pub proof fn lemma_distribution_round_trip(d: CommandDistribution)
    ensures
        distribution_of_entries(distribution_entries(d)) == Some(d),
        distribution_entries(d).len() <= 4,
{
    let a = entry_if_counted(CommandType::Get, d.get);
    let b = a + entry_if_counted(CommandType::Store, d.store);
    let c = b + entry_if_counted(CommandType::Delete, d.delete);
    let e = c + entry_if_counted(CommandType::Noop, d.noop);
    let zero = CommandDistribution::zero();
    let da = zero.with_count(CommandType::Get, d.get);
    let db = da.with_count(CommandType::Store, d.store);
    let dc = db.with_count(CommandType::Delete, d.delete);
    assert(distribution_of_entries(Seq::empty()) == Some(zero));
    assert(distribution_of_entries(a) == Some(da)) by {
        if d.get != 0 {
            assert(a.drop_last() =~= Seq::empty());
        }
    }
    assert(distribution_of_entries(b) == Some(db)) by {
        if d.store != 0 {
            assert(b.drop_last() =~= a);
        } else {
            assert(b =~= a);
        }
    }
    assert(distribution_of_entries(c) == Some(dc)) by {
        if d.delete != 0 {
            assert(c.drop_last() =~= b);
        } else {
            assert(c =~= b);
        }
    }
    assert(distribution_of_entries(e) == Some(d)) by {
        if d.noop != 0 {
            assert(e.drop_last() =~= c);
        } else {
            assert(e =~= c);
        }
    }
}

/// Decoding the bytes of a metadata block gives the block back, field for
/// field, whatever follows the bytes.
pub proof fn lemma_metadata_round_trip(m: ProfileMetadata, rest: Seq<u8>)
    ensures
        decode_metadata(m.wire() + rest) == Ok::<ProfileMetadata, ProfileError>(m),
        41 <= m.wire().len() <= 89,
{
    lemma_distribution_round_trip(m.command_distribution);
    lemma_metadata_record_round_trip(m.fields(), rest);
}

} // verus!
