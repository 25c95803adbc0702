//! Where packets come from: the interface that every packet source offers.

use vstd::bytes::*;
use vstd::prelude::*;
use vstd::slice::{slice_subrange, slice_to_vec};
use vstd::string::*;

verus! {

/// What a packet source has counted, where it counts.
#[derive(Debug, Clone, Copy, PartialEq, Eq, Structural)]
pub struct CaptureStats {
    pub packets_received: u64,
    pub packets_dropped: u64,
    pub bytes_received: u64,
}

/// Why a packet source handed out no packet.
#[derive(Debug, Clone, Copy, PartialEq, Eq, Structural)]
pub enum CaptureError {
    /// Nothing came in time, or the device was away for a moment: try again.
    Transient,
    /// The source is exhausted: no packet will come any more.
    End,
}

/// A source of packets: a live interface, a capture file, or the kernel.
pub trait PacketSource {
    /// The payload of the next frame. It is one frame's payload, not a
    /// reassembled stream: a message may end anywhere in it.
    fn next_packet(&mut self) -> Result<Vec<u8>, CaptureError>;

    /// The name of the interface or the path of the file.
    fn source_info(&self) -> String;

    /// Whether the source ends by itself, as a file does.
    fn is_finite(&self) -> bool;

    /// What the source has counted, where it counts. A source that does
    /// not say otherwise counts nothing.
    fn stats(&mut self) -> (r: Option<CaptureStats>)
        default_ensures
            r is None,
    {
        None
    }
}

/// The prefix of a source name that asks for capture in the kernel.
pub open spec fn kernel_prefix() -> Seq<u8> {
    "ebpf:".spec_bytes()
}

/// Whether this library holds a backend for capture in the kernel. It holds
/// none: such a source is the caller's to provide, as a `PacketSource`.
pub const KERNEL_CAPTURE: bool = false;

/// Whether the source name `source` asks for capture in the kernel: whether
/// it starts with `ebpf:`.
pub fn is_kernel_source(source: &str) -> (r: bool)
    ensures
        r == (source.spec_bytes().len() >= kernel_prefix().len() && source.spec_bytes().subrange(
            0,
            kernel_prefix().len() as int,
        ) == kernel_prefix()),
{
    let name = source.as_bytes();
    let prefix = "ebpf:".as_bytes();
    if name.len() < prefix.len() {
        return false;
    }
    let mut i: usize = 0;
    while i < prefix.len()
        invariant
            i <= prefix@.len() <= name@.len(),
            prefix@ == kernel_prefix(),
            name@ == source.spec_bytes(),
            forall|j: int| 0 <= j < i ==> name@[j] == prefix@[j],
        decreases prefix@.len() - i,
    {
        if name[i] != prefix[i] {
            assert(name@.subrange(0, prefix@.len() as int)[i as int] != prefix@[i as int]);
            return false;
        }
        i = i + 1;
    }
    assert(name@.subrange(0, prefix@.len() as int) =~= prefix@);
    true
}

/// What kind of packet source a source name asks for.
#[derive(Debug, Clone, Copy, PartialEq, Eq, Structural)]
pub enum SourceKind {
    /// Capture in the kernel, for the interface behind the prefix.
    Kernel,
    /// A capture file.
    File,
    /// A live interface.
    Interface,
}

/// The kind of packet source that `source` asks for: the kernel where the
/// name has the prefix for it; else a capture file where the name is that of
/// a file, as `is_file` says; else a live interface.
pub fn source_kind(source: &str, is_file: bool) -> (r: SourceKind)
    ensures
        r == (if source.spec_bytes().len() >= kernel_prefix().len()
            && source.spec_bytes().subrange(0, kernel_prefix().len() as int) == kernel_prefix() {
            SourceKind::Kernel
        } else if is_file {
            SourceKind::File
        } else {
            SourceKind::Interface
        }),
{
    if is_kernel_source(source) {
        SourceKind::Kernel
    } else if is_file {
        SourceKind::File
    } else {
        SourceKind::Interface
    }
}

/// The size of the record that the kernel backend hands over for one read
/// from a socket: a socket id of 8 bytes, two ports of 2 bytes each, the
/// length of the data in 4 bytes, and room for the data.
pub const SOCKET_EVENT_SIZE: usize = 4112;

/// Where the data starts in such a record.
pub const SOCKET_EVENT_HEADER: usize = 16;

/// The payload that a record of the kernel backend carries: as many bytes
/// of its data as its length field says, the field read little-endian.
/// A record that is too short carries none, nor does one whose length is
/// zero or more than the room for data.
pub open spec fn socket_payload(record: Seq<u8>) -> Option<Seq<u8>> {
    if record.len() < SOCKET_EVENT_SIZE {
        None
    } else {
        let len = spec_u32_from_le_bytes(record.subrange(12, 16));
        if 0 < len <= SOCKET_EVENT_SIZE - SOCKET_EVENT_HEADER {
            Some(record.subrange(SOCKET_EVENT_HEADER as int, SOCKET_EVENT_HEADER + len))
        } else {
            None
        }
    }
}

/// Takes the payload out of a record of the kernel backend.
pub fn socket_event_payload(record: &[u8]) -> (r: Option<Vec<u8>>)
    ensures
        match socket_payload(record@) {
            Some(payload) => r matches Some(v) && v@ == payload,
            None => r is None,
        },
{
    if record.len() < SOCKET_EVENT_SIZE {
        return None;
    }
    let len: usize = u32_from_le_bytes(slice_subrange(record, 12, 16)) as usize;
    if len == 0 || len > SOCKET_EVENT_SIZE - SOCKET_EVENT_HEADER {
        return None;
    }
    Some(slice_to_vec(slice_subrange(record, SOCKET_EVENT_HEADER, SOCKET_EVENT_HEADER + len)))
}

/// What the record loop does after asking its source for a packet.
#[derive(Debug, Clone, Copy, PartialEq, Eq, Structural)]
pub enum RecordStep {
    /// Hand the packet to the session, then ask again.
    Process,
    /// Ask again.
    Retry,
    /// End the recording and write the trailer.
    Stop,
}

/// What the record loop does next, given whether a stop was asked for and
/// how the read went. A transient error never ends the recording; the end of
/// the source does.
pub fn after_read(stop_requested: bool, failure: Option<CaptureError>) -> (r: RecordStep)
    ensures
        r == (if stop_requested {
            RecordStep::Stop
        } else {
            match failure {
                None => RecordStep::Process,
                Some(CaptureError::Transient) => RecordStep::Retry,
                Some(CaptureError::End) => RecordStep::Stop,
            }
        }),
{
    if stop_requested {
        RecordStep::Stop
    } else {
        match failure {
            None => RecordStep::Process,
            Some(CaptureError::Transient) => RecordStep::Retry,
            Some(CaptureError::End) => RecordStep::Stop,
        }
    }
}

/// A packet source behind one type. `PacketCapture` with no source named
/// holds a source of any kind.
pub struct PacketCapture<S: PacketSource + ?Sized = dyn PacketSource> {
    source: Box<S>,
}

impl<S: PacketSource + ?Sized> PacketCapture<S> {
    /// The source behind the capture.
    pub closed spec fn source(&self) -> Box<S> {
        self.source
    }

    /// Wraps a packet source.
    pub fn new(source: Box<S>) -> (r: PacketCapture<S>)
        ensures
            r.source() == source,
    {
        PacketCapture { source }
    }

    /// The payload of the next frame, as the source hands it out.
    pub fn next_packet(&mut self) -> (r: Result<Vec<u8>, CaptureError>) {
        self.source.next_packet()
    }

    /// The name of the interface or the path of the file, as the source
    /// gives it.
    pub fn source_info(&self) -> (r: String) {
        self.source.source_info()
    }

    /// Whether the source ends by itself, as the source says.
    pub fn is_finite(&self) -> (r: bool) {
        self.source.is_finite()
    }

    /// What the source has counted, where it counts.
    pub fn stats(&mut self) -> (r: Option<CaptureStats>) {
        self.source.stats()
    }
}

} // verus!
