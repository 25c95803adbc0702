//! The replay pipeline: reading a profile and issuing its commands again.

pub mod analyzer;
pub mod client;
pub mod connection_task;
pub mod generator;
pub mod reader;
pub mod reader_task;
pub mod stats;
pub mod stats_aggregator;
pub mod streamer;

pub use analyzer::{AnalysisResult, DistributionAnalyzer};
pub use generator::TrafficGenerator;
pub use reader::ProfileReader;
pub use reader_task::{Dispatcher, LoopMode};
pub use streamer::ProfileStreamer;

use crate::record::parser::lower_case;
use std::str::FromStr;
use vstd::prelude::*;
use vstd::string::*;

verus! {

/// Which dialect of the memcached protocol the replay speaks.
#[derive(Debug, Clone, Copy, PartialEq, Eq, Structural)]
pub enum ProtocolMode {
    /// The text protocol: `get`, `set`, `delete`, `noop`.
    Ascii,
    /// The meta protocol: `mg`, `ms`, `md`, `mn`.
    Meta,
}

/// The protocol mode that `name` names, in any mix of capital and small
/// letters.
pub open spec fn protocol_mode_named(name: Seq<u8>) -> Option<ProtocolMode> {
    if lower_case(name) == "ascii".spec_bytes() {
        Some(ProtocolMode::Ascii)
    } else if lower_case(name) == "meta".spec_bytes() {
        Some(ProtocolMode::Meta)
    } else {
        None
    }
}

/// Writes the sentence that refuses `name` as a protocol mode, with
/// `format!`.
#[verifier::external_body]
fn invalid_mode_message(name: &str) -> (r: String) {
    format!("Invalid protocol mode: '{}'. Use 'ascii' or 'meta'", name)
}

impl ProtocolMode {
    /// The protocol mode that `name` names; `None` for any other word.
    pub fn parse(name: &str) -> (r: Option<ProtocolMode>)
        ensures
            r == protocol_mode_named(name.spec_bytes()),
    {
        let bytes = name.as_bytes();
        assert(bytes@.subrange(0, bytes@.len() as int) =~= bytes@);
        if crate::record::parser::word_is(bytes, 0, bytes.len(), "ascii", true) {
            Some(ProtocolMode::Ascii)
        } else if crate::record::parser::word_is(bytes, 0, bytes.len(), "meta", true) {
            Some(ProtocolMode::Meta)
        } else {
            None
        }
    }

    /// The name of the protocol mode.
    pub fn name(&self) -> (r: &'static str)
        ensures
            r@ == match *self {
                ProtocolMode::Ascii => "ascii"@,
                ProtocolMode::Meta => "meta"@,
            },
    {
        match self {
            ProtocolMode::Ascii => "ascii",
            ProtocolMode::Meta => "meta",
        }
    }
}

impl FromStr for ProtocolMode {
    type Err = String;

    fn from_str(s: &str) -> (r: Result<ProtocolMode, String>)
        ensures
            r is Ok <==> protocol_mode_named(s.spec_bytes()) is Some,
            r matches Ok(mode) ==> protocol_mode_named(s.spec_bytes()) == Some(mode),
    {
        match ProtocolMode::parse(s) {
            Some(mode) => Ok(mode),
            None => Err(invalid_mode_message(s)),
        }
    }
}

} // verus!
