//! Capture, anonymisation, persistence and replay of memcached traffic.

pub mod profile;
pub mod record;
pub mod replay;

pub use profile::{CommandDistribution, CommandType, Event, Flags, ProfileMetadata, Response};
