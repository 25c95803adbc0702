//! The record pipeline: reassembly, parsing, anonymisation and writing.

pub mod anonymizer;
pub mod capture;
pub mod parser;
pub mod session;
pub mod stream_reassembler;
pub mod writer;

pub use anonymizer::Anonymizer;
pub use capture::PacketCapture;
pub use parser::MemcacheParser;
pub use stream_reassembler::StreamReassembler;
pub use writer::ProfileWriter;
