//! The profile document: its wire encoding, its messages, and the writer
//! that builds one from resolved allocations.

pub mod profile_proto;
pub mod wire;
pub mod writer;

pub use writer::ProfileProtoWriter;
