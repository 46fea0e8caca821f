//! The messages that peers and clients exchange, as plain values.

pub mod kvraftpb;
pub mod raftpb;
