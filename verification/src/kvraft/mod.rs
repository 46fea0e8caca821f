//! The replicated key/value state machine.

pub mod laws;
pub mod server;
pub mod table;
