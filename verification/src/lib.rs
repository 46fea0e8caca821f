//! A replicated key/value service on a Raft consensus core.
//!
//! The crate holds the decisions of both layers as plain state machines:
//! [`raft::Raft`] maps a peer's state and one stimulus (an incoming request,
//! a reply, a timer action, a call of the service) to the next state, the
//! answer and the work to be done outside (what to store, send and deliver),
//! and [`kvraft::server::KvServer`] maps the stream of committed commands to
//! the contents of the store and the answers owed to waiting clients.
//! Transport, storage and scheduling stay with the embedding program.
//!
//! Every function carries a contract over [`raft::model`], the protocol
//! written as mathematics. What holds of one peer whatever happens to it
//! is in [`raft::laws`] and [`kvraft::laws`]. What holds of a cluster as
//! a whole is proved on the model of [`raft::cluster`]: that no term has
//! two leaders and that a leader only appends (there), that an index and
//! a term name one entry ([`raft::entries`]), and that logs which agree
//! somewhere agree everywhere before ([`raft::matching`]).

pub mod kvraft;
pub mod proto;
pub mod raft;
