//! The consensus module.
//!
//! A [`Raft`] value is one peer. It never blocks and does no input or
//! output: every method takes one stimulus and returns the answer together
//! with the [`Effects`] that the caller has to carry out.

use crate::proto::raftpb::{
    clone_entries, entries_view, AppendEntriesArgs, AppendEntriesReply, InstallSnapshotReply,
    LogEntry, RaftNonVolatileState, RequestVoteArgs, RequestVoteReply,
};
use crate::raft::model::{EffectsView, OutboundView, RaftView};
use vstd::prelude::*;

pub mod cluster;
pub mod entries;
pub mod errors;
pub mod handlers;
pub mod laws;
pub mod leader;
pub mod log;
pub mod matching;
pub mod model;
pub mod progress;
pub mod roles;
pub mod snapshot;
pub mod timer;

verus! {

/// The period of the leader's heartbeat, in milliseconds.
pub const HEARTBEAT_INTERVAL: u64 = 50;

/// The shortest election timeout, in milliseconds.
pub const TIMEOUT_MIN: u64 = 350;

/// What an [`ApplyMsg`] is to the protocol.
pub enum ApplyMsgView {
    Command { data: Seq<u8>, index: u64 },
    Snapshot { data: Seq<u8>, term: u64, index: u64 },
}

/// As a peer learns that successive log entries are committed, it hands
/// them to the service on the same server, one message per entry and in
/// index order.
#[derive(Debug, PartialEq, Eq)]
pub enum ApplyMsg {
    /// The committed command at `index`.
    Command { data: Vec<u8>, index: u64 },
    /// A snapshot received from the leader, which covers the log up to and
    /// including `index`.
    Snapshot { data: Vec<u8>, term: u64, index: u64 },
}

impl View for ApplyMsg {
    type V = ApplyMsgView;

    open spec fn view(&self) -> ApplyMsgView {
        match *self {
            ApplyMsg::Command { data, index } => ApplyMsgView::Command { data: data@, index },
            ApplyMsg::Snapshot { data, term, index } => ApplyMsgView::Snapshot {
                data: data@,
                term,
                index,
            },
        }
    }
}

/// The part a peer plays in its current term.
#[derive(PartialEq, Eq, Clone, Copy, Debug, Structural)]
pub enum Role {
    Follower,
    Candidate,
    Leader,
}

impl Default for Role {
    fn default() -> (role: Role)
        ensures
            role == Role::Follower,
    {
        Role::Follower
    }
}

/// State of a raft peer.
#[derive(PartialEq, Eq, Clone, Copy, Debug, Structural)]
pub struct State {
    pub term: u64,
    pub role: Role,
}

impl Default for State {
    fn default() -> (state: State)
        ensures
            state == (State { term: 0, role: Role::Follower }),
    {
        State { term: 0, role: Role::Follower }
    }
}

impl State {
    /// The current term of this peer.
    pub fn term(&self) -> (term: u64)
        ensures
            term == self.term,
    {
        self.term
    }

    /// Whether this peer believes it is the leader.
    pub fn is_leader(&self) -> (b: bool)
        ensures
            b == (self.role == Role::Leader),
    {
        self.role == Role::Leader
    }

    /// Whether this peer is asking for votes.
    pub fn is_candidate(&self) -> (b: bool)
        ensures
            b == (self.role == Role::Candidate),
    {
        self.role == Role::Candidate
    }

    /// Whether this peer follows a leader.
    pub fn is_follower(&self) -> (b: bool)
        ensures
            b == (self.role == Role::Follower),
    {
        self.role == Role::Follower
    }
}

/// A request that a peer wants sent to `peer`.
#[derive(Debug, PartialEq, Eq)]
#[allow(inconsistent_fields)]
pub enum Outbound {
    /// Ask `peer` for its vote.
    RequestVote { peer: u64, args: RequestVoteArgs },
    /// Send `peer` the entries it lacks. When it answers, the answer comes
    /// back with `next_index_on_success`.
    AppendEntries { peer: u64, args: AppendEntriesArgs, next_index_on_success: u64 },
    /// Send `peer` the stored snapshot, with the arguments of
    /// [`Raft::install_snapshot_args`]. When it answers, the answer comes
    /// back with `next_index_on_success`.
    InstallSnapshot { peer: u64, next_index_on_success: u64 },
}

impl View for Outbound {
    type V = OutboundView;

    open spec fn view(&self) -> OutboundView {
        match *self {
            Outbound::RequestVote { peer, args } => OutboundView::RequestVote { peer, args },
            Outbound::AppendEntries {
                peer,
                args,
                next_index_on_success,
            } => OutboundView::AppendEntries { peer, args: args@, next_index_on_success },
            Outbound::InstallSnapshot {
                peer,
                next_index_on_success,
            } => OutboundView::InstallSnapshot { peer, next_index_on_success },
        }
    }
}

/// What a step leaves for its caller to do, in this order: store the
/// durable state, deliver the apply messages, restart the election timer,
/// send the requests, and schedule a heartbeat.
#[derive(Debug, PartialEq, Eq)]
pub struct Effects {
    /// Store [`Raft::pack_nvstate`] before any answer leaves the peer.
    pub persist: bool,
    /// Restart the election timer with a fresh timeout.
    pub reset_timer: bool,
    /// Run [`Actions::SendHeartbeat`] without waiting for the timer.
    pub heartbeat: bool,
    /// Messages for the service, in index order.
    pub applies: Vec<ApplyMsg>,
    /// Requests for other peers.
    pub sends: Vec<Outbound>,
}

impl View for Effects {
    type V = EffectsView;

    open spec fn view(&self) -> EffectsView {
        EffectsView {
            persist: self.persist,
            reset_timer: self.reset_timer,
            heartbeat: self.heartbeat,
            applies: self.applies@.map_values(|m: ApplyMsg| m@),
            sends: self.sends@.map_values(|o: Outbound| o@),
        }
    }
}

impl Effects {
    /// Nothing to do but, with `persist`, to store the durable state.
    pub fn persist_if(persist: bool) -> (effects: Effects)
        ensures
            effects@ == EffectsView::persist_if(persist),
    {
        let effects = Effects {
            persist,
            reset_timer: false,
            heartbeat: false,
            applies: Vec::new(),
            sends: Vec::new(),
        };
        assert(effects@.applies =~= Seq::empty());
        assert(effects@.sends =~= Seq::empty());
        effects
    }
}

/// What the timers ask of a peer.
#[derive(PartialEq, Eq, Clone, Copy, Debug, Structural)]
pub enum Actions {
    /// The heartbeat period has passed.
    SendHeartbeat,
    /// The election timeout has passed.
    StartElection,
}

/// An answer to a request that this peer sent, with the peer it came from.
#[derive(PartialEq, Eq, Clone, Copy, Debug, Structural)]
pub enum RepliesFrom {
    /// The peer and its answer.
    RequestVote(u64, RequestVoteReply),
    /// The peer, the `next_index_on_success` of the request, and the answer.
    AppendEntries(u64, u64, AppendEntriesReply),
    /// The peer, the `next_index_on_success` of the request, and the answer.
    InstallSnapshot(u64, u64, InstallSnapshotReply),
}

/// A single Raft peer.
pub struct Raft {
    /// The number of peers, this one included.
    npeers: usize,
    /// This peer's index among the peers.
    me: usize,
    state: State,
    /// The candidate that has this peer's vote in the current term.
    voted_for: Option<u64>,
    /// As a candidate: the peers whose votes were counted, this one first.
    voters: Vec<u64>,
    /// Index of the highest entry known to be committed.
    commit_index: u64,
    /// Index of the highest entry handed to the service.
    last_applied: u64,
    /// For each peer, index of the next entry to send it.
    next_index: Vec<u64>,
    /// For each peer, index of the highest entry known to be stored on it.
    match_index: Vec<u64>,
    /// The entries after `last_included_index`.
    log: Vec<LogEntry>,
    last_included_index: u64,
    last_included_term: u64,
}

impl View for Raft {
    type V = RaftView;

    closed spec fn view(&self) -> RaftView {
        RaftView {
            me: self.me,
            npeers: self.npeers,
            term: self.state.term,
            role: self.state.role,
            voted_for: self.voted_for,
            voters: self.voters@,
            commit_index: self.commit_index,
            last_applied: self.last_applied,
            next_index: self.next_index@,
            match_index: self.match_index@,
            log: entries_view(self.log@),
            last_included_index: self.last_included_index,
            last_included_term: self.last_included_term,
        }
    }
}

/// A vector that holds `value` `n` times.
fn filled(value: u64, n: usize) -> (v: Vec<u64>)
    ensures
        v@ == Seq::new(n as nat, |i: int| value),
{
    let mut v: Vec<u64> = Vec::new();
    let mut i: usize = 0;
    while i < n
        invariant
            i <= n,
            v.len() == i,
            forall|j: int| 0 <= j < i ==> v[j] == value,
        decreases n - i,
    {
        v.push(value);
        i += 1;
    }
    assert(v@ =~= Seq::new(n as nat, |i: int| value));
    v
}

impl Raft {
    /// The model's log holds the entries of the stored log, place by place.
    proof fn lemma_log_view(&self)
        ensures
            self@.log.len() == self.log.len(),
            forall|i: int| 0 <= i < self.log.len() ==> #[trigger] self@.log[i] == self.log[i]@,
    {
    }

    /// The invariant of a peer: what every method expects and keeps.
    pub open spec fn wf(&self) -> bool {
        self@.wf()
    }

    /// Creates one peer of a cluster of `npeers`, with index `me`.
    /// `persisted` is the record that an earlier incarnation of this peer
    /// stored last, if there is one.
    pub fn new(npeers: usize, me: usize, persisted: Option<RaftNonVolatileState>) -> (rf: Raft)
        requires
            persisted matches Some(d) ==> d.last_included_index + d.log.len() < u64::MAX,
        ensures
            rf.wf(),
            rf@ == match persisted {
                Some(d) => RaftView::fresh(npeers, me).restored(d@),
                None => RaftView::fresh(npeers, me),
            },
    {
        let mut rf = Raft {
            npeers,
            me,
            state: State { term: 0, role: Role::Follower },
            voted_for: None,
            voters: Vec::new(),
            commit_index: 0,
            last_applied: 0,
            next_index: filled(1, npeers),
            match_index: filled(0, npeers),
            log: Vec::new(),
            last_included_index: 0,
            last_included_term: 0,
        };
        assert(rf@.log =~= Seq::empty());
        assert(rf@ == RaftView::fresh(npeers, me));
        match persisted {
            Some(d) => rf.restore(d),
            None => {},
        }
        rf
    }

    /// Takes over the stored record `data`; nothing is committed or applied
    /// beyond the snapshot that it names.
    pub fn restore(&mut self, data: RaftNonVolatileState)
        requires
            old(self).wf(),
            data.last_included_index + data.log.len() < u64::MAX,
        ensures
            final(self).wf(),
            final(self)@ == old(self)@.restored(data@),
    {
        self.state.term = data.current_term;
        self.voted_for = data.voted_for;
        self.log = data.log;
        self.last_included_index = data.last_included_index;
        self.last_included_term = data.last_included_term;
        self.commit_index = data.last_included_index;
        self.last_applied = data.last_included_index;
    }

    /// The record to keep on stable storage.
    pub fn pack_nvstate(&self) -> (d: RaftNonVolatileState)
        ensures
            d@ == self@.durable(),
    {
        RaftNonVolatileState {
            current_term: self.state.term,
            voted_for: self.voted_for,
            log: clone_entries(&self.log),
            last_included_index: self.last_included_index,
            last_included_term: self.last_included_term,
        }
    }

    /// The number of peers, this one included.
    pub fn npeers(&self) -> (n: usize)
        ensures
            n == self@.npeers,
    {
        self.npeers
    }

    /// This peer's index among the peers.
    pub fn me(&self) -> (me: usize)
        ensures
            me == self@.me,
    {
        self.me
    }

    /// The current term of this peer.
    pub fn term(&self) -> (term: u64)
        ensures
            term == self@.term,
    {
        self.state.term
    }

    /// The part this peer plays in its term.
    pub fn role(&self) -> (role: Role)
        ensures
            role == self@.role,
    {
        self.state.role
    }

    /// Whether this peer believes it is the leader.
    pub fn is_leader(&self) -> (b: bool)
        ensures
            b == (self@.role == Role::Leader),
    {
        self.state.is_leader()
    }

    /// Whether this peer is asking for votes.
    pub fn is_candidate(&self) -> (b: bool)
        ensures
            b == (self@.role == Role::Candidate),
    {
        self.state.is_candidate()
    }

    /// Whether this peer follows a leader.
    pub fn is_follower(&self) -> (b: bool)
        ensures
            b == (self@.role == Role::Follower),
    {
        self.state.is_follower()
    }

    /// The candidate that has this peer's vote in the current term.
    pub fn voted_for(&self) -> (candidate: Option<u64>)
        ensures
            candidate == self@.voted_for,
    {
        self.voted_for
    }

    /// How many votes this peer has counted as a candidate, its own
    /// included.
    pub fn votes_counted(&self) -> (n: usize)
        ensures
            n == self@.voters.len(),
    {
        self.voters.len()
    }

    /// Index of the next entry to send to `peer`.
    pub fn next_index_of(&self, peer: usize) -> (index: u64)
        requires
            self.wf(),
            peer < self@.npeers,
        ensures
            index == self@.next_index[peer as int],
    {
        self.next_index[peer]
    }

    /// Index of the highest entry known to be stored on `peer`.
    pub fn match_index_of(&self, peer: usize) -> (index: u64)
        requires
            self.wf(),
            peer < self@.npeers,
        ensures
            index == self@.match_index[peer as int],
    {
        self.match_index[peer]
    }

    /// The current term and role of this peer.
    pub fn get_state(&self) -> (state: State)
        ensures
            state == (State { term: self@.term, role: self@.role }),
    {
        State { term: self.state.term, role: self.state.role }
    }
}

} // verus!
