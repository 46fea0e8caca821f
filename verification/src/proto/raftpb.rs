//! Messages of the consensus layer and the record it keeps on stable storage.

use vstd::prelude::*;

verus! {

/// What a log entry is to the protocol: the term of its creation and the
/// command's bytes.
pub struct EntryView {
    pub term: u64,
    pub payload: Seq<u8>,
}

/// One entry of the replicated log.
#[derive(Debug, PartialEq, Eq)]
pub struct LogEntry {
    /// The term in which a leader created the entry.
    pub term: u64,
    /// The serialized command.
    pub rb: Vec<u8>,
}

impl View for LogEntry {
    type V = EntryView;

    open spec fn view(&self) -> EntryView {
        EntryView { term: self.term, payload: self.rb@ }
    }
}

impl Clone for LogEntry {
    fn clone(&self) -> (res: Self)
        ensures
            res@ == self@,
    {
        LogEntry { term: self.term, rb: self.rb.clone() }
    }
}

/// The entries of a vector as the protocol sees them.
pub open spec fn entries_view(entries: Seq<LogEntry>) -> Seq<EntryView> {
    entries.map_values(|e: LogEntry| e@)
}

/// A copy of `entries`, entry by entry.
pub fn clone_entries(entries: &Vec<LogEntry>) -> (res: Vec<LogEntry>)
    ensures
        entries_view(res@) == entries_view(entries@),
{
    let mut res: Vec<LogEntry> = Vec::new();
    let mut i: usize = 0;
    while i < entries.len()
        invariant
            i <= entries.len(),
            res.len() == i,
            forall|j: int| 0 <= j < i ==> res[j]@ == entries[j]@,
        decreases entries.len() - i,
    {
        res.push(entries[i].clone());
        i += 1;
    }
    assert(entries_view(res@) =~= entries_view(entries@));
    res
}

/// A candidate's request for a vote.
#[derive(Clone, Copy, Debug, PartialEq, Eq, Structural)]
pub struct RequestVoteArgs {
    /// The candidate's term.
    pub term: u64,
    /// The candidate's id.
    pub cid: u64,
    /// Index of the candidate's last log entry.
    pub last_log_index: u64,
    /// Term of the candidate's last log entry.
    pub last_log_term: u64,
}

/// The answer to a [`RequestVoteArgs`].
#[derive(Clone, Copy, Debug, PartialEq, Eq, Structural)]
pub struct RequestVoteReply {
    /// The voter's term after it handled the request.
    pub term: u64,
    /// Whether the candidate received the vote.
    pub granted: bool,
}

/// What an [`AppendEntriesArgs`] is to the protocol.
pub struct AppendEntriesArgsView {
    pub term: u64,
    pub leader_id: u64,
    pub prev_log_index: u64,
    pub prev_log_term: u64,
    pub log_entries: Seq<EntryView>,
    pub leader_commit: u64,
}

/// A leader's request to replicate entries; with no entries, a heartbeat.
#[derive(Debug, PartialEq, Eq)]
pub struct AppendEntriesArgs {
    /// The leader's term.
    pub term: u64,
    /// The leader's id.
    pub leader_id: u64,
    /// Index of the entry just before the new ones.
    pub prev_log_index: u64,
    /// Term of the entry at `prev_log_index`.
    pub prev_log_term: u64,
    /// The entries to store, in log order.
    pub log_entries: Vec<LogEntry>,
    /// The leader's commit index.
    pub leader_commit: u64,
}

impl View for AppendEntriesArgs {
    type V = AppendEntriesArgsView;

    open spec fn view(&self) -> AppendEntriesArgsView {
        AppendEntriesArgsView {
            term: self.term,
            leader_id: self.leader_id,
            prev_log_index: self.prev_log_index,
            prev_log_term: self.prev_log_term,
            log_entries: entries_view(self.log_entries@),
            leader_commit: self.leader_commit,
        }
    }
}

/// The answer to an [`AppendEntriesArgs`].
#[derive(Clone, Copy, Debug, PartialEq, Eq, Structural)]
pub struct AppendEntriesReply {
    /// The follower's term after it handled the request.
    pub term: u64,
    /// Whether the follower's log held the entry named by `prev_log_index`
    /// and `prev_log_term`, so that the new entries are now in place.
    pub success: bool,
    /// On failure, where the leader should resume; 0 when the follower has
    /// no hint.
    pub conflict_index: u64,
}

/// What an [`InstallSnapshotArgs`] is to the protocol.
pub struct InstallSnapshotArgsView {
    pub term: u64,
    pub leader_id: u64,
    pub last_included_index: u64,
    pub last_included_term: u64,
    pub data: Seq<u8>,
}

/// A leader's request to replace a log prefix by a snapshot.
#[derive(Debug, PartialEq, Eq)]
pub struct InstallSnapshotArgs {
    /// The leader's term.
    pub term: u64,
    /// The leader's id.
    pub leader_id: u64,
    /// The snapshot covers the log up to and including this index.
    pub last_included_index: u64,
    /// Term of the entry at `last_included_index`.
    pub last_included_term: u64,
    /// The snapshot's bytes.
    pub rb: Vec<u8>,
}

impl View for InstallSnapshotArgs {
    type V = InstallSnapshotArgsView;

    open spec fn view(&self) -> InstallSnapshotArgsView {
        InstallSnapshotArgsView {
            term: self.term,
            leader_id: self.leader_id,
            last_included_index: self.last_included_index,
            last_included_term: self.last_included_term,
            data: self.rb@,
        }
    }
}

/// The answer to an [`InstallSnapshotArgs`].
#[derive(Clone, Copy, Debug, PartialEq, Eq, Structural)]
pub struct InstallSnapshotReply {
    /// The follower's term after it handled the request.
    pub term: u64,
}

/// What a [`RaftNonVolatileState`] is to the protocol.
pub struct RaftNonVolatileStateView {
    pub current_term: u64,
    pub voted_for: Option<u64>,
    pub log: Seq<EntryView>,
    pub last_included_index: u64,
    pub last_included_term: u64,
}

/// The part of a peer's state that survives a crash.
#[derive(Debug, PartialEq, Eq)]
pub struct RaftNonVolatileState {
    /// The latest term the peer has seen.
    pub current_term: u64,
    /// The candidate that received the peer's vote in `current_term`.
    pub voted_for: Option<u64>,
    /// The log entries after `last_included_index`.
    pub log: Vec<LogEntry>,
    /// The latest snapshot covers the log up to and including this index.
    pub last_included_index: u64,
    /// Term of the entry at `last_included_index`.
    pub last_included_term: u64,
}

impl View for RaftNonVolatileState {
    type V = RaftNonVolatileStateView;

    open spec fn view(&self) -> RaftNonVolatileStateView {
        RaftNonVolatileStateView {
            current_term: self.current_term,
            voted_for: self.voted_for,
            log: entries_view(self.log@),
            last_included_index: self.last_included_index,
            last_included_term: self.last_included_term,
        }
    }
}

} // verus!
