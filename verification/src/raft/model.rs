//! The protocol as mathematics: a peer's state as a value, and each
//! stimulus as a function from the state before to the state after, the
//! answer and the effects.

use crate::proto::raftpb::{
    AppendEntriesArgsView, AppendEntriesReply, EntryView, InstallSnapshotArgsView,
    InstallSnapshotReply, RaftNonVolatileStateView, RequestVoteArgs, RequestVoteReply,
};
use crate::raft::errors::Error;
use crate::raft::{Actions, ApplyMsgView, RepliesFrom, Role};
use vstd::prelude::*;

verus! {

/// A request that a peer wants sent.
#[allow(inconsistent_fields)]
pub enum OutboundView {
    RequestVote { peer: u64, args: RequestVoteArgs },
    AppendEntries { peer: u64, args: AppendEntriesArgsView, next_index_on_success: u64 },
    InstallSnapshot { peer: u64, next_index_on_success: u64 },
}

/// What a step leaves for its caller to do.
pub struct EffectsView {
    pub persist: bool,
    pub reset_timer: bool,
    pub heartbeat: bool,
    pub applies: Seq<ApplyMsgView>,
    pub sends: Seq<OutboundView>,
}

impl EffectsView {
    /// Nothing to do.
    pub open spec fn none() -> EffectsView {
        EffectsView {
            persist: false,
            reset_timer: false,
            heartbeat: false,
            applies: Seq::empty(),
            sends: Seq::empty(),
        }
    }

    /// Only the durable state has to be stored.
    pub open spec fn persist_if(persist: bool) -> EffectsView {
        EffectsView { persist, ..EffectsView::none() }
    }
}

/// The result of one step: the state after it, the answer, and the effects.
pub struct Outcome<R> {
    pub state: RaftView,
    pub reply: R,
    pub effects: EffectsView,
}

/// Anything that can happen to a peer.
pub enum Stimulus {
    /// A candidate asks for the peer's vote.
    RequestVote(RequestVoteArgs),
    /// A leader sends entries.
    AppendEntries(AppendEntriesArgsView),
    /// A leader sends its snapshot.
    InstallSnapshot(InstallSnapshotArgsView),
    /// The service hands in a command.
    Start(Seq<u8>),
    /// A timer runs out.
    Action(Actions),
    /// An answer to one of the peer's requests arrives.
    Reply(RepliesFrom),
    /// The service has made a snapshot up to the index, whose entry has
    /// the term.
    Snapshot(u64, u64),
    /// The service wants to switch to a snapshot that ends in the term and
    /// the index.
    CondInstallSnapshot(u64, u64),
}

/// A peer's state.
pub struct RaftView {
    pub me: usize,
    pub npeers: usize,
    pub term: u64,
    pub role: Role,
    pub voted_for: Option<u64>,
    pub voters: Seq<u64>,
    pub commit_index: u64,
    pub last_applied: u64,
    pub next_index: Seq<u64>,
    pub match_index: Seq<u64>,
    pub log: Seq<EntryView>,
    pub last_included_index: u64,
    pub last_included_term: u64,
}

impl RaftView {
    /// The invariant of a peer's state.
    pub open spec fn wf(self) -> bool {
        &&& self.next_index.len() == self.npeers
        &&& self.match_index.len() == self.npeers
        &&& forall|i: int| 0 <= i < self.npeers ==> #[trigger] self.next_index[i] >= 1
        &&& self.last_included_index + self.log.len() < u64::MAX
        &&& self.last_included_index <= self.last_applied
        &&& self.last_applied == self.commit_index
        &&& self.voters.no_duplicates()
    }

    // ----- the log, by logical index -----

    /// Index of the last entry; the snapshot's index when the log is empty.
    pub open spec fn last_log_index(self) -> int {
        self.last_included_index + self.log.len()
    }

    /// Whether the entry at `index` is held in the log.
    pub open spec fn has_entry(self, index: int) -> bool {
        self.last_included_index < index <= self.last_log_index()
    }

    /// The entry at `index`.
    pub open spec fn entry_at(self, index: int) -> EntryView
        recommends
            self.has_entry(index),
    {
        self.log[index - self.last_included_index - 1]
    }

    /// The term of the entry at `index`, as far as the peer knows it.
    pub open spec fn term_at(self, index: int) -> Option<u64> {
        if index == self.last_included_index {
            Some(self.last_included_term)
        } else if self.has_entry(index) {
            Some(self.entry_at(index).term)
        } else {
            None
        }
    }

    /// Term of the last entry; the snapshot's term when the log is empty.
    pub open spec fn last_log_term(self) -> u64 {
        if self.log.len() == 0 {
            self.last_included_term
        } else {
            self.log.last().term
        }
    }

    /// The record kept on stable storage.
    pub open spec fn durable(self) -> RaftNonVolatileStateView {
        RaftNonVolatileStateView {
            current_term: self.term,
            voted_for: self.voted_for,
            log: self.log,
            last_included_index: self.last_included_index,
            last_included_term: self.last_included_term,
        }
    }

    // ----- creation -----

    /// A peer that starts without stored state.
    pub open spec fn fresh(npeers: usize, me: usize) -> RaftView {
        RaftView {
            me,
            npeers,
            term: 0,
            role: Role::Follower,
            voted_for: None,
            voters: Seq::empty(),
            commit_index: 0,
            last_applied: 0,
            next_index: Seq::new(npeers as nat, |i: int| 1u64),
            match_index: Seq::new(npeers as nat, |i: int| 0u64),
            log: Seq::empty(),
            last_included_index: 0,
            last_included_term: 0,
        }
    }

    /// The state after the stored record was read back.
    pub open spec fn restored(self, d: RaftNonVolatileStateView) -> RaftView {
        RaftView {
            term: d.current_term,
            voted_for: d.voted_for,
            log: d.log,
            last_included_index: d.last_included_index,
            last_included_term: d.last_included_term,
            commit_index: d.last_included_index,
            last_applied: d.last_included_index,
            ..self
        }
    }

    // ----- roles and terms -----

    /// The peer as a follower in `term`.
    pub open spec fn as_follower(self, term: u64, clear_vote: bool) -> RaftView {
        RaftView {
            role: Role::Follower,
            term,
            voters: Seq::empty(),
            voted_for: if clear_vote {
                None
            } else {
                self.voted_for
            },
            ..self
        }
    }

    /// The peer as a candidate in the next term, with its own vote.
    pub open spec fn as_candidate(self) -> RaftView {
        RaftView {
            role: Role::Candidate,
            term: (self.term + 1) as u64,
            voters: seq![self.me as u64],
            voted_for: Some(self.me as u64),
            ..self
        }
    }

    /// The peer as the leader of its term.
    pub open spec fn as_leader(self) -> RaftView {
        RaftView {
            role: Role::Leader,
            next_index: Seq::new(
                self.npeers as nat,
                |i: int| (self.last_log_index() + 1) as u64,
            ),
            match_index: Seq::new(self.npeers as nat, |i: int| 0u64),
            ..self
        }
    }

    /// The state after a message of term `term` was seen: a higher term
    /// makes the peer a follower in it, with no vote cast.
    pub open spec fn observe_term(self, term: u64) -> RaftView {
        if term > self.term {
            self.as_follower(term, true)
        } else {
            self
        }
    }

    // ----- commit and apply -----

    /// The messages that deliver the entries after `last_applied` up to and
    /// including `to`, in index order.
    pub open spec fn applies_up_to(self, to: u64) -> Seq<ApplyMsgView> {
        if to > self.commit_index {
            Seq::new(
                (to - self.last_applied) as nat,
                |j: int|
                    ApplyMsgView::Command {
                        data: self.entry_at(self.last_applied + 1 + j).payload,
                        index: (self.last_applied + 1 + j) as u64,
                    },
            )
        } else {
            Seq::empty()
        }
    }

    /// The state after the commit index moved forward to `to`; unchanged
    /// when `to` is not ahead of it.
    pub open spec fn committed_up_to(self, to: u64) -> RaftView {
        if to > self.commit_index {
            RaftView { commit_index: to, last_applied: to, ..self }
        } else {
            self
        }
    }

    // ----- RequestVote -----

    /// Whether a log that ends in (`last_log_term`, `last_log_index`) is at
    /// least as up to date as this peer's.
    pub open spec fn up_to_date(self, last_log_term: u64, last_log_index: u64) -> bool {
        last_log_term > self.last_log_term() || (last_log_term == self.last_log_term()
            && last_log_index >= self.last_log_index())
    }

    /// Whether the peer gives its vote on request `a`.
    pub open spec fn grants_vote(self, a: RequestVoteArgs) -> bool {
        let s = self.observe_term(a.term);
        &&& a.term >= self.term
        &&& (s.voted_for is None || s.voted_for == Some(a.cid))
        &&& s.up_to_date(a.last_log_term, a.last_log_index)
    }

    /// A vote is asked for.
    pub open spec fn request_vote_step(self, a: RequestVoteArgs) -> Outcome<RequestVoteReply> {
        let s = self.observe_term(a.term);
        let granted = self.grants_vote(a);
        let state = if granted {
            RaftView { voted_for: Some(a.cid), ..s }
        } else {
            s
        };
        Outcome {
            state,
            reply: RequestVoteReply { term: state.term, granted },
            effects: EffectsView {
                persist: a.term > self.term || granted,
                reset_timer: granted,
                ..EffectsView::none()
            },
        }
    }

    // ----- AppendEntries -----

    /// The state after an AppendEntries of term `term`, not lower than the
    /// peer's own, was seen: the peer follows the sender.
    pub open spec fn follow_leader(self, term: u64) -> RaftView {
        if term > self.term {
            self.as_follower(term, true)
        } else if term == self.term && self.role == Role::Candidate {
            self.as_follower(term, false)
        } else {
            self
        }
    }

    /// The first index in `from ..= to` whose entry has term `term`; 0 when
    /// there is none.
    pub open spec fn first_with_term(self, term: u64, from: int, to: int) -> int
        decreases to - from + 1,
    {
        if from > to {
            0
        } else if self.term_at(from) == Some(term) {
            from
        } else {
            self.first_with_term(term, from + 1, to)
        }
    }

    /// What [`Self::first_with_term`] finds: an index in the range whose
    /// entry has the term, with no such index before it in the range; or
    /// 0, when the range holds no such index.
    pub proof fn lemma_first_with_term(self, term: u64, from: int, to: int)
        requires
            0 < from,
        ensures
            ({
                let found = self.first_with_term(term, from, to);
                &&& found == 0 || from <= found <= to
                &&& found != 0 ==> self.term_at(found) == Some(term)
                &&& forall|i: int|
                    from <= i <= to && (found == 0 || i < found) ==> self.term_at(i) != Some(term)
            }),
        decreases to - from + 1,
    {
        if from <= to && self.term_at(from) != Some(term) {
            self.lemma_first_with_term(term, from + 1, to);
        }
    }

    /// Where the leader should resume after `prev_log_index` did not match.
    pub open spec fn conflict_index(self, prev_log_index: u64) -> u64 {
        if self.last_log_index() < prev_log_index {
            (self.last_log_index() + 1) as u64
        } else {
            match self.term_at(prev_log_index as int) {
                Some(t) => self.first_with_term(
                    t,
                    self.last_included_index + 1,
                    prev_log_index as int,
                ) as u64,
                None => 0,
            }
        }
    }

    /// The number of leading `entries`, from position `from` on, that the
    /// log already holds after `prev`: the position of the first one whose
    /// slot is empty or holds another term; `entries.len()` when all are
    /// there.
    pub open spec fn first_mismatch(self, prev: int, entries: Seq<EntryView>, from: int) -> int
        decreases entries.len() - from,
    {
        if from >= entries.len() {
            entries.len() as int
        } else if self.term_at(prev + 1 + from) != Some(entries[from].term) {
            from
        } else {
            self.first_mismatch(prev, entries, from + 1)
        }
    }

    /// What [`Self::first_mismatch`] finds: the entries before it are in
    /// the log, and the one at it, if there is one, is not.
    pub proof fn lemma_first_mismatch(self, prev: int, entries: Seq<EntryView>, from: int)
        requires
            0 <= from <= entries.len(),
        ensures
            from <= self.first_mismatch(prev, entries, from) <= entries.len(),
            forall|i: int|
                from <= i < self.first_mismatch(prev, entries, from) ==> self.term_at(prev + 1 + i)
                    == Some(#[trigger] entries[i].term),
            self.first_mismatch(prev, entries, from) < entries.len() ==> self.term_at(
                prev + 1 + self.first_mismatch(prev, entries, from),
            ) != Some(entries[self.first_mismatch(prev, entries, from)].term),
        decreases entries.len() - from,
    {
        if from < entries.len() && self.term_at(prev + 1 + from) == Some(entries[from].term) {
            self.lemma_first_mismatch(prev, entries, from + 1);
        }
    }

    /// The log after `entries` were put behind `prev`: unchanged when all
    /// are there already, else cut at the first that is not and continued
    /// with the rest.
    pub open spec fn spliced_log(self, prev: int, entries: Seq<EntryView>) -> Seq<EntryView> {
        let k = self.first_mismatch(prev, entries, 0);
        if k == entries.len() {
            self.log
        } else {
            self.log.take(prev + k - self.last_included_index) + entries.skip(k)
        }
    }

    /// The commit index that a follower takes from its leader.
    pub open spec fn follower_commit_target(self, leader_commit: u64) -> u64 {
        if leader_commit <= self.last_log_index() {
            leader_commit
        } else {
            self.last_log_index() as u64
        }
    }

    /// Entries arrive from a leader.
    pub open spec fn append_entries_step(self, a: AppendEntriesArgsView) -> Outcome<
        AppendEntriesReply,
    > {
        if a.term < self.term {
            Outcome {
                state: self,
                reply: AppendEntriesReply { term: self.term, success: false, conflict_index: 0 },
                effects: EffectsView::none(),
            }
        } else {
            let s1 = self.follow_leader(a.term);
            let turned = a.term > self.term || self.role == Role::Candidate;
            if !(s1.term_at(a.prev_log_index as int) == Some(a.prev_log_term)) {
                Outcome {
                    state: s1,
                    reply: AppendEntriesReply {
                        term: s1.term,
                        success: false,
                        conflict_index: s1.conflict_index(a.prev_log_index),
                    },
                    effects: EffectsView {
                        persist: turned,
                        reset_timer: true,
                        ..EffectsView::none()
                    },
                }
            } else {
                let s2 = RaftView {
                    log: s1.spliced_log(a.prev_log_index as int, a.log_entries),
                    ..s1
                };
                let to = if a.leader_commit > s2.commit_index {
                    s2.follower_commit_target(a.leader_commit)
                } else {
                    s2.commit_index
                };
                Outcome {
                    state: s2.committed_up_to(to),
                    reply: AppendEntriesReply { term: s1.term, success: true, conflict_index: 0 },
                    effects: EffectsView {
                        persist: true,
                        reset_timer: true,
                        applies: s2.applies_up_to(to),
                        ..EffectsView::none()
                    },
                }
            }
        }
    }

    // ----- InstallSnapshot -----

    /// A snapshot arrives from a leader.
    pub open spec fn install_snapshot_step(self, a: InstallSnapshotArgsView) -> Outcome<
        InstallSnapshotReply,
    > {
        let s1 = self.observe_term(a.term);
        if a.term < self.term || s1.role != Role::Follower {
            Outcome {
                state: s1,
                reply: InstallSnapshotReply { term: s1.term },
                effects: EffectsView::persist_if(a.term > self.term),
            }
        } else {
            let to = if a.last_included_index > s1.commit_index {
                a.last_included_index
            } else {
                s1.commit_index
            };
            Outcome {
                state: RaftView { commit_index: to, last_applied: to, ..s1 },
                reply: InstallSnapshotReply { term: s1.term },
                effects: EffectsView {
                    persist: a.term > self.term,
                    reset_timer: true,
                    applies: seq![
                        ApplyMsgView::Snapshot {
                            data: a.data,
                            term: a.last_included_term,
                            index: a.last_included_index,
                        },
                    ],
                    ..EffectsView::none()
                },
            }
        }
    }
    // ----- the leader's side -----

    /// The service hands in a command.
    pub open spec fn start_step(self, command: Seq<u8>) -> Outcome<Result<(u64, u64), Error>> {
        if self.role != Role::Leader {
            Outcome { state: self, reply: Err(Error::NotLeader), effects: EffectsView::none() }
        } else {
            Outcome {
                state: RaftView {
                    log: self.log.push(EntryView { term: self.term, payload: command }),
                    ..self
                },
                reply: Ok(((self.last_log_index() + 1) as u64, self.term)),
                effects: EffectsView {
                    persist: true,
                    reset_timer: true,
                    heartbeat: true,
                    ..EffectsView::none()
                },
            }
        }
    }

    /// The AppendEntries request for `peer`, if the log still holds the
    /// entry before the next one to send.
    pub open spec fn append_entries_args_for(self, peer: int) -> Option<AppendEntriesArgsView> {
        let prev = self.next_index[peer] - 1;
        if self.last_included_index <= prev <= self.last_log_index() {
            Some(
                AppendEntriesArgsView {
                    term: self.term,
                    leader_id: self.me as u64,
                    prev_log_index: prev as u64,
                    prev_log_term: self.term_at(prev).unwrap(),
                    log_entries: self.log.skip(prev - self.last_included_index),
                    leader_commit: self.commit_index,
                },
            )
        } else {
            None
        }
    }

    /// The arguments that go with the stored snapshot `data`.
    pub open spec fn install_snapshot_args(self, data: Seq<u8>) -> InstallSnapshotArgsView {
        InstallSnapshotArgsView {
            term: self.term,
            leader_id: self.me as u64,
            last_included_index: self.last_included_index,
            last_included_term: self.last_included_term,
            data,
        }
    }

    /// What a leader sends `peer` in a heartbeat round: the entries from
    /// `next_index[peer]` on, or the snapshot where the log no longer
    /// reaches back that far.
    pub open spec fn outbound_for(self, peer: int) -> OutboundView {
        match self.append_entries_args_for(peer) {
            Some(args) => OutboundView::AppendEntries {
                peer: peer as u64,
                args,
                next_index_on_success: (self.last_log_index() + 1) as u64,
            },
            None => OutboundView::InstallSnapshot {
                peer: peer as u64,
                next_index_on_success: (self.last_included_index + 1) as u64,
            },
        }
    }

    /// The requests of a heartbeat round for the peers below `upto`, in
    /// the order of the peers; none for the peer itself.
    pub open spec fn heartbeat_sends(self, upto: int) -> Seq<OutboundView>
        decreases upto,
    {
        if upto <= 0 {
            Seq::empty()
        } else if upto - 1 == self.me {
            self.heartbeat_sends(upto - 1)
        } else {
            self.heartbeat_sends(upto - 1).push(self.outbound_for(upto - 1))
        }
    }

    /// The heartbeat period has passed.
    pub open spec fn heartbeat_step(self) -> Outcome<()> {
        Outcome {
            state: self,
            reply: (),
            effects: EffectsView {
                sends: if self.role == Role::Leader {
                    self.heartbeat_sends(self.npeers as int)
                } else {
                    Seq::empty()
                },
                ..EffectsView::none()
            },
        }
    }

    /// The request with which the peer asks for votes.
    pub open spec fn vote_request(self) -> RequestVoteArgs {
        RequestVoteArgs {
            term: self.term,
            cid: self.me as u64,
            last_log_index: self.last_log_index() as u64,
            last_log_term: self.last_log_term(),
        }
    }

    /// The vote requests for the peers below `upto`, in the order of the
    /// peers; none for the peer itself.
    pub open spec fn vote_requests(self, upto: int) -> Seq<OutboundView>
        decreases upto,
    {
        if upto <= 0 {
            Seq::empty()
        } else if upto - 1 == self.me {
            self.vote_requests(upto - 1)
        } else {
            self.vote_requests(upto - 1).push(
                OutboundView::RequestVote { peer: (upto - 1) as u64, args: self.vote_request() },
            )
        }
    }

    /// The election timeout has passed.
    pub open spec fn election_step(self) -> Outcome<()> {
        if self.role == Role::Leader {
            Outcome { state: self, reply: (), effects: EffectsView::none() }
        } else {
            let s = self.as_candidate();
            Outcome {
                state: s,
                reply: (),
                effects: EffectsView {
                    persist: true,
                    sends: s.vote_requests(s.npeers as int),
                    ..EffectsView::none()
                },
            }
        }
    }

    /// An answer to a vote request arrives from `from`.
    pub open spec fn request_vote_reply_step(self, from: u64, r: RequestVoteReply) -> Outcome<()> {
        let s1 = self.observe_term(r.term);
        let persist = r.term > self.term;
        if s1.role != Role::Candidate || r.term != s1.term || !r.granted {
            Outcome { state: s1, reply: (), effects: EffectsView::persist_if(persist) }
        } else {
            let s2 = RaftView {
                voters: if s1.voters.contains(from) {
                    s1.voters
                } else {
                    s1.voters.push(from)
                },
                ..s1
            };
            if s2.voters.len() > s2.npeers / 2 {
                let s3 = s2.as_leader();
                Outcome {
                    state: s3,
                    reply: (),
                    effects: EffectsView {
                        persist,
                        sends: s3.heartbeat_sends(s3.npeers as int),
                        ..EffectsView::none()
                    },
                }
            } else {
                Outcome { state: s2, reply: (), effects: EffectsView::persist_if(persist) }
            }
        }
    }

    /// The number of peers below `upto`, other than the peer itself, that
    /// are known to store the entry at `index`.
    pub open spec fn replicated_on(self, index: int, upto: int) -> int
        decreases upto,
    {
        if upto <= 0 {
            0
        } else if upto - 1 != self.me && self.match_index[upto - 1] >= index {
            self.replicated_on(index, upto - 1) + 1
        } else {
            self.replicated_on(index, upto - 1)
        }
    }

    /// Whether a leader may commit up to `index`: the index is ahead of
    /// the commit index and within the log, a strict majority of the peers,
    /// the leader among them, store the entry, and the entry is of the
    /// leader's term.
    pub open spec fn committable(self, index: int) -> bool {
        &&& self.commit_index < index <= self.last_log_index()
        &&& 1 + self.replicated_on(index, self.npeers as int) > self.npeers / 2
        &&& self.term_at(index) == Some(self.term)
    }

    /// The largest committable index that is not above `upto`; the commit
    /// index when there is none.
    pub open spec fn largest_committable(self, upto: int) -> int
        decreases upto - self.commit_index,
    {
        if upto <= self.commit_index {
            self.commit_index as int
        } else if self.committable(upto) {
            upto
        } else {
            self.largest_committable(upto - 1)
        }
    }

    /// The commit index that the leader may move to.
    pub open spec fn majority_commit_index(self) -> u64 {
        self.largest_committable(self.last_log_index()) as u64
    }

    /// Where to resume sending to `from` after it refused entries.
    pub open spec fn backed_off(self, from: int, conflict_index: u64) -> u64 {
        if conflict_index != 0 {
            conflict_index
        } else if self.next_index[from] > 1 {
            (self.next_index[from] - 1) as u64
        } else {
            1
        }
    }

    /// An answer to an AppendEntries request arrives from `from`;
    /// `next_index` is the `next_index_on_success` of the request.
    pub open spec fn append_entries_reply_step(
        self,
        from: u64,
        next_index: u64,
        r: AppendEntriesReply,
    ) -> Outcome<()> {
        let s1 = self.observe_term(r.term);
        let persist = r.term > self.term;
        if s1.role != Role::Leader || r.term != s1.term {
            Outcome { state: s1, reply: (), effects: EffectsView::persist_if(persist) }
        } else if r.success {
            let s2 = RaftView {
                next_index: s1.next_index.update(from as int, next_index),
                match_index: s1.match_index.update(from as int, (next_index - 1) as u64),
                ..s1
            };
            let to = s2.majority_commit_index();
            Outcome {
                state: s2.committed_up_to(to),
                reply: (),
                effects: EffectsView {
                    persist,
                    applies: s2.applies_up_to(to),
                    ..EffectsView::none()
                },
            }
        } else {
            Outcome {
                state: RaftView {
                    next_index: s1.next_index.update(
                        from as int,
                        s1.backed_off(from as int, r.conflict_index),
                    ),
                    ..s1
                },
                reply: (),
                effects: EffectsView::persist_if(persist),
            }
        }
    }

    /// An answer to an InstallSnapshot request arrives from `from`;
    /// `next_index` is the `next_index_on_success` of the request.
    pub open spec fn install_snapshot_reply_step(
        self,
        from: u64,
        next_index: u64,
        r: InstallSnapshotReply,
    ) -> Outcome<()> {
        let s1 = self.observe_term(r.term);
        Outcome {
            state: if s1.role == Role::Leader {
                RaftView { next_index: s1.next_index.update(from as int, next_index), ..s1 }
            } else {
                s1
            },
            reply: (),
            effects: EffectsView::persist_if(r.term > self.term),
        }
    }

    /// What a timer asks for.
    pub open spec fn action_step(self, action: Actions) -> Outcome<()> {
        match action {
            Actions::StartElection => self.election_step(),
            Actions::SendHeartbeat => self.heartbeat_step(),
        }
    }

    /// An answer to one of the peer's requests arrives.
    pub open spec fn reply_step(self, reply_from: RepliesFrom) -> Outcome<()> {
        match reply_from {
            RepliesFrom::RequestVote(peer, reply) => self.request_vote_reply_step(peer, reply),
            RepliesFrom::AppendEntries(peer, next, reply) => self.append_entries_reply_step(
                peer,
                next,
                reply,
            ),
            RepliesFrom::InstallSnapshot(peer, next, reply) => self.install_snapshot_reply_step(
                peer,
                next,
                reply,
            ),
        }
    }

    // ----- snapshots -----

    /// The state after the log was cut up to and including `index`, an
    /// index behind the snapshot's, whose entry has term `term`.
    pub open spec fn trimmed(self, index: u64, term: u64) -> RaftView {
        RaftView {
            last_included_index: index,
            last_included_term: term,
            log: if index > self.last_log_index() {
                Seq::empty()
            } else {
                self.log.skip(index - self.last_included_index)
            },
            ..self
        }
    }

    /// Whether a snapshot up to `index` replaces the one in place.
    pub open spec fn snapshot_accepted(self, index: u64) -> bool {
        index > self.last_included_index
    }

    /// The service has made a snapshot up to and including `index`, whose
    /// entry has term `term`.
    pub open spec fn snapshot_step(self, index: u64, term: u64) -> RaftView {
        if !self.snapshot_accepted(index) {
            self
        } else {
            let s = self.trimmed(index, term);
            if index > s.commit_index {
                RaftView { commit_index: index, last_applied: index, ..s }
            } else {
                s
            }
        }
    }

    /// Whether a snapshot that ends in (`term`, `index`) is at least as
    /// new as the one in place.
    pub open spec fn snapshot_is_news(self, term: u64, index: u64) -> bool {
        term > self.last_included_term || (term == self.last_included_term && index
            >= self.last_included_index)
    }

    /// The service wants to switch to a snapshot that ends in (`term`,
    /// `index`).
    pub open spec fn cond_install_snapshot_step(self, term: u64, index: u64) -> RaftView {
        if self.snapshot_is_news(term, index) {
            self.snapshot_step(index, term)
        } else {
            self
        }
    }

    // ----- all steps together -----

    /// Whether the peer can take `x`: the indices and terms that the step
    /// computes fit the machine's integers, and an answer names a peer.
    pub open spec fn admits(self, x: Stimulus) -> bool {
        match x {
            Stimulus::RequestVote(_) => true,
            Stimulus::AppendEntries(a) => a.prev_log_index + a.log_entries.len() < u64::MAX,
            Stimulus::InstallSnapshot(_) => true,
            Stimulus::Start(_) => self.last_log_index() + 1 < u64::MAX,
            Stimulus::Action(action) => action == Actions::StartElection ==> self.term < u64::MAX,
            Stimulus::Reply(reply_from) => match reply_from {
                RepliesFrom::RequestVote(_, _) => true,
                RepliesFrom::AppendEntries(from, next, _) => from < self.npeers && next >= 1,
                RepliesFrom::InstallSnapshot(from, next, _) => from < self.npeers && next >= 1,
            },
            Stimulus::Snapshot(index, _) => index < u64::MAX,
            Stimulus::CondInstallSnapshot(_, index) => index < u64::MAX,
        }
    }

    /// The state after `x` happened.
    pub open spec fn after(self, x: Stimulus) -> RaftView {
        match x {
            Stimulus::RequestVote(a) => self.request_vote_step(a).state,
            Stimulus::AppendEntries(a) => self.append_entries_step(a).state,
            Stimulus::InstallSnapshot(a) => self.install_snapshot_step(a).state,
            Stimulus::Start(command) => self.start_step(command).state,
            Stimulus::Action(action) => self.action_step(action).state,
            Stimulus::Reply(reply_from) => self.reply_step(reply_from).state,
            Stimulus::Snapshot(index, term) => self.snapshot_step(index, term),
            Stimulus::CondInstallSnapshot(term, index) => self.cond_install_snapshot_step(
                term,
                index,
            ),
        }
    }

    /// Whether the step on `x` tells its caller to store the durable
    /// state.
    pub open spec fn stores(self, x: Stimulus) -> bool {
        match x {
            Stimulus::RequestVote(a) => self.request_vote_step(a).effects.persist,
            Stimulus::AppendEntries(a) => self.append_entries_step(a).effects.persist,
            Stimulus::InstallSnapshot(a) => self.install_snapshot_step(a).effects.persist,
            Stimulus::Start(command) => self.start_step(command).effects.persist,
            Stimulus::Action(action) => self.action_step(action).effects.persist,
            Stimulus::Reply(reply_from) => self.reply_step(reply_from).effects.persist,
            Stimulus::Snapshot(index, _) => self.snapshot_accepted(index),
            Stimulus::CondInstallSnapshot(term, index) => self.snapshot_is_news(term, index)
                && self.snapshot_accepted(index),
        }
    }

    /// The requests that the step on `x` wants sent.
    pub open spec fn sends(self, x: Stimulus) -> Seq<OutboundView> {
        match x {
            Stimulus::RequestVote(a) => self.request_vote_step(a).effects.sends,
            Stimulus::AppendEntries(a) => self.append_entries_step(a).effects.sends,
            Stimulus::InstallSnapshot(a) => self.install_snapshot_step(a).effects.sends,
            Stimulus::Start(command) => self.start_step(command).effects.sends,
            Stimulus::Action(action) => self.action_step(action).effects.sends,
            Stimulus::Reply(reply_from) => self.reply_step(reply_from).effects.sends,
            Stimulus::Snapshot(_, _) => Seq::empty(),
            Stimulus::CondInstallSnapshot(_, _) => Seq::empty(),
        }
    }

    /// The messages that the step on `x` hands to the service.
    pub open spec fn delivers(self, x: Stimulus) -> Seq<ApplyMsgView> {
        match x {
            Stimulus::RequestVote(a) => self.request_vote_step(a).effects.applies,
            Stimulus::AppendEntries(a) => self.append_entries_step(a).effects.applies,
            Stimulus::InstallSnapshot(a) => self.install_snapshot_step(a).effects.applies,
            Stimulus::Start(command) => self.start_step(command).effects.applies,
            Stimulus::Action(action) => self.action_step(action).effects.applies,
            Stimulus::Reply(reply_from) => self.reply_step(reply_from).effects.applies,
            Stimulus::Snapshot(_, _) => Seq::empty(),
            Stimulus::CondInstallSnapshot(_, _) => Seq::empty(),
        }
    }
}

} // verus!
