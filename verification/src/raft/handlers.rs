//! What a peer does with the requests of other peers.

use crate::proto::raftpb::{
    AppendEntriesArgs, AppendEntriesReply, InstallSnapshotArgs, InstallSnapshotReply, LogEntry,
    RequestVoteArgs, RequestVoteReply,
};
use crate::raft::{ApplyMsg, Effects, Raft};
use vstd::prelude::*;

verus! {

impl Raft {
    /// Whether this peer has not voted in its term.
    pub fn vote_for_nobody(&self) -> (b: bool)
        ensures
            b == (self@.voted_for is None),
    {
        self.voted_for.is_none()
    }

    /// Whether this peer's vote in its term went to `candidate`.
    fn voted_for_candidate(&self, candidate: u64) -> (b: bool)
        ensures
            b == (self@.voted_for == Some(candidate)),
    {
        match self.voted_for {
            Some(c) => c == candidate,
            None => false,
        }
    }

    /// Whether the candidate's log is at least as up to date as this
    /// peer's: its last term is higher, or the same with an index that is
    /// not lower.
    pub fn candidate_up_to_date(&self, args: &RequestVoteArgs) -> (b: bool)
        requires
            self.wf(),
        ensures
            b == self@.up_to_date(args.last_log_term, args.last_log_index),
    {
        let my_last_log_term = self.last_log_term();
        let cond1 = args.last_log_term > my_last_log_term;
        let cond2 = args.last_log_term == my_last_log_term && args.last_log_index
            >= self.last_log_index_logical();
        cond1 || cond2
    }

    /// A candidate asks for this peer's vote.
    ///
    /// A request from a lower term is refused and changes nothing. A higher
    /// term makes the peer a follower in it first. The vote is given if the
    /// peer has not voted for another candidate in the term and the
    /// candidate's log is at least as up to date as its own; the vote is
    /// then recorded, to be stored before the answer leaves. The answer
    /// carries the peer's term after the step.
    pub fn request_vote_handler(&mut self, args: RequestVoteArgs) -> (out: (
        RequestVoteReply,
        Effects,
    ))
        requires
            old(self).wf(),
        ensures
            final(self).wf(),
            final(self)@ == old(self)@.request_vote_step(args).state,
            out.0 == old(self)@.request_vote_step(args).reply,
            out.1@ == old(self)@.request_vote_step(args).effects,
    {
        if args.term < self.state.term {
            return (
                RequestVoteReply { term: self.state.term, granted: false },
                Effects::persist_if(false),
            );
        }
        let mut effects = Effects::persist_if(false);
        if args.term > self.state.term {
            self.turn_follower(args.term, true);
            effects.persist = true;
        }
        let mut granted = false;
        if (self.vote_for_nobody() || self.voted_for_candidate(args.cid))
            && self.candidate_up_to_date(&args) {
            self.voted_for = Some(args.cid);
            granted = true;
            effects.persist = true;
            effects.reset_timer = true;
        }
        (RequestVoteReply { term: self.state.term, granted }, effects)
    }

    /// Whether the log holds an entry of term `term` at `logical_index`.
    fn entry_matches(&self, logical_index: u64, term: u64) -> (b: bool)
        requires
            self.wf(),
        ensures
            b == (self@.term_at(logical_index as int) == Some(term)),
    {
        match self.term_at_logical(logical_index) {
            Some(t) => t == term,
            None => false,
        }
    }

    /// The hint for a leader whose `prev_log_index` did not match: one past
    /// the end of the log when the log is shorter; else the first index of
    /// the run of the term found at `prev_log_index`; 0 when that index
    /// lies in the snapshot.
    fn conflict_index_for(&self, prev_log_index: u64) -> (index: u64)
        requires
            self.wf(),
        ensures
            index == self@.conflict_index(prev_log_index),
    {
        let last = self.last_log_index_logical();
        if last < prev_log_index {
            return last + 1;
        }
        match self.term_at_logical(prev_log_index) {
            Some(conflict_term) => {
                let mut index: u64 = self.last_included_index;
                while index < prev_log_index
                    invariant
                        self.wf(),
                        self@.last_included_index <= index <= prev_log_index,
                        prev_log_index <= self@.last_log_index(),
                        self@.term_at(prev_log_index as int) == Some(conflict_term),
                        self@.first_with_term(
                            conflict_term,
                            self@.last_included_index + 1,
                            prev_log_index as int,
                        ) == self@.first_with_term(
                            conflict_term,
                            index + 1,
                            prev_log_index as int,
                        ),
                    decreases prev_log_index - index,
                {
                    index += 1;
                    if self.entry_matches(index, conflict_term) {
                        assert(self@.first_with_term(
                            conflict_term,
                            index as int,
                            prev_log_index as int,
                        ) == index);
                        return index;
                    }
                }
                0
            },
            None => 0,
        }
    }

    /// The number of leading entries of `args` that the log already holds
    /// behind `prev_log_index`.
    fn first_mismatch_of(&self, args: &AppendEntriesArgs) -> (k: usize)
        requires
            self.wf(),
            args.prev_log_index + args.log_entries.len() < u64::MAX,
        ensures
            k == self@.first_mismatch(args.prev_log_index as int, args@.log_entries, 0),
            k <= args.log_entries.len(),
    {
        let n = args.log_entries.len();
        let mut k: usize = 0;
        while k < n && self.entry_matches(
            args.prev_log_index + 1 + k as u64,
            args.log_entries[k].term,
        )
            invariant
                self.wf(),
                n == args.log_entries.len(),
                k <= n,
                args.prev_log_index + n < u64::MAX,
                args@.log_entries.len() == n,
                forall|i: int| 0 <= i < n ==> args@.log_entries[i] == args.log_entries[i]@,
                self@.first_mismatch(args.prev_log_index as int, args@.log_entries, 0)
                    == self@.first_mismatch(args.prev_log_index as int, args@.log_entries, k as int),
            decreases n - k,
        {
            k += 1;
        }
        k
    }

    /// The commit index to take from a leader whose own is `leader_commit`,
    /// if that is ahead of this peer's: the leader's, but not beyond the
    /// end of the log.
    pub fn get_update_commit_index(&self, leader_commit: u64) -> (target: Option<u64>)
        requires
            self.wf(),
        ensures
            target == if leader_commit > self@.commit_index {
                Some(self@.follower_commit_target(leader_commit))
            } else {
                None
            },
    {
        if leader_commit > self.commit_index {
            let last = self.last_log_index_logical();
            if leader_commit <= last {
                Some(leader_commit)
            } else {
                Some(last)
            }
        } else {
            None
        }
    }

    /// A leader sends entries, or a heartbeat.
    ///
    /// A request from a lower term is refused and changes nothing. Else the
    /// peer follows the sender: a higher term makes it a follower in that
    /// term, and a candidate of the same term gives up. If the log does not
    /// hold an entry of term `prev_log_term` at `prev_log_index`, the
    /// answer reports failure with a hint where to resume. Else the entries
    /// are put behind `prev_log_index`: those that the log holds already
    /// stay, and from the first that it does not hold the log is cut and
    /// continued with the rest. Then the commit index follows the leader's,
    /// and the newly committed entries are returned for delivery.
    pub fn append_entries_handler(&mut self, args: AppendEntriesArgs) -> (out: (
        AppendEntriesReply,
        Effects,
    ))
        requires
            old(self).wf(),
            args.prev_log_index + args.log_entries.len() < u64::MAX,
        ensures
            final(self).wf(),
            final(self)@ == old(self)@.append_entries_step(args@).state,
            out.0 == old(self)@.append_entries_step(args@).reply,
            out.1@ == old(self)@.append_entries_step(args@).effects,
    {
        let mut args = args;
        let ghost a = args@;
        if args.term < self.state.term {
            return (
                AppendEntriesReply { term: self.state.term, success: false, conflict_index: 0 },
                Effects::persist_if(false),
            );
        }
        let mut effects = Effects::persist_if(false);
        effects.reset_timer = true;
        if args.term > self.state.term {
            self.turn_follower(args.term, true);
            effects.persist = true;
        } else if self.state.is_candidate() {
            self.turn_follower(args.term, false);
            effects.persist = true;
        }
        let ghost s1 = self@;
        assert(s1 == old(self)@.follow_leader(a.term));

        if !self.entry_matches(args.prev_log_index, args.prev_log_term) {
            let conflict_index = self.conflict_index_for(args.prev_log_index);
            return (
                AppendEntriesReply { term: self.state.term, success: false, conflict_index },
                effects,
            );
        }
        let k = self.first_mismatch_of(&args);
        if k < args.log_entries.len() {
            proof {
                self.lemma_log_view();
                s1.lemma_first_mismatch(a.prev_log_index as int, a.log_entries, 0);
                if k > 0 {
                    assert(s1.term_at(a.prev_log_index + 1 + (k - 1)) == Some(
                        a.log_entries[k - 1].term,
                    ));
                }
            }
            let keep: usize = (args.prev_log_index - self.last_included_index) as usize + k;
            let ghost old_log = self.log@;
            let ghost old_entries = args.log_entries@;
            let mut rest: Vec<LogEntry> = args.log_entries.split_off(k);
            self.log.truncate(keep);
            self.log.append(&mut rest);
            assert(self.log@ =~= old_log.subrange(0, keep as int) + old_entries.subrange(
                k as int,
                old_entries.len() as int,
            ));
            assert(self@.log =~= s1.log.take(keep as int) + a.log_entries.skip(k as int));
        }
        let ghost s2 = self@;
        assert(s2.log == s1.spliced_log(a.prev_log_index as int, a.log_entries));
        effects.persist = true;
        match self.get_update_commit_index(args.leader_commit) {
            Some(index) => {
                effects.applies = self.apply_to(index);
            },
            None => {
                assert(effects@.applies =~= s2.applies_up_to(s2.commit_index));
            },
        }
        (AppendEntriesReply { term: self.state.term, success: true, conflict_index: 0 }, effects)
    }

    /// A leader sends its snapshot.
    ///
    /// A request from a lower term changes nothing. A higher term makes the
    /// peer a follower in it. A follower hands the snapshot on to the
    /// service and counts everything up to the snapshot's last index as
    /// committed and applied; the log is cut when the service calls
    /// [`Raft::cond_install_snapshot`]. The answer carries the peer's term.
    pub fn install_snapshot_handler(&mut self, args: InstallSnapshotArgs) -> (out: (
        InstallSnapshotReply,
        Effects,
    ))
        requires
            old(self).wf(),
        ensures
            final(self).wf(),
            final(self)@ == old(self)@.install_snapshot_step(args@).state,
            out.0 == old(self)@.install_snapshot_step(args@).reply,
            out.1@ == old(self)@.install_snapshot_step(args@).effects,
    {
        if args.term < self.state.term {
            return (InstallSnapshotReply { term: self.state.term }, Effects::persist_if(false));
        }
        let mut effects = Effects::persist_if(false);
        if args.term > self.state.term {
            self.turn_follower(args.term, true);
            effects.persist = true;
        }
        if self.state.is_follower() {
            let index = args.last_included_index;
            let msg = ApplyMsg::Snapshot {
                data: args.rb,
                term: args.last_included_term,
                index,
            };
            effects.reset_timer = true;
            effects.applies.push(msg);
            if index > self.commit_index {
                self.commit_index = index;
                self.last_applied = index;
            }
            assert(effects@.applies =~= old(self)@.install_snapshot_step(args@).effects.applies);
        }
        (InstallSnapshotReply { term: self.state.term }, effects)
    }
}

} // verus!
