//! What a peer does as a leader or on its way to become one: taking
//! commands, sending entries, counting votes and answers, committing.

use crate::proto::raftpb::{
    AppendEntriesArgs, AppendEntriesReply, InstallSnapshotArgs, InstallSnapshotReply, LogEntry,
    RequestVoteArgs, RequestVoteReply,
};
use crate::raft::errors::Error;
use crate::raft::{Actions, ApplyMsg, Effects, Outbound, Raft, RepliesFrom};
use vstd::prelude::*;

verus! {

impl Raft {
    /// The service wants agreement on `command` as the next log entry.
    ///
    /// Only a leader takes it: the command is appended with the leader's
    /// term, and the result is the index at which it will appear if it is
    /// ever committed, and the current term. There is no promise that it
    /// will be committed.
    pub fn start(&mut self, command: Vec<u8>) -> (out: (Result<(u64, u64), Error>, Effects))
        requires
            old(self).wf(),
            old(self)@.last_log_index() + 1 < u64::MAX,
        ensures
            final(self).wf(),
            final(self)@ == old(self)@.start_step(command@).state,
            out.0 == old(self)@.start_step(command@).reply,
            out.1@ == old(self)@.start_step(command@).effects,
    {
        if !self.is_leader() {
            return (Err(Error::NotLeader), Effects::persist_if(false));
        }
        let ghost payload = command@;
        let entry = LogEntry { term: self.state.term, rb: command };
        proof {
            self.lemma_log_view();
        }
        self.log.push(entry);
        assert(self@.log =~= old(self)@.log.push(entry@));
        let mut effects = Effects::persist_if(true);
        effects.reset_timer = true;
        effects.heartbeat = true;
        (Ok((self.last_log_index_logical(), self.state.term)), effects)
    }

    /// The AppendEntries request for `peer`: the entries from
    /// `next_index[peer]` on, behind the entry before them. There is none
    /// when the log does not hold that entry, because a snapshot has
    /// replaced it or because the log ends before it.
    pub fn append_entries_args_for(&self, peer: u64) -> (args: Option<AppendEntriesArgs>)
        requires
            self.wf(),
            peer < self@.npeers,
        ensures
            match args {
                Some(a) => self@.append_entries_args_for(peer as int) == Some(a@),
                None => self@.append_entries_args_for(peer as int) is None,
            },
    {
        let next: u64 = self.next_index[peer as usize];
        assert(next == self@.next_index[peer as int]);
        let prev_log_index: u64 = next - 1;
        let prev_log_term = match self.term_at_logical(prev_log_index) {
            Some(t) => t,
            None => {
                return None;
            },
        };
        proof {
            self.lemma_log_view();
        }
        let end: usize = self.log.len();
        let start: usize = (prev_log_index - self.last_included_index) as usize;
        let mut log_entries: Vec<LogEntry> = Vec::new();
        let mut i: usize = start;
        while i < end
            invariant
                start <= i <= end,
                end == self.log.len(),
                log_entries.len() == i - start,
                forall|j: int| 0 <= j < log_entries.len() ==> log_entries[j]@ == self.log[start + j]@,
            decreases end - i,
        {
            log_entries.push(self.log[i].clone());
            i += 1;
        }
        let args = AppendEntriesArgs {
            term: self.state.term,
            leader_id: self.me as u64,
            prev_log_index,
            prev_log_term,
            log_entries,
            leader_commit: self.commit_index,
        };
        assert(args@.log_entries =~= self@.log.skip(start as int));
        Some(args)
    }

    /// The InstallSnapshot request that carries the stored snapshot
    /// `snapshot`.
    pub fn install_snapshot_args(&self, snapshot: Vec<u8>) -> (args: InstallSnapshotArgs)
        ensures
            args@ == self@.install_snapshot_args(snapshot@),
    {
        InstallSnapshotArgs {
            term: self.state.term,
            leader_id: self.me as u64,
            last_included_index: self.last_included_index,
            last_included_term: self.last_included_term,
            rb: snapshot,
        }
    }

    /// The requests of a heartbeat round: for every other peer the entries
    /// it lacks, or the snapshot where the log no longer holds what the
    /// peer needs. Only a leader sends any.
    pub fn send_heartbeat(&self) -> (sends: Vec<Outbound>)
        requires
            self.wf(),
        ensures
            sends@.map_values(|o: Outbound| o@) == self@.heartbeat_step().effects.sends,
    {
        let mut sends: Vec<Outbound> = Vec::new();
        if !self.is_leader() {
            assert(sends@.map_values(|o: Outbound| o@) =~= Seq::empty());
            return sends;
        }
        let last: u64 = self.last_log_index_logical();
        let mut i: usize = 0;
        assert(sends@.map_values(|o: Outbound| o@) =~= self@.heartbeat_sends(0));
        while i < self.npeers
            invariant
                self.wf(),
                i <= self.npeers,
                self.npeers == self@.npeers,
                self.me == self@.me,
                last == self@.last_log_index(),
                self.last_included_index == self@.last_included_index,
                sends@.map_values(|o: Outbound| o@) == self@.heartbeat_sends(i as int),
            decreases self.npeers - i,
        {
            let ghost before = sends@.map_values(|o: Outbound| o@);
            if i != self.me {
                let out = match self.append_entries_args_for(i as u64) {
                    Some(args) => Outbound::AppendEntries {
                        peer: i as u64,
                        args,
                        next_index_on_success: last + 1,
                    },
                    None => Outbound::InstallSnapshot {
                        peer: i as u64,
                        next_index_on_success: self.last_included_index + 1,
                    },
                };
                assert(out@ == self@.outbound_for(i as int));
                sends.push(out);
                assert(sends@.map_values(|o: Outbound| o@) =~= before.push(out@));
            }
            i += 1;
        }
        sends
    }

    /// The election timeout has passed: unless the peer leads, it becomes
    /// a candidate in the next term and asks every other peer for its vote.
    pub fn start_election(&mut self) -> (effects: Effects)
        requires
            old(self).wf(),
            old(self)@.term < u64::MAX,
        ensures
            final(self).wf(),
            final(self)@ == old(self)@.election_step().state,
            effects@ == old(self)@.election_step().effects,
    {
        if self.is_leader() {
            return Effects::persist_if(false);
        }
        self.turn_candidate();
        let args = RequestVoteArgs {
            term: self.state.term,
            cid: self.me as u64,
            last_log_index: self.last_log_index_logical(),
            last_log_term: self.last_log_term(),
        };
        let mut sends: Vec<Outbound> = Vec::new();
        let mut i: usize = 0;
        assert(sends@.map_values(|o: Outbound| o@) =~= self@.vote_requests(0));
        while i < self.npeers
            invariant
                i <= self.npeers,
                self.npeers == self@.npeers,
                self.me == self@.me,
                args == self@.vote_request(),
                sends@.map_values(|o: Outbound| o@) == self@.vote_requests(i as int),
            decreases self.npeers - i,
        {
            let ghost before = sends@.map_values(|o: Outbound| o@);
            if i != self.me {
                let out = Outbound::RequestVote { peer: i as u64, args };
                sends.push(out);
                assert(sends@.map_values(|o: Outbound| o@) =~= before.push(out@));
            }
            i += 1;
        }
        let mut effects = Effects::persist_if(true);
        effects.sends = sends;
        effects
    }

    /// What a timer asks for.
    pub fn mux_actions(&mut self, action: Actions) -> (effects: Effects)
        requires
            old(self).wf(),
            action == Actions::StartElection ==> old(self)@.term < u64::MAX,
        ensures
            final(self).wf(),
            final(self)@ == old(self)@.action_step(action).state,
            effects@ == old(self)@.action_step(action).effects,
    {
        match action {
            Actions::StartElection => self.start_election(),
            Actions::SendHeartbeat => {
                let mut effects = Effects::persist_if(false);
                effects.sends = self.send_heartbeat();
                effects
            },
        }
    }

    /// Whether `peer` is among the counted voters.
    fn has_voter(&self, peer: u64) -> (b: bool)
        ensures
            b == self@.voters.contains(peer),
    {
        let mut i: usize = 0;
        while i < self.voters.len()
            invariant
                i <= self.voters.len(),
                forall|j: int| 0 <= j < i ==> self.voters[j] != peer,
            decreases self.voters.len() - i,
        {
            if self.voters[i] == peer {
                return true;
            }
            i += 1;
        }
        false
    }

    /// An answer to a vote request arrives from `from`.
    ///
    /// A higher term in it makes the peer a follower. A candidate counts a
    /// vote given in its own term, each voter once; with the votes of more
    /// than half of the peers it becomes the leader and sends a heartbeat
    /// round at once.
    pub fn handle_request_vote_reply(&mut self, from: u64, reply: RequestVoteReply) -> (effects:
        Effects)
        requires
            old(self).wf(),
        ensures
            final(self).wf(),
            final(self)@ == old(self)@.request_vote_reply_step(from, reply).state,
            effects@ == old(self)@.request_vote_reply_step(from, reply).effects,
    {
        let mut effects = Effects::persist_if(false);
        if reply.term > self.state.term {
            self.turn_follower(reply.term, true);
            effects.persist = true;
        }
        if !self.is_candidate() {
            return effects;
        }
        if reply.term == self.state.term && reply.granted {
            if !self.has_voter(from) {
                self.voters.push(from);
            }
            if self.voters.len() > self.npeers / 2 {
                self.turn_leader();
                effects.sends = self.send_heartbeat();
            }
        }
        effects
    }

    /// Whether a strict majority of the peers, this one among them, is
    /// known to store the entry at `index`.
    fn majority_stores(&self, index: u64) -> (b: bool)
        requires
            self.wf(),
        ensures
            b == (1 + self@.replicated_on(index as int, self@.npeers as int) > self@.npeers / 2),
    {
        let mut count: usize = 0;
        let mut j: usize = 0;
        while j < self.npeers
            invariant
                self.wf(),
                j <= self.npeers,
                self.npeers == self@.npeers,
                self.me == self@.me,
                self.match_index@ == self@.match_index,
                count == self@.replicated_on(index as int, j as int),
                count <= j,
            decreases self.npeers - j,
        {
            if j != self.me && self.match_index[j] >= index {
                count += 1;
            }
            j += 1;
        }
        count >= self.npeers / 2
    }

    /// The index up to which the leader may commit: the largest one ahead
    /// of the commit index that a strict majority stores and whose entry
    /// is of the current term. Without such an index, the commit index.
    pub fn valid_commit_index_from_majority(&self) -> (index: u64)
        requires
            self.wf(),
        ensures
            index == self@.majority_commit_index(),
            index > self@.commit_index ==> index <= self@.last_log_index(),
    {
        let mut n: u64 = self.last_log_index_logical();
        while n > self.commit_index
            invariant
                self.wf(),
                n <= self@.last_log_index(),
                self.commit_index == self@.commit_index,
                self.state.term == self@.term,
                self@.largest_committable(self@.last_log_index()) == self@.largest_committable(
                    n as int,
                ),
            decreases n,
        {
            if self.majority_stores(n) {
                match self.term_at_logical(n) {
                    Some(t) => {
                        if t == self.state.term {
                            return n;
                        }
                    },
                    None => {},
                }
            }
            n -= 1;
        }
        self.commit_index
    }

    /// Moves the commit index to where the majority allows and returns the
    /// newly committed entries for delivery.
    pub(crate) fn advance_commit_index_and_apply(&mut self) -> (msgs: Vec<ApplyMsg>)
        requires
            old(self).wf(),
        ensures
            final(self).wf(),
            final(self)@ == old(self)@.committed_up_to(old(self)@.majority_commit_index()),
            msgs@.map_values(|m: ApplyMsg| m@) == old(self)@.applies_up_to(
                old(self)@.majority_commit_index(),
            ),
    {
        let commit_index = self.valid_commit_index_from_majority();
        self.apply_to(commit_index)
    }

    /// An answer to an AppendEntries request arrives from `from`;
    /// `next_index` is the `next_index_on_success` that went with the
    /// request.
    ///
    /// A higher term in it makes the peer a follower. Else only a leader
    /// whose term is the answer's acts on it. On success the peer is known
    /// to store everything before `next_index`, and the commit index moves
    /// as far as the majority allows. On failure sending resumes at the
    /// answer's hint, or one entry earlier (not below 1) without a hint;
    /// what the peer is known to store stays.
    pub fn handle_append_entries_reply(
        &mut self,
        from: u64,
        next_index: u64,
        reply: AppendEntriesReply,
    ) -> (effects: Effects)
        requires
            old(self).wf(),
            from < old(self)@.npeers,
            next_index >= 1,
        ensures
            final(self).wf(),
            final(self)@ == old(self)@.append_entries_reply_step(from, next_index, reply).state,
            effects@ == old(self)@.append_entries_reply_step(from, next_index, reply).effects,
    {
        let mut effects = Effects::persist_if(false);
        if reply.term > self.state.term {
            self.turn_follower(reply.term, true);
            effects.persist = true;
        }
        if !self.is_leader() || reply.term != self.state.term {
            return effects;
        }
        let peer: usize = from as usize;
        if reply.success {
            self.next_index[peer] = next_index;
            self.match_index[peer] = next_index - 1;
            effects.applies = self.advance_commit_index_and_apply();
        } else {
            let resume: u64 = if reply.conflict_index != 0 {
                reply.conflict_index
            } else if self.next_index[peer] > 1 {
                self.next_index[peer] - 1
            } else {
                1
            };
            self.next_index[peer] = resume;
        }
        effects
    }

    /// An answer to an InstallSnapshot request arrives from `from`;
    /// `next_index` is the `next_index_on_success` that went with the
    /// request.
    ///
    /// A higher term in it makes the peer a follower. A leader resumes
    /// sending to `from` at `next_index`.
    pub fn handle_install_snapshot_reply(
        &mut self,
        from: u64,
        next_index: u64,
        reply: InstallSnapshotReply,
    ) -> (effects: Effects)
        requires
            old(self).wf(),
            from < old(self)@.npeers,
            next_index >= 1,
        ensures
            final(self).wf(),
            final(self)@ == old(self)@.install_snapshot_reply_step(from, next_index, reply).state,
            effects@ == old(self)@.install_snapshot_reply_step(from, next_index, reply).effects,
    {
        let mut effects = Effects::persist_if(false);
        if reply.term > self.state.term {
            self.turn_follower(reply.term, true);
            effects.persist = true;
        }
        if self.is_leader() {
            self.next_index[from as usize] = next_index;
        }
        effects
    }

    /// An answer to one of this peer's requests.
    pub fn mux_replies(&mut self, reply_from: RepliesFrom) -> (effects: Effects)
        requires
            old(self).wf(),
            reply_from matches RepliesFrom::AppendEntries(from, next, _) ==> from < old(self)@.npeers
                && next >= 1,
            reply_from matches RepliesFrom::InstallSnapshot(from, next, _) ==> from < old(
                self,
            )@.npeers && next >= 1,
        ensures
            final(self).wf(),
            final(self)@ == old(self)@.reply_step(reply_from).state,
            effects@ == old(self)@.reply_step(reply_from).effects,
    {
        match reply_from {
            RepliesFrom::RequestVote(peer, reply) => self.handle_request_vote_reply(peer, reply),
            RepliesFrom::AppendEntries(peer, next, reply) => self.handle_append_entries_reply(
                peer,
                next,
                reply,
            ),
            RepliesFrom::InstallSnapshot(peer, next, reply) => self.handle_install_snapshot_reply(
                peer,
                next,
                reply,
            ),
        }
    }
}

} // verus!
