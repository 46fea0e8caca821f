//! Changes of role and term.

use crate::raft::{filled, Raft, Role};
use vstd::prelude::*;

verus! {

impl Raft {
    /// Makes the peer a follower in `new_term`, with no votes counted; with
    /// `clear_vote`, its own vote is free again. The durable state has to
    /// be stored afterwards.
    pub(crate) fn turn_follower(&mut self, new_term: u64, clear_vote: bool)
        requires
            old(self).wf(),
        ensures
            final(self).wf(),
            final(self)@ == old(self)@.as_follower(new_term, clear_vote),
    {
        self.state.role = Role::Follower;
        self.state.term = new_term;
        self.voters = Vec::new();
        if clear_vote {
            self.voted_for = None;
        }
        assert(self@.voters =~= Seq::empty());
    }

    /// Makes the peer a candidate in the next term, with its own vote. The
    /// durable state has to be stored afterwards.
    pub(crate) fn turn_candidate(&mut self)
        requires
            old(self).wf(),
            old(self)@.term < u64::MAX,
        ensures
            final(self).wf(),
            final(self)@ == old(self)@.as_candidate(),
    {
        self.state.role = Role::Candidate;
        self.state.term = self.state.term + 1;
        let mut voters: Vec<u64> = Vec::new();
        voters.push(self.me as u64);
        self.voters = voters;
        self.voted_for = Some(self.me as u64);
        assert(self@.voters =~= seq![self.me as u64]);
    }

    /// Makes the peer the leader of its term: every peer is to be sent the
    /// entry after the last one, and none is known to store anything.
    pub(crate) fn turn_leader(&mut self)
        requires
            old(self).wf(),
        ensures
            final(self).wf(),
            final(self)@ == old(self)@.as_leader(),
    {
        let next: u64 = self.last_log_index_logical() + 1;
        self.next_index = filled(next, self.npeers);
        self.match_index = filled(0, self.npeers);
        self.state.role = Role::Leader;
    }
}

} // verus!
