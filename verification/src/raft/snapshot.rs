//! Log compaction: a snapshot of the service replaces a prefix of the log.

use crate::proto::raftpb::LogEntry;
use crate::raft::Raft;
use vstd::prelude::*;

verus! {

impl Raft {
    /// Cuts the log up to and including `logical_index`, whose entry has
    /// term `term`, and makes that the end of the snapshot. An index that
    /// the snapshot in place covers already is refused, and nothing
    /// changes; an index beyond the log empties it. The commit index is
    /// left to the caller.
    fn trim_log_to_logical_included(&mut self, logical_index: u64, term: u64) -> (trimmed: bool)
        requires
            old(self).wf(),
        ensures
            trimmed == old(self)@.snapshot_accepted(logical_index),
            final(self)@ == if trimmed {
                old(self)@.trimmed(logical_index, term)
            } else {
                old(self)@
            },
    {
        if logical_index <= self.last_included_index {
            return false;
        }
        proof {
            self.lemma_log_view();
        }
        let ghost old_log = self.log@;
        if logical_index > self.last_log_index_logical() {
            self.log = Vec::new();
            assert(self.log@ =~= Seq::empty());
        } else {
            let cut: usize = (logical_index - self.last_included_index) as usize;
            let rest: Vec<LogEntry> = self.log.split_off(cut);
            self.log = rest;
            assert(self.log@ =~= old_log.skip(cut as int));
        }
        self.last_included_index = logical_index;
        self.last_included_term = term;
        assert(self@.log =~= old(self)@.trimmed(logical_index, term).log);
        true
    }

    /// The service has made a snapshot of everything up to and including
    /// `index`, whose entry has term `term`, and no longer needs the log up
    /// to there.
    ///
    /// The log is cut, and what the snapshot covers counts as committed and
    /// applied. The result says whether the snapshot was taken over; it is
    /// not when the snapshot in place reaches as far. When it was, the
    /// caller stores the durable state together with the snapshot.
    pub fn snapshot(&mut self, index: u64, term: u64) -> (installed: bool)
        requires
            old(self).wf(),
            index < u64::MAX,
        ensures
            final(self).wf(),
            installed == old(self)@.snapshot_accepted(index),
            final(self)@ == old(self)@.snapshot_step(index, term),
    {
        if self.trim_log_to_logical_included(index, term) {
            if index >= self.commit_index {
                self.commit_index = index;
                self.last_applied = index;
            }
            return true;
        }
        false
    }

    /// The service wants to switch to a snapshot that the leader sent, up
    /// to and including `last_included_index`, whose entry has term
    /// `last_included_term`.
    ///
    /// It is taken over, as by [`Raft::snapshot`], only if it is at least
    /// as new as the one in place, by term first and index second, and
    /// reaches further.
    pub fn cond_install_snapshot(
        &mut self,
        last_included_term: u64,
        last_included_index: u64,
    ) -> (installed: bool)
        requires
            old(self).wf(),
            last_included_index < u64::MAX,
        ensures
            final(self).wf(),
            installed == (old(self)@.snapshot_is_news(last_included_term, last_included_index)
                && old(self)@.snapshot_accepted(last_included_index)),
            final(self)@ == old(self)@.cond_install_snapshot_step(
                last_included_term,
                last_included_index,
            ),
    {
        if last_included_term > self.last_included_term || (last_included_term
            == self.last_included_term && last_included_index >= self.last_included_index) {
            self.snapshot(last_included_index, last_included_term)
        } else {
            false
        }
    }
}

} // verus!
