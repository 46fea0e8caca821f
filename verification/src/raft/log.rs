//! The log by logical index, and the delivery of committed entries.

use crate::proto::raftpb::LogEntry;
use crate::raft::{ApplyMsg, ApplyMsgView, Raft};
use vstd::prelude::*;

verus! {

impl Raft {
    /// Index of the last log entry; the snapshot's index when the log is
    /// empty.
    pub fn last_log_index_logical(&self) -> (index: u64)
        requires
            self.wf(),
        ensures
            index == self@.last_log_index(),
    {
        self.log.len() as u64 + self.last_included_index
    }

    /// Term of the last log entry; the snapshot's term when the log is
    /// empty.
    pub fn last_log_term(&self) -> (term: u64)
        ensures
            term == self@.last_log_term(),
    {
        proof {
            self.lemma_log_view();
        }
        let n = self.log.len();
        if n == 0 {
            self.last_included_term
        } else {
            self.log[n - 1].term
        }
    }

    /// Index of the latest snapshot's last entry.
    pub fn last_included_index(&self) -> (index: u64)
        ensures
            index == self@.last_included_index,
    {
        self.last_included_index
    }

    /// Term of the latest snapshot's last entry.
    pub fn last_included_term(&self) -> (term: u64)
        ensures
            term == self@.last_included_term,
    {
        self.last_included_term
    }

    /// Index of the highest entry known to be committed.
    pub fn commit_index(&self) -> (index: u64)
        ensures
            index == self@.commit_index,
    {
        self.commit_index
    }

    /// Index of the highest entry handed to the service.
    pub fn last_applied(&self) -> (index: u64)
        ensures
            index == self@.last_applied,
    {
        self.last_applied
    }

    /// The place in the log of the entry at `logical_index`, if the log
    /// holds it.
    pub fn index_logical_to_physical(&self, logical_index: u64) -> (place: Option<usize>)
        requires
            self.wf(),
        ensures
            place == if self@.has_entry(logical_index as int) {
                Some((logical_index - self@.last_included_index - 1) as usize)
            } else {
                None
            },
    {
        if logical_index <= self.last_included_index {
            return None;
        }
        let offset: u64 = logical_index - self.last_included_index - 1;
        if offset < self.log.len() as u64 {
            Some(offset as usize)
        } else {
            None
        }
    }

    /// A copy of the entry at `logical_index`, if the log holds it.
    pub fn log_at_logical(&self, logical_index: u64) -> (entry: Option<LogEntry>)
        requires
            self.wf(),
        ensures
            match entry {
                Some(e) => self@.has_entry(logical_index as int) && e@ == self@.entry_at(
                    logical_index as int,
                ),
                None => !self@.has_entry(logical_index as int),
            },
    {
        proof {
            self.lemma_log_view();
        }
        match self.index_logical_to_physical(logical_index) {
            Some(p) => Some(self.log[p].clone()),
            None => None,
        }
    }

    /// The term of the entry at `logical_index`: the snapshot's term at its
    /// last index, the entry's where the log holds one, else unknown.
    pub fn term_at_logical(&self, logical_index: u64) -> (term: Option<u64>)
        requires
            self.wf(),
        ensures
            term == self@.term_at(logical_index as int),
    {
        if logical_index == self.last_included_index {
            return Some(self.last_included_term);
        }
        proof {
            self.lemma_log_view();
        }
        match self.index_logical_to_physical(logical_index) {
            Some(p) => Some(self.log[p].term),
            None => None,
        }
    }

    /// A copy of the command at `logical_index`, if the log holds it.
    pub fn data_at_logical(&self, logical_index: u64) -> (data: Option<Vec<u8>>)
        requires
            self.wf(),
        ensures
            match data {
                Some(d) => self@.has_entry(logical_index as int) && d@ == self@.entry_at(
                    logical_index as int,
                ).payload,
                None => !self@.has_entry(logical_index as int),
            },
    {
        proof {
            self.lemma_log_view();
        }
        match self.index_logical_to_physical(logical_index) {
            Some(p) => Some(self.log[p].rb.clone()),
            None => None,
        }
    }

    /// Moves the commit index forward to `index` and returns the messages
    /// that deliver the entries up to it, in index order. Nothing happens
    /// when `index` is not ahead of the commit index.
    pub(crate) fn apply_to(&mut self, index: u64) -> (msgs: Vec<ApplyMsg>)
        requires
            old(self).wf(),
            index > old(self)@.commit_index ==> index <= old(self)@.last_log_index(),
        ensures
            final(self).wf(),
            final(self)@ == old(self)@.committed_up_to(index),
            msgs@.map_values(|m: ApplyMsg| m@) == old(self)@.applies_up_to(index),
    {
        let mut msgs: Vec<ApplyMsg> = Vec::new();
        if index <= self.commit_index {
            assert(msgs@.map_values(|m: ApplyMsg| m@) =~= Seq::empty());
            return msgs;
        }
        let first: u64 = self.last_applied;
        let mut i: u64 = first;
        while i < index
            invariant
                self.wf(),
                *self == *old(self),
                first == self@.last_applied,
                first <= i <= index,
                index <= self@.last_log_index(),
                msgs.len() == i - first,
                forall|j: int|
                    0 <= j < msgs.len() ==> (#[trigger] msgs[j])@ == (ApplyMsgView::Command {
                        data: self@.entry_at(first + 1 + j).payload,
                        index: (first + 1 + j) as u64,
                    }),
            decreases index - i,
        {
            i += 1;
            let data = self.data_at_logical(i).unwrap();
            msgs.push(ApplyMsg::Command { data, index: i });
        }
        assert(msgs@.map_values(|m: ApplyMsg| m@) =~= self@.applies_up_to(index));
        self.commit_index = index;
        self.last_applied = index;
        msgs
    }
}

} // verus!
