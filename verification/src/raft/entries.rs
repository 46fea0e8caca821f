//! Why an index and a term name one entry in the whole cluster.
//!
//! Entries come into being in one way only: a leader appends a command
//! behind the end of its log, with its term. Everything else copies
//! entries, from a log into a request and from a request into a log, or
//! drops them. Since a term has one leader and a leader only appends, two
//! entries with one index and one term are one entry.

use crate::proto::raftpb::{AppendEntriesArgsView, EntryView};
use crate::raft::cluster::{append_requests, is_forged, Cluster, Event};
use crate::raft::laws::{keeps_log, lemma_leader_append_only, lemma_splice};
use crate::raft::model::{OutboundView, RaftView, Stimulus};
use crate::raft::{Actions, RepliesFrom, Role};
use vstd::prelude::*;

verus! {

/// What can tell of the log: a peer, an AppendEntries request on its way
/// to a peer, or a snapshot on its way, of which the index and the term
/// are known in which it ends.
pub enum Holder {
    Peer(int),
    Message(u64, AppendEntriesArgsView),
    Snapshot(u64, u64),
}

/// The entry that the request `a` carries for index `i`, if it carries
/// one.
pub open spec fn carried(a: AppendEntriesArgsView, i: int) -> Option<EntryView> {
    if a.prev_log_index < i <= a.prev_log_index + a.log_entries.len() {
        Some(a.log_entries[i - a.prev_log_index - 1])
    } else {
        None
    }
}

/// The entry that the log of `s` holds at index `i`, if it holds one.
pub open spec fn held(s: RaftView, i: int) -> Option<EntryView> {
    if s.has_entry(i) {
        Some(s.entry_at(i))
    } else {
        None
    }
}

/// The entry, if any, that a step on `x` by a peer in state `s` creates
/// at index `i`: the command that a leader is handed, behind the end of
/// its log and with its term.
pub open spec fn created(s: RaftView, x: Stimulus, i: int) -> Option<EntryView> {
    match x {
        Stimulus::Start(command) => if s.role == Role::Leader && i == s.last_log_index() + 1 {
            Some(EntryView { term: s.term, payload: command })
        } else {
            None
        },
        _ => None,
    }
}

/// Every entry that a peer holds after a step other than the handling of
/// an AppendEntries request it held before, or the step created it.
pub proof fn lemma_entries_after_step(s: RaftView, x: Stimulus, i: int)
    requires
        s.wf(),
        s.admits(x),
        !(x is AppendEntries),
        s.after(x).has_entry(i),
    ensures
        held(s.after(x), i) == held(s, i) || held(s.after(x), i) == created(s, x, i),
{
}

/// Every entry that a peer holds after it handled an AppendEntries
/// request it held before, or the request carried it.
pub proof fn lemma_entries_after_append(s: RaftView, a: AppendEntriesArgsView, i: int)
    requires
        s.wf(),
        s.admits(Stimulus::AppendEntries(a)),
        s.append_entries_step(a).state.has_entry(i),
    ensures
        held(s.append_entries_step(a).state, i) == held(s, i) || held(
            s.append_entries_step(a).state,
            i,
        ) == carried(a, i),
{
    let s1 = s.follow_leader(a.term);
    let prev = a.prev_log_index as int;
    if a.term >= s.term && s1.term_at(prev) == Some(a.prev_log_term) {
        lemma_splice(s1, prev, a.log_entries);
        let k = s1.first_mismatch(prev, a.log_entries, 0);
        let t = s.append_entries_step(a).state;
        let t2 = RaftView { log: s1.spliced_log(prev, a.log_entries), ..s1 };
        assert(t.log == t2.log && t.last_included_index == t2.last_included_index);
        assert(t2.has_entry(i) && t2.entry_at(i) == t.entry_at(i));
        assert(held(s1, i) == held(s, i));
        if i <= prev + k {
            assert(s1.has_entry(i));
        } else if i <= prev + a.log_entries.len() {
            assert(t2.entry_at(prev + 1 + (i - prev - 1)) == a.log_entries[i - prev - 1]);
        } else {
            assert(k == a.log_entries.len());
        }
    }
}

/// The requests of a heartbeat round carry entries of the leader's log,
/// each for its index.
proof fn lemma_heartbeat_carries_the_log(s: RaftView, upto: int, k: int, i: int)
    requires
        s.wf(),
        0 <= upto <= s.npeers,
        0 <= k < s.heartbeat_sends(upto).len(),
    ensures
        s.heartbeat_sends(upto)[k] matches OutboundView::AppendEntries { args, .. } ==> (carried(
            args,
            i,
        ) is Some ==> carried(args, i) == held(s, i)),
    decreases upto,
{
    if upto > 0 {
        if upto - 1 == s.me {
            lemma_heartbeat_carries_the_log(s, upto - 1, k, i);
        } else if k < s.heartbeat_sends(upto - 1).len() {
            lemma_heartbeat_carries_the_log(s, upto - 1, k, i);
        } else {
            assert(s.heartbeat_sends(upto)[k] == s.outbound_for(upto - 1));
        }
    }
}

/// The vote requests of an election carry no entries.
proof fn lemma_vote_requests_carry_nothing(s: RaftView, upto: int, k: int)
    requires
        0 <= k < s.vote_requests(upto).len(),
    ensures
        s.vote_requests(upto)[k] is RequestVote,
    decreases upto,
{
    if upto > 0 {
        if upto - 1 == s.me {
            lemma_vote_requests_carry_nothing(s, upto - 1, k);
        } else if k < s.vote_requests(upto - 1).len() {
            lemma_vote_requests_carry_nothing(s, upto - 1, k);
        }
    }
}

/// Every entry that a step sends in an AppendEntries request is in the
/// sender's log after the step, at its index.
pub proof fn lemma_sent_entries(s: RaftView, x: Stimulus, k: int, i: int)
    requires
        s.wf(),
        s.admits(x),
        0 <= k < s.sends(x).len(),
    ensures
        s.sends(x)[k] matches OutboundView::AppendEntries { args, .. } ==> (carried(args, i)
            is Some ==> carried(args, i) == held(s.after(x), i)),
{
    match x {
        Stimulus::Action(action) => {
            if action == Actions::SendHeartbeat {
                lemma_heartbeat_carries_the_log(s, s.npeers as int, k, i);
            } else if s.role != Role::Leader {
                let c = s.as_candidate();
                lemma_vote_requests_carry_nothing(c, c.npeers as int, k);
            }
        },
        Stimulus::Reply(reply_from) => {
            match reply_from {
                RepliesFrom::RequestVote(from, r) => {
                    let t = s.after(x);
                    if t.role == Role::Leader && s.sends(x).len() > 0 {
                        crate::raft::laws::lemma_step_keeps_invariant(s, x);
                        lemma_heartbeat_carries_the_log(t, t.npeers as int, k, i);
                    }
                },
                _ => {},
            }
        },
        _ => {},
    }
}

impl Cluster {
    /// Whether `h` is there: a peer of the cluster, or a request that was
    /// sent.
    pub open spec fn is_holder(self, h: Holder) -> bool {
        match h {
            Holder::Peer(p) => 0 <= p < self.peers.len(),
            Holder::Message(to, a) => self.appends.contains((to, a)),
            Holder::Snapshot(index, term) => self.offers.contains((index, term)),
        }
    }

    /// The entry that `h` holds for index `i`, if it holds one.
    pub open spec fn entry_of(self, h: Holder, i: int) -> Option<EntryView> {
        match h {
            Holder::Peer(p) => held(self.peers[p], i),
            Holder::Message(_, a) => carried(a, i),
            Holder::Snapshot(_, _) => None,
        }
    }

    /// Whether the entry `e` is somewhere in the cluster for index `i`.
    pub open spec fn present(self, i: int, e: EntryView) -> bool {
        exists|h: Holder| self.is_holder(h) && self.entry_of(h, i) == Some(e)
    }

    /// Whether some peer is on record as the leader of `term`.
    pub open spec fn has_leader(self, term: u64) -> bool {
        exists|q: u64| self.leaders.contains_key((q, term))
    }

    /// Whether the event `e` creates the entry `entry` at index `i`.
    pub open spec fn makes(self, e: Event, i: int, entry: EntryView) -> bool {
        e matches Event::Step(at, x) && created(self.peers[at], x, i) == Some(entry)
    }

    /// An index and a term name one entry.
    pub open spec fn entries_unique(self) -> bool {
        forall|i: int, e1: EntryView, e2: EntryView|
            #[trigger] self.present(i, e1) && #[trigger] self.present(i, e2) && e1.term == e2.term
                ==> e1 == e2
    }

    /// Every entry is of a term that has a leader on record.
    pub open spec fn entries_have_leaders(self) -> bool {
        forall|i: int, e: EntryView| #[trigger] self.present(i, e) ==> self.has_leader(e.term)
    }

    /// No entry of a leader's term lies beyond the end of the leader's
    /// log.
    pub open spec fn leaders_know_their_entries(self, n: usize) -> bool {
        forall|p: int, i: int, e: EntryView|
            0 <= p < n && (#[trigger] self.peers[p]).role == Role::Leader && #[trigger] self.present(
                i,
                e,
            ) && e.term == self.peers[p].term ==> i <= self.peers[p].last_log_index()
    }

    /// What holds of the entries of every cluster that can come about
    /// without forged AppendEntries requests.
    pub open spec fn inv_entries(self, n: usize) -> bool {
        &&& self.entries_unique()
        &&& self.entries_have_leaders()
        &&& self.leaders_know_their_entries(n)
    }

    /// Every entry in the cluster after an event was there before, or the
    /// event created it; and the peer that creates an entry leads in the
    /// entry's term and puts it right behind the end of its log.
    proof fn lemma_sources(self, n: usize, e: Event, i: int, entry: EntryView)
        requires
            self.inv(n),
            self.enabled(e),
            !is_forged(e),
            self.next(e).present(i, entry),
        ensures
            self.present(i, entry) || self.makes(e, i, entry),
    {
        let d = self.next(e);
        assert(d.peers == self.stepped(e).peers);
        assert(d.peers.len() == self.peers.len());
        let h = choose|h: Holder| d.is_holder(h) && d.entry_of(h, i) == Some(entry);
        match h {
            Holder::Peer(p) => {
                self.lemma_peer_sources(n, e, p, i, entry);
            },
            Holder::Message(to, a) => {
                if self.appends.contains((to, a)) {
                    assert(self.is_holder(h) && self.entry_of(h, i) == Some(entry));
                } else {
                    let sends = self.sent(e);
                    assert(append_requests(sends).contains((to, a)));
                    let k = choose|k: int|
                        0 <= k < sends.len() && (#[trigger] sends[k] matches OutboundView::AppendEntries {
                            peer,
                            args,
                            ..
                        } && peer == to && args == a);
                    match e {
                        Event::Step(at, x) => {
                            lemma_sent_entries(self.peers[at], x, k, i);
                            assert(d.peers[at] == self.peers[at].after(x));
                            assert(d.is_holder(Holder::Peer(at)));
                            assert(d.entry_of(Holder::Peer(at), i) == Some(entry));
                            self.lemma_peer_sources(n, e, at, i, entry);
                        },
                        Event::Count(voter, candidate, reply) => {
                            let x = Stimulus::Reply(RepliesFrom::RequestVote(voter, reply));
                            let at = candidate as int;
                            lemma_sent_entries(self.peers[at], x, k, i);
                            assert(d.peers[at] == self.peers[at].after(x));
                            assert(d.entry_of(Holder::Peer(at), i) == Some(entry));
                            self.lemma_peer_sources(n, e, at, i, entry);
                        },
                        _ => {},
                    }
                }
            },
            Holder::Snapshot(_, _) => {},
        }
    }

    /// Every entry of a peer after an event was in the cluster before, or
    /// the event created it.
    proof fn lemma_peer_sources(self, n: usize, e: Event, p: int, i: int, entry: EntryView)
        requires
            self.inv(n),
            self.enabled(e),
            !is_forged(e),
            0 <= p < n,
            held(self.next(e).peers[p], i) == Some(entry),
        ensures
            self.present(i, entry) || self.makes(e, i, entry),
    {
        let d = self.next(e);
        assert(d.peers == self.stepped(e).peers);
        let s = self.peers[p];
        assert(s.wf());
        let me = Holder::Peer(p);
        assert(self.is_holder(me));
        match e {
            Event::Step(at, x) => {
                if at == p {
                    lemma_entries_after_step(s, x, i);
                    if held(s.after(x), i) == held(s, i) {
                        assert(self.entry_of(me, i) == Some(entry));
                    }
                } else {
                    assert(self.entry_of(me, i) == Some(entry));
                }
            },
            Event::Append(at, a) => {
                if at == p {
                    lemma_entries_after_append(s, a, i);
                    if held(s.append_entries_step(a).state, i) == held(s, i) {
                        assert(self.entry_of(me, i) == Some(entry));
                    } else {
                        let m = Holder::Message(p as u64, a);
                        assert(self.is_holder(m) && self.entry_of(m, i) == Some(entry));
                    }
                } else {
                    assert(self.entry_of(me, i) == Some(entry));
                }
            },
            Event::Vote(at, args) => {
                assert(self.entry_of(me, i) == Some(entry));
            },
            Event::Count(voter, candidate, reply) => {
                assert(self.entry_of(me, i) == Some(entry));
            },
            Event::Restart(at) => {
                assert(self.entry_of(me, i) == Some(entry));
            },
        }
    }

    /// A leader on record stays on record.
    proof fn lemma_has_leader_stays(self, n: usize, e: Event, term: u64)
        requires
            self.inv(n),
            self.enabled(e),
            self.has_leader(term),
        ensures
            self.next(e).has_leader(term),
    {
        self.lemma_next_keeps_inv(n, e);
        let q = choose|q: u64| self.leaders.contains_key((q, term));
        assert(self.next(e).leaders.contains_key((q, term)));
    }

    /// What holds of the entries survives every event that brings only
    /// genuine AppendEntries requests.
    pub proof fn lemma_next_keeps_entries(self, n: usize, e: Event)
        requires
            self.inv(n),
            self.inv_entries(n),
            self.enabled(e),
            !is_forged(e),
        ensures
            self.next(e).inv_entries(n),
    {
        let d = self.next(e);
        self.lemma_next_keeps_inv(n, e);
        self.lemma_stepped_keeps_inv(n, e);
        assert(d.peers == self.stepped(e).peers);
        assert(d.leaders == self.stepped(e).leaders);
        // a peer that creates an entry is on record as the leader of its term
        assert forall|i: int, entry: EntryView| self.makes(e, i, entry) implies {
            &&& e matches Event::Step(at, x) && self.peers[at].role == Role::Leader
                && self.peers[at].term == entry.term && i == self.peers[at].last_log_index() + 1
                && d.peers[at].role == Role::Leader && d.peers[at].term == entry.term
                && d.peers[at].last_log_index() == i
            &&& d.has_leader(entry.term)
            &&& self.has_leader(entry.term)
        } by {
            match e {
                Event::Step(at, x) => {
                    assert(self.peers[at].wf());
                    assert(self.leaders.contains_key((at as u64, self.peers[at].term)));
                    assert(d.leaders.contains_key((at as u64, self.peers[at].term)));
                    assert(d.peers[at] == self.peers[at].after(x));
                },
                _ => {},
            }
        }
        assert(d.entries_have_leaders()) by {
            assert forall|i: int, entry: EntryView| #[trigger] d.present(i, entry) implies d.has_leader(
                entry.term,
            ) by {
                self.lemma_sources(n, e, i, entry);
                if self.present(i, entry) {
                    self.lemma_has_leader_stays(n, e, entry.term);
                }
            }
        }
        assert(d.entries_unique()) by {
            assert forall|i: int, e1: EntryView, e2: EntryView|
                #[trigger] d.present(i, e1) && #[trigger] d.present(i, e2) && e1.term
                    == e2.term implies e1 == e2 by {
                self.lemma_sources(n, e, i, e1);
                self.lemma_sources(n, e, i, e2);
                if self.makes(e, i, e1) && self.present(i, e2) {
                    assert(false);
                }
                if self.makes(e, i, e2) && self.present(i, e1) {
                    assert(false);
                }
            }
        }
        assert(d.leaders_know_their_entries(n)) by {
            assert forall|p: int, i: int, entry: EntryView|
                0 <= p < n && (#[trigger] d.peers[p]).role == Role::Leader && #[trigger] d.present(
                    i,
                    entry,
                ) && entry.term == d.peers[p].term implies i <= d.peers[p].last_log_index() by {
                self.lemma_sources(n, e, i, entry);
                self.lemma_event_moves_peer(n, e, p);
                let s = self.peers[p];
                let t = d.peers[p];
                assert(d.leaders.contains_key((p as u64, t.term)));
                if s.role == Role::Leader && s.term == t.term {
                    self.lemma_leader_step_keeps_log(n, e, p);
                    if self.makes(e, i, entry) {
                        let at = e->Step_0;
                        assert(self.leaders.contains_key((at as u64, entry.term)));
                        assert(self.leaders.contains_key((p as u64, s.term)));
                        self.lemma_one_leader(n, at as u64, p as u64, entry.term);
                    }
                } else {
                    // the peer has just come to lead: its term had no leader, so no entry
                    assert(t.term >= s.term);
                    if self.has_leader(t.term) {
                        let q = choose|q: u64| self.leaders.contains_key((q, t.term));
                        assert(d.leaders.contains_key((q, t.term)));
                        d.lemma_one_leader(n, q, p as u64, t.term);
                        assert(self.leaders.contains_key((p as u64, t.term)));
                        assert(t.term <= s.term);
                        assert(false);
                    }
                    if self.makes(e, i, entry) {
                        assert(self.has_leader(entry.term));
                    }
                }
            }
        }
    }

    /// At the start there are no entries.
    pub proof fn lemma_init_entries(n: usize)
        ensures
            Cluster::init(n).inv_entries(n),
    {
        let c = Cluster::init(n);
        assert forall|i: int, e: EntryView| !c.present(i, e) by {
            if c.present(i, e) {
                let h = choose|h: Holder| c.is_holder(h) && c.entry_of(h, i) == Some(e);
                match h {
                    Holder::Peer(p) => {
                        assert(c.peers[p] == RaftView::fresh(n, p as usize));
                    },
                    _ => {},
                }
            }
        }
    }

    /// What holds of the entries holds after any events that can happen
    /// and bring only genuine AppendEntries requests.
    pub proof fn lemma_run_entries(n: usize, events: Seq<Event>)
        requires
            Cluster::possible(n, events),
            forall|k: int| 0 <= k < events.len() ==> !is_forged(#[trigger] events[k]),
        ensures
            Cluster::run(n, events).inv(n),
            Cluster::run(n, events).inv_entries(n),
        decreases events.len(),
    {
        Cluster::lemma_run_inv(n, events);
        if events.len() == 0 {
            Cluster::lemma_init_entries(n);
        } else {
            let fewer = events.drop_last();
            assert forall|k: int| 0 <= k < fewer.len() implies !is_forged(#[trigger] fewer[k]) by {
                assert(fewer[k] == events[k]);
            }
            Cluster::lemma_run_entries(n, fewer);
            Cluster::run(n, fewer).lemma_next_keeps_entries(n, events.last());
        }
    }
}

/// An index and a term name one entry: in a cluster that starts afresh
/// and in which AppendEntries requests reach a peer only if a peer sent
/// them, two peers that hold entries of one term at one index hold the
/// same entry there, command and all.
pub proof fn theorem_entries_are_unique(n: usize, events: Seq<Event>, p: int, q: int, i: int)
    requires
        Cluster::possible(n, events),
        forall|k: int| 0 <= k < events.len() ==> !is_forged(#[trigger] events[k]),
        0 <= p < n,
        0 <= q < n,
        Cluster::run(n, events).peers[p].has_entry(i),
        Cluster::run(n, events).peers[q].has_entry(i),
        Cluster::run(n, events).peers[p].entry_at(i).term == Cluster::run(n, events).peers[q].entry_at(
            i,
        ).term,
    ensures
        Cluster::run(n, events).peers[p].entry_at(i) == Cluster::run(n, events).peers[q].entry_at(i),
{
    let c = Cluster::run(n, events);
    Cluster::lemma_run_entries(n, events);
    let hp = Holder::Peer(p);
    let hq = Holder::Peer(q);
    assert(c.is_holder(hp) && c.entry_of(hp, i) == Some(c.peers[p].entry_at(i)));
    assert(c.is_holder(hq) && c.entry_of(hq, i) == Some(c.peers[q].entry_at(i)));
    assert(c.present(i, c.peers[p].entry_at(i)));
    assert(c.present(i, c.peers[q].entry_at(i)));
}

} // verus!
