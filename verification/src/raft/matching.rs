//! Why logs that agree somewhere agree everywhere before, as long as no
//! log is compacted.
//!
//! A peer knows the terms of the entries in its log, and an AppendEntries
//! request knows the terms of the entries it carries and of the one before
//! them. What is known comes into being when a leader appends an entry,
//! and is passed on from logs to requests and from requests to logs. A
//! request only enters a log behind an entry on whose term both agree, so
//! that knowledge from two sources never mixes unless it agrees.

use crate::proto::raftpb::{AppendEntriesArgsView, EntryView};
use crate::raft::cluster::{append_requests, is_forged, snapshot_offers, Cluster, Event};
use crate::raft::entries::{carried, Holder};
use crate::raft::laws::{lemma_splice, lemma_step_keeps_invariant, logs_match};
use crate::raft::model::{OutboundView, RaftView, Stimulus};
use crate::raft::{Actions, RepliesFrom, Role};
use vstd::prelude::*;

verus! {

/// The term that the request `a` has for index `i`: of the entry before
/// those it carries, and of each that it carries.
pub open spec fn message_term_at(a: AppendEntriesArgsView, i: int) -> Option<u64> {
    if i == a.prev_log_index {
        Some(a.prev_log_term)
    } else {
        match carried(a, i) {
            Some(e) => Some(e.term),
            None => None,
        }
    }
}

/// Whether `x` is a snapshot whose end the peer knows: it ends in the
/// term that the peer has for the index, or it changes nothing.
pub open spec fn is_own_snapshot(s: RaftView, x: Stimulus) -> bool {
    match x {
        Stimulus::Snapshot(index, term) => s.term_at(index as int) == Some(term) || s.after(x)
            == s,
        Stimulus::CondInstallSnapshot(term, index) => s.term_at(index as int) == Some(term)
            || s.after(x) == s,
        _ => false,
    }
}

/// Whether `x` is a snapshot that takes the place of the whole log: it
/// reaches beyond the end of the log.
pub open spec fn is_snapshot_past_log(s: RaftView, x: Stimulus) -> bool {
    match x {
        Stimulus::Snapshot(index, _) => index > s.last_log_index(),
        Stimulus::CondInstallSnapshot(_, index) => index > s.last_log_index(),
        _ => false,
    }
}

/// The index and the term in which the snapshot `x` ends.
pub open spec fn snapshot_end(x: Stimulus) -> (u64, u64) {
    match x {
        Stimulus::Snapshot(index, term) => (index, term),
        Stimulus::CondInstallSnapshot(term, index) => (index, term),
        _ => (0, 0),
    }
}

/// Whether `x` is a snapshot, made or taken over.
pub open spec fn is_snapshot(x: Stimulus) -> bool {
    x is Snapshot || x is CondInstallSnapshot
}

/// The term, if any, that a step on `x` by a peer in state `s` makes
/// known for index `i`: its own, for the entry that it creates.
pub open spec fn made_known(s: RaftView, x: Stimulus, i: int) -> Option<u64> {
    match x {
        Stimulus::Start(_) => if s.role == Role::Leader && i == s.last_log_index() + 1 {
            Some(s.term)
        } else {
            None
        },
        _ => None,
    }
}

/// What a step that neither handles an AppendEntries request nor brings
/// a snapshot whose end the peer does not know does to what a peer knows:
/// nothing is learnt but what the step makes known, and nothing is known
/// beyond the end of the log.
pub proof fn lemma_terms_after_step(s: RaftView, x: Stimulus, i: int)
    requires
        s.wf(),
        s.admits(x),
        !(x is AppendEntries),
        is_snapshot(x) ==> is_own_snapshot(s, x),
    ensures
        s.after(x).term_at(i) is Some ==> s.after(x).term_at(i) == s.term_at(i) || s.after(
            x,
        ).term_at(i) == made_known(s, x, i),
        i > s.last_log_index() ==> s.term_at(i) is None,
{
}

/// After a snapshot that reaches beyond the end of the log has taken the
/// place of the log, the peer knows what it knew, or nothing but the
/// snapshot's end.
pub proof fn lemma_terms_after_snapshot_past_log(s: RaftView, x: Stimulus, i: int)
    requires
        s.wf(),
        s.admits(x),
        is_snapshot(x),
        is_snapshot_past_log(s, x),
    ensures
        s.after(x) == s || (s.after(x).term_at(i) is Some ==> i == snapshot_end(x).0 && s.after(
            x,
        ).term_at(i) == Some(snapshot_end(x).1)),
        s.after(x).last_log_index() >= s.last_log_index(),
{
}

/// What handling an AppendEntries request does to what a peer knows.
/// Without success, nothing. With success, the peer agreed with the
/// request on the entry before the carried ones; it knows what it knew
/// up to there, and what the request knows behind it; and if it knows
/// anything beyond the request, it knew all of that before, the carried
/// entries included.
pub proof fn lemma_terms_after_append(s: RaftView, a: AppendEntriesArgsView, i: int)
    requires
        s.wf(),
        s.admits(Stimulus::AppendEntries(a)),
    ensures
        ({
            let out = s.append_entries_step(a);
            let t = out.state;
            let prev = a.prev_log_index as int;
            let end = prev + a.log_entries.len();
            &&& t.last_included_index == s.last_included_index
            &&& t.last_included_term == s.last_included_term
            &&& !out.reply.success ==> t.term_at(i) == s.term_at(i)
            &&& out.reply.success ==> {
                &&& s.term_at(prev) == Some(a.prev_log_term)
                &&& i <= prev ==> t.term_at(i) == s.term_at(i)
                &&& prev < i <= end ==> t.term_at(i) == message_term_at(a, i)
                &&& i > end && t.term_at(i) is Some ==> t.term_at(i) == s.term_at(i) && forall|
                    m: int,
                |
                    prev < m <= end ==> #[trigger] s.term_at(m) == message_term_at(a, m)
            }
        }),
{
    let s1 = s.follow_leader(a.term);
    let prev = a.prev_log_index as int;
    let out = s.append_entries_step(a);
    let t = out.state;
    assert(s1.log == s.log && s1.last_included_index == s.last_included_index
        && s1.last_included_term == s.last_included_term);
    assert(forall|m: int| s1.term_at(m) == s.term_at(m));
    if a.term >= s.term && s1.term_at(prev) == Some(a.prev_log_term) {
        lemma_splice(s1, prev, a.log_entries);
        s1.lemma_first_mismatch(prev, a.log_entries, 0);
        let k = s1.first_mismatch(prev, a.log_entries, 0);
        let t2 = RaftView { log: s1.spliced_log(prev, a.log_entries), ..s1 };
        assert(t.log == t2.log && t.last_included_index == t2.last_included_index
            && t.last_included_term == t2.last_included_term);
        assert(forall|m: int| t.term_at(m) == t2.term_at(m));
        let end = prev + a.log_entries.len();
        if i <= prev {
            if s1.has_entry(i) {
                assert(t2.has_entry(i) && t2.entry_at(i) == s1.entry_at(i));
            }
        } else if i <= end {
            let m = i - prev - 1;
            assert(t2.has_entry(prev + 1 + m) && t2.entry_at(prev + 1 + m).term
                == a.log_entries[m].term);
        } else if t.term_at(i) is Some {
            assert(k == a.log_entries.len());
            assert forall|m: int| prev < m <= end implies #[trigger] s.term_at(m)
                == message_term_at(a, m) by {
                let d = m - prev - 1;
                assert(s1.term_at(prev + 1 + d) == Some(a.log_entries[d].term));
            }
        }
    }
}

/// The requests of a heartbeat round know what the leader knows, from the
/// entry before the carried ones to the end of the leader's log.
proof fn lemma_heartbeat_knows_the_log(s: RaftView, upto: int, k: int, i: int)
    requires
        s.wf(),
        0 <= upto <= s.npeers,
        0 <= k < s.heartbeat_sends(upto).len(),
    ensures
        s.heartbeat_sends(upto)[k] matches OutboundView::AppendEntries { args, .. } ==> (
        message_term_at(args, i) is Some ==> message_term_at(args, i) == s.term_at(i)),
    decreases upto,
{
    if upto > 0 {
        if upto - 1 == s.me {
            lemma_heartbeat_knows_the_log(s, upto - 1, k, i);
        } else if k < s.heartbeat_sends(upto - 1).len() {
            lemma_heartbeat_knows_the_log(s, upto - 1, k, i);
        } else {
            assert(s.heartbeat_sends(upto)[k] == s.outbound_for(upto - 1));
        }
    }
}

/// The vote requests of an election are no AppendEntries requests.
proof fn lemma_vote_requests_know_nothing(s: RaftView, upto: int, k: int)
    requires
        0 <= k < s.vote_requests(upto).len(),
    ensures
        s.vote_requests(upto)[k] is RequestVote,
    decreases upto,
{
    if upto > 0 {
        if upto - 1 == s.me {
            lemma_vote_requests_know_nothing(s, upto - 1, k);
        } else if k < s.vote_requests(upto - 1).len() {
            lemma_vote_requests_know_nothing(s, upto - 1, k);
        }
    }
}

/// What a step sends in an AppendEntries request, the sender knows after
/// the step.
pub proof fn lemma_sent_terms(s: RaftView, x: Stimulus, k: int, i: int)
    requires
        s.wf(),
        s.admits(x),
        0 <= k < s.sends(x).len(),
    ensures
        s.sends(x)[k] matches OutboundView::AppendEntries { args, .. } ==> (message_term_at(
            args,
            i,
        ) is Some ==> message_term_at(args, i) == s.after(x).term_at(i)),
{
    match x {
        Stimulus::Action(action) => {
            if action == Actions::SendHeartbeat {
                lemma_heartbeat_knows_the_log(s, s.npeers as int, k, i);
            } else if s.role != Role::Leader {
                let c = s.as_candidate();
                lemma_vote_requests_know_nothing(c, c.npeers as int, k);
            }
        },
        Stimulus::Reply(reply_from) => {
            match reply_from {
                RepliesFrom::RequestVote(from, r) => {
                    let t = s.after(x);
                    if t.role == Role::Leader && s.sends(x).len() > 0 {
                        lemma_step_keeps_invariant(s, x);
                        lemma_heartbeat_knows_the_log(t, t.npeers as int, k, i);
                    }
                },
                _ => {},
            }
        },
        _ => {},
    }
}

/// Whether two bodies of knowledge of terms agree: where they have the
/// same term for an index, they have the same term for every index
/// before it for which both have one.
pub open spec fn agree(f: spec_fn(int) -> Option<u64>, g: spec_fn(int) -> Option<u64>) -> bool {
    forall|i: int, j: int|
        #![trigger f(i), g(j)]
        j <= i && f(i) is Some && f(i) == g(i) && f(j) is Some && g(j) is Some ==> f(j) == g(j)
}

/// Whether the indices for which `f` has a term are without gaps.
pub open spec fn gapless(f: spec_fn(int) -> Option<u64>) -> bool {
    forall|j: int, x: int, i: int|
        #![trigger f(j), f(x), f(i)]
        j <= x <= i && f(j) is Some && f(i) is Some ==> f(x) is Some
}

/// Whether everything that `f` has, `g` has too.
pub open spec fn within(f: spec_fn(int) -> Option<u64>, g: spec_fn(int) -> Option<u64>) -> bool {
    forall|i: int| #[trigger] f(i) is Some ==> f(i) == g(i)
}

/// Agreement goes both ways.
pub proof fn lemma_agree_both_ways(f: spec_fn(int) -> Option<u64>, g: spec_fn(int) -> Option<u64>)
    requires
        agree(f, g),
    ensures
        agree(g, f),
{
    assert forall|i: int, j: int|
        #![trigger g(i), f(j)]
        j <= i && g(i) is Some && g(i) == f(i) && g(j) is Some && f(j) is Some implies g(j) == f(
        j,
    ) by {
        assert(f(i) == g(i) && f(j) is Some && g(j) is Some);
    }
}

/// A part of what agrees with `v` agrees with `v`.
pub proof fn lemma_part_agrees(
    f: spec_fn(int) -> Option<u64>,
    g: spec_fn(int) -> Option<u64>,
    v: spec_fn(int) -> Option<u64>,
)
    requires
        within(f, g),
        agree(g, v),
    ensures
        agree(f, v),
        agree(v, f),
{
    assert forall|i: int, j: int|
        #![trigger f(i), v(j)]
        j <= i && f(i) is Some && f(i) == v(i) && f(j) is Some && v(j) is Some implies f(j) == v(
        j,
    ) by {
        assert(g(i) == f(i) && g(j) == f(j));
        assert(g(i) == v(i) && g(j) is Some && v(j) is Some);
    }
    assert forall|i: int, j: int|
        #![trigger v(i), f(j)]
        j <= i && v(i) is Some && v(i) == f(i) && v(j) is Some && f(j) is Some implies v(j) == f(
        j,
    ) by {
        assert(g(i) == f(i) && g(j) == f(j));
        assert(g(i) == v(i) && g(j) is Some && v(j) is Some);
    }
}

/// What agrees with `v`, forgets some of what it had and learns at most
/// one thing, which `v` does not have, beyond everything it had, still
/// agrees with `v`.
pub proof fn lemma_one_more_agrees(
    f: spec_fn(int) -> Option<u64>,
    t: spec_fn(int) -> Option<u64>,
    v: spec_fn(int) -> Option<u64>,
    at: int,
)
    requires
        agree(f, v),
        forall|i: int| i != at && #[trigger] t(i) is Some ==> t(i) == f(i),
        forall|i: int| i >= at ==> #[trigger] f(i) is None,
        t(at) is Some ==> v(at) != t(at),
    ensures
        agree(t, v),
        agree(v, t),
{
    assert forall|i: int, j: int|
        #![trigger t(i), v(j)]
        j <= i && t(i) is Some && t(i) == v(i) && t(j) is Some && v(j) is Some implies t(j) == v(
        j,
    ) by {
        assert(i != at);
        assert(t(i) == f(i));
        assert(i < at) by {
            if i >= at {
                assert(f(i) is None);
            }
        }
        assert(t(j) == f(j));
        assert(f(i) == v(i) && f(j) is Some && v(j) is Some);
    }
    lemma_agree_both_ways(t, v);
}

/// Parts of two bodies of knowledge that agree, agree.
pub proof fn lemma_parts_agree(
    f1: spec_fn(int) -> Option<u64>,
    b1: spec_fn(int) -> Option<u64>,
    f2: spec_fn(int) -> Option<u64>,
    b2: spec_fn(int) -> Option<u64>,
)
    requires
        within(f1, b1),
        within(f2, b2),
        agree(b1, b2),
    ensures
        agree(f1, f2),
{
    lemma_part_agrees(f1, b1, b2);
    lemma_part_agrees(f2, b2, f1);
}

/// What a log knows after the entries of a request were put behind an
/// entry on which log and request agreed still agrees with everything
/// that the log and the request agreed with before.
pub proof fn lemma_splice_agrees(
    f: spec_fn(int) -> Option<u64>,
    m: spec_fn(int) -> Option<u64>,
    t: spec_fn(int) -> Option<u64>,
    v: spec_fn(int) -> Option<u64>,
    prev: int,
    end: int,
)
    requires
        agree(f, v),
        agree(m, v),
        gapless(v),
        prev <= end,
        f(prev) is Some,
        f(prev) == m(prev),
        forall|i: int| prev <= i <= end ==> #[trigger] m(i) is Some,
        forall|i: int| i <= prev ==> #[trigger] t(i) == f(i),
        forall|i: int| prev < i <= end ==> #[trigger] t(i) == m(i),
        forall|i: int| i > end && #[trigger] t(i) is Some ==> t(i) == f(i),
        forall|i: int, x: int|
            #![trigger t(i), f(x)]
            i > end && t(i) is Some && prev < x <= end ==> f(x) == m(x),
    ensures
        agree(t, v),
        agree(v, t),
{
    assert forall|i: int, j: int|
        #![trigger t(i), v(j)]
        j <= i && t(i) is Some && t(i) == v(i) && t(j) is Some && v(j) is Some implies t(j) == v(
        j,
    ) by {
        if i <= prev {
            assert(t(i) == f(i) && t(j) == f(j));
            assert(f(i) == v(i) && f(j) is Some && v(j) is Some);
        } else if i <= end {
            assert(t(i) == m(i));
            if j >= prev {
                if j == prev {
                    assert(t(j) == f(j));
                } else {
                    assert(t(j) == m(j));
                }
                assert(m(j) is Some);
                assert(m(i) == v(i) && m(j) is Some && v(j) is Some);
            } else {
                assert(t(j) == f(j));
                // `v` has the index before the carried entries, since it has one on each side
                assert(v(j) is Some && v(i) is Some && j <= prev <= i);
                assert(v(prev) is Some);
                assert(m(prev) is Some);
                assert(m(i) == v(i) && m(prev) is Some && v(prev) is Some);
                assert(m(prev) == v(prev));
                assert(f(prev) == v(prev) && f(j) is Some && v(j) is Some);
            }
        } else {
            assert(t(i) == f(i));
            if j <= prev {
                assert(t(j) == f(j));
            } else if j <= end {
                assert(t(j) == m(j));
                assert(t(i) is Some && f(j) == m(j));
            } else {
                assert(t(j) == f(j));
            }
            assert(f(i) == v(i) && f(j) is Some && v(j) is Some);
        }
    }
    lemma_agree_both_ways(t, v);
}

impl Cluster {
    /// The term that `h` has for index `i`, if it has one.
    pub open spec fn term_of(self, h: Holder, i: int) -> Option<u64> {
        match h {
            Holder::Peer(p) => self.peers[p].term_at(i),
            Holder::Message(_, a) => message_term_at(a, i),
            Holder::Snapshot(index, term) => if i == index {
                Some(term)
            } else {
                None
            },
        }
    }

    /// What `h` knows of terms.
    pub open spec fn knowledge(self, h: Holder) -> spec_fn(int) -> Option<u64> {
        |i: int| self.term_of(h, i)
    }

    /// Whether somewhere in the cluster the term `t` is known for index
    /// `i`.
    pub open spec fn known(self, i: int, t: u64) -> bool {
        exists|h: Holder| self.is_holder(h) && self.term_of(h, i) == Some(t)
    }

    /// Whether the snapshot `x` fits the peer at `at`: the peer has the
    /// snapshot's term for the snapshot's index; or the snapshot was sent
    /// by a peer and reaches beyond the end of the log, whose place it
    /// takes; or it changes nothing. A snapshot that does not fit ends
    /// within the log, at an index for which the peer has another term or
    /// none.
    pub open spec fn snapshot_fits(self, at: int, x: Stimulus) -> bool {
        ||| is_own_snapshot(self.peers[at], x)
        ||| (is_snapshot_past_log(self.peers[at], x) && self.offers.contains(snapshot_end(x)))
    }

    /// Whether `e` brings neither an AppendEntries request that no peer
    /// sent nor a snapshot that does not fit.
    pub open spec fn tidy(self, e: Event) -> bool {
        &&& !is_forged(e)
        &&& e matches Event::Step(at, x) ==> (is_snapshot(x) ==> self.snapshot_fits(at, x))
    }

    /// Whether each of `events` is tidy when its turn comes.
    pub open spec fn tidy_run(n: usize, events: Seq<Event>) -> bool
        decreases events.len(),
    {
        events.len() > 0 ==> Cluster::tidy_run(n, events.drop_last()) && Cluster::run(
            n,
            events.drop_last(),
        ).tidy(events.last())
    }

    /// Whether the label that a step on peer `at` makes known is the term
    /// `t` for index `i`.
    pub open spec fn makes_known(self, e: Event, i: int, t: u64) -> bool {
        e matches Event::Step(at, x) && made_known(self.peers[at], x, i) == Some(t)
    }

    /// All that is known of terms agrees.
    pub open spec fn all_agree(self) -> bool {
        forall|h1: Holder, h2: Holder|
            self.is_holder(h1) && self.is_holder(h2) ==> #[trigger] agree(
                self.knowledge(h1),
                self.knowledge(h2),
            )
    }

    /// Nothing is known of a leader's term beyond the end of the leader's
    /// log.
    pub open spec fn leaders_know_their_term(self, n: usize) -> bool {
        forall|p: int, i: int|
            0 <= p < n && (#[trigger] self.peers[p]).role == Role::Leader && #[trigger] self.known(
                i,
                self.peers[p].term,
            ) ==> i <= self.peers[p].last_log_index()
    }

    /// Every term that is known, but term 0, has a leader on record.
    pub open spec fn terms_have_leaders(self) -> bool {
        forall|i: int, t: u64| #[trigger] self.known(i, t) ==> t == 0 || self.has_leader(t)
    }

    /// Candidates and leaders are past term 0.
    pub open spec fn candidates_past_zero(self, n: usize) -> bool {
        forall|p: int|
            0 <= p < n && (#[trigger] self.peers[p]).role != Role::Follower ==> self.peers[p].term
                >= 1
    }

    /// What holds of the knowledge of terms in every cluster that can come
    /// about tidily.
    pub open spec fn inv_matching(self, n: usize) -> bool {
        &&& self.all_agree()
        &&& self.leaders_know_their_term(n)
        &&& self.terms_have_leaders()
        &&& self.candidates_past_zero(n)
    }

    /// What anybody knows has no gaps.
    proof fn lemma_gapless(self, n: usize, h: Holder)
        requires
            self.inv(n),
            self.is_holder(h),
        ensures
            gapless(self.knowledge(h)),
    {
        let f = self.knowledge(h);
        assert forall|j: int, x: int, i: int|
            #![trigger f(j), f(x), f(i)]
            j <= x <= i && f(j) is Some && f(i) is Some implies f(x) is Some by {
            assert(f(j) == self.term_of(h, j));
            assert(f(x) == self.term_of(h, x));
            assert(f(i) == self.term_of(h, i));
        }
    }

    /// What a peer knows after an event is part of what was known before
    /// or what the event makes known.
    proof fn lemma_peer_learns(self, n: usize, e: Event, p: int, i: int, t: u64)
        requires
            self.inv(n),
            self.enabled(e),
            self.tidy(e),
            0 <= p < n,
            self.next(e).peers[p].term_at(i) == Some(t),
        ensures
            self.known(i, t) || self.makes_known(e, i, t),
    {
        let d = self.next(e);
        assert(d.peers == self.stepped(e).peers);
        let s = self.peers[p];
        assert(s.wf());
        let me = Holder::Peer(p);
        assert(self.is_holder(me));
        match e {
            Event::Step(at, x) => {
                if at == p {
                    if is_snapshot(x) && !is_own_snapshot(s, x) {
                        lemma_terms_after_snapshot_past_log(s, x, i);
                        let offer = Holder::Snapshot(snapshot_end(x).0, snapshot_end(x).1);
                        assert(self.is_holder(offer) && self.term_of(offer, i) == Some(t));
                    } else {
                        lemma_terms_after_step(s, x, i);
                        if s.after(x).term_at(i) == s.term_at(i) {
                            assert(self.term_of(me, i) == Some(t));
                        }
                    }
                } else {
                    assert(self.term_of(me, i) == Some(t));
                }
            },
            Event::Append(at, a) => {
                if at == p {
                    lemma_terms_after_append(s, a, i);
                    if s.append_entries_step(a).state.term_at(i) == s.term_at(i) {
                        assert(self.term_of(me, i) == Some(t));
                    } else {
                        let m = Holder::Message(p as u64, a);
                        assert(self.is_holder(m) && self.term_of(m, i) == Some(t));
                    }
                } else {
                    assert(self.term_of(me, i) == Some(t));
                }
            },
            Event::Vote(at, args) => {
                assert(self.term_of(me, i) == Some(t));
            },
            Event::Count(voter, candidate, reply) => {
                assert(self.term_of(me, i) == Some(t));
            },
            Event::Restart(at) => {
                assert(self.term_of(me, i) == Some(t));
            },
        }
    }

    /// The peer whose step sent the request `(to, a)`, new with the event
    /// `e`; what the request knows, the peer knows after the event.
    proof fn lemma_new_message(self, n: usize, e: Event, to: u64, a: AppendEntriesArgsView) -> (at:
        int)
        requires
            self.inv(n),
            self.enabled(e),
            self.next(e).appends.contains((to, a)),
            !self.appends.contains((to, a)),
        ensures
            0 <= at < n,
            at == Cluster::actor(e),
            within(
                self.next(e).knowledge(Holder::Message(to, a)),
                self.next(e).knowledge(Holder::Peer(at)),
            ),
    {
        let d = self.next(e);
        assert(d.peers == self.stepped(e).peers);
        let sends = self.sent(e);
        assert(append_requests(sends).contains((to, a)));
        let k = choose|k: int|
            0 <= k < sends.len() && (#[trigger] sends[k] matches OutboundView::AppendEntries {
                peer,
                args,
                ..
            } && peer == to && args == a);
        let f = d.knowledge(Holder::Message(to, a));
        match e {
            Event::Step(at, x) => {
                let g = d.knowledge(Holder::Peer(at));
                assert(d.peers[at] == self.peers[at].after(x));
                assert forall|i: int| #[trigger] f(i) is Some implies f(i) == g(i) by {
                    lemma_sent_terms(self.peers[at], x, k, i);
                }
                at
            },
            Event::Count(voter, candidate, reply) => {
                let x = Stimulus::Reply(RepliesFrom::RequestVote(voter, reply));
                let at = candidate as int;
                let g = d.knowledge(Holder::Peer(at));
                assert(d.peers[at] == self.peers[at].after(x));
                assert forall|i: int| #[trigger] f(i) is Some implies f(i) == g(i) by {
                    lemma_sent_terms(self.peers[at], x, k, i);
                }
                at
            },
            _ => 0,
        }
    }

    /// Everything that is known after an event was known before, or the
    /// event makes it known.
    proof fn lemma_learns(self, n: usize, e: Event, i: int, t: u64)
        requires
            self.inv(n),
            self.enabled(e),
            self.tidy(e),
            self.next(e).known(i, t),
        ensures
            self.known(i, t) || self.makes_known(e, i, t),
    {
        let d = self.next(e);
        assert(d.peers == self.stepped(e).peers);
        assert(d.peers.len() == self.peers.len());
        let h = choose|h: Holder| d.is_holder(h) && d.term_of(h, i) == Some(t);
        match h {
            Holder::Peer(p) => {
                self.lemma_peer_learns(n, e, p, i, t);
            },
            Holder::Message(to, a) => {
                if self.appends.contains((to, a)) {
                    assert(self.is_holder(h) && self.term_of(h, i) == Some(t));
                } else {
                    let at = self.lemma_new_message(n, e, to, a);
                    let f = d.knowledge(Holder::Message(to, a));
                    let g = d.knowledge(Holder::Peer(at));
                    assert(f(i) is Some);
                    assert(g(i) == Some(t));
                    self.lemma_peer_learns(n, e, at, i, t);
                }
            },
            Holder::Snapshot(index, term) => {
                if self.offers.contains((index, term)) {
                    assert(self.is_holder(h) && self.term_of(h, i) == Some(t));
                } else {
                    let at = Cluster::actor(e);
                    self.lemma_new_offer(n, e, index, term);
                    let f = d.knowledge(h);
                    let g = d.knowledge(Holder::Peer(at));
                    assert(f(i) is Some);
                    assert(g(i) == Some(t));
                    self.lemma_peer_learns(n, e, at, i, t);
                }
            },
        }
    }

    /// What a snapshot that is sent with the event `e` tells, the sender
    /// knows after the event.
    proof fn lemma_new_offer(self, n: usize, e: Event, index: u64, term: u64)
        requires
            self.inv(n),
            self.enabled(e),
            self.next(e).offers.contains((index, term)),
            !self.offers.contains((index, term)),
        ensures
            0 <= Cluster::actor(e) < n,
            within(
                self.next(e).knowledge(Holder::Snapshot(index, term)),
                self.next(e).knowledge(Holder::Peer(Cluster::actor(e))),
            ),
    {
        let d = self.next(e);
        assert(d.peers == self.stepped(e).peers);
        let at = Cluster::actor(e);
        let f = d.knowledge(Holder::Snapshot(index, term));
        let g = d.knowledge(Holder::Peer(at));
        assert(snapshot_offers(self.sent(e), self.stepped(e).peers[at]).contains((index, term)));
        assert forall|i: int| #[trigger] f(i) is Some implies f(i) == g(i) by {
            assert(f(i) == d.term_of(Holder::Snapshot(index, term), i));
            assert(g(i) == d.peers[at].term_at(i));
        }
    }

    /// What the peer on which an event acts knows after it agrees with
    /// everything that was known before.
    proof fn lemma_actor_agrees(self, n: usize, e: Event, at: int, v: Holder)
        requires
            self.inv(n),
            self.inv_matching(n),
            self.enabled(e),
            self.tidy(e),
            0 <= at < n,
            self.is_holder(v),
        ensures
            agree(self.next(e).knowledge(Holder::Peer(at)), self.knowledge(v)),
    {
        let d = self.next(e);
        assert(d.peers == self.stepped(e).peers);
        let s = self.peers[at];
        assert(s.wf());
        let me = Holder::Peer(at);
        assert(self.is_holder(me));
        let f = self.knowledge(me);
        let t = d.knowledge(me);
        let w = self.knowledge(v);
        assert(agree(f, w));
        match e {
            Event::Step(p, x) => {
                if p == at && is_snapshot(x) && !is_own_snapshot(s, x) {
                    // the snapshot takes the place of the log
                    let offer = Holder::Snapshot(snapshot_end(x).0, snapshot_end(x).1);
                    let o = self.knowledge(offer);
                    assert(self.is_holder(offer));
                    assert(agree(o, w));
                    assert forall|i: int| #[trigger] t(i) is Some implies t(i) == o(i) by {
                        lemma_terms_after_snapshot_past_log(s, x, i);
                    }
                    lemma_part_agrees(t, o, w);
                } else if p == at {
                    let end = s.last_log_index() + 1;
                    assert forall|i: int| i != end && #[trigger] t(i) is Some implies t(i) == f(
                        i,
                    ) by {
                        lemma_terms_after_step(s, x, i);
                    }
                    assert forall|i: int| i >= end implies #[trigger] f(i) is None by {
                        lemma_terms_after_step(s, x, i);
                    }
                    if t(end) is Some && w(end) == t(end) {
                        lemma_terms_after_step(s, x, end);
                        assert(f(end) is None);
                        assert(s.role == Role::Leader && t(end) == Some(s.term));
                        assert(self.term_of(v, end) == Some(s.term));
                        assert(self.known(end, s.term));
                        assert(false);
                    }
                    lemma_one_more_agrees(f, t, w, end);
                } else {
                    assert(within(t, f));
                    lemma_part_agrees(t, f, w);
                }
            },
            Event::Append(p, a) => {
                if p == at {
                    let out = s.append_entries_step(a);
                    if out.reply.success {
                        let m = self.knowledge(Holder::Message(at as u64, a));
                        let prev = a.prev_log_index as int;
                        let end = prev + a.log_entries.len();
                        assert(self.is_holder(Holder::Message(at as u64, a)));
                        assert(agree(m, w));
                        self.lemma_gapless(n, v);
                        lemma_terms_after_append(s, a, prev);
                        assert forall|i: int| prev <= i <= end implies #[trigger] m(i) is Some by {}
                        assert forall|i: int| i <= prev implies #[trigger] t(i) == f(i) by {
                            lemma_terms_after_append(s, a, i);
                        }
                        assert forall|i: int| prev < i <= end implies #[trigger] t(i) == m(i) by {
                            lemma_terms_after_append(s, a, i);
                        }
                        assert forall|i: int| i > end && #[trigger] t(i) is Some implies t(i)
                            == f(i) by {
                            lemma_terms_after_append(s, a, i);
                        }
                        assert forall|i: int, x: int|
                            #![trigger t(i), f(x)]
                            i > end && t(i) is Some && prev < x <= end implies f(x) == m(x) by {
                            lemma_terms_after_append(s, a, i);
                            assert(s.term_at(x) == message_term_at(a, x));
                        }
                        lemma_splice_agrees(f, m, t, w, prev, end);
                    } else {
                        assert forall|i: int| #[trigger] t(i) is Some implies t(i) == f(i) by {
                            lemma_terms_after_append(s, a, i);
                        }
                        lemma_part_agrees(t, f, w);
                    }
                } else {
                    assert(within(t, f));
                    lemma_part_agrees(t, f, w);
                }
            },
            Event::Vote(p, args) => {
                assert(within(t, f));
                lemma_part_agrees(t, f, w);
            },
            Event::Count(voter, candidate, reply) => {
                assert(within(t, f));
                lemma_part_agrees(t, f, w);
            },
            Event::Restart(p) => {
                assert(within(t, f));
                lemma_part_agrees(t, f, w);
            },
        }
    }

    /// What anybody knows after an event is part of what somebody knew
    /// before, who is returned, or of what the peer on which the event
    /// acts knows after it.
    proof fn lemma_cover(self, n: usize, e: Event, h: Holder) -> (v: Option<Holder>)
        requires
            self.inv(n),
            self.enabled(e),
            self.next(e).is_holder(h),
        ensures
            0 <= Cluster::actor(e) < n,
            match v {
                Some(v) => self.is_holder(v) && within(
                    self.next(e).knowledge(h),
                    self.knowledge(v),
                ),
                None => within(
                    self.next(e).knowledge(h),
                    self.next(e).knowledge(Holder::Peer(Cluster::actor(e))),
                ),
            },
    {
        let d = self.next(e);
        assert(d.peers == self.stepped(e).peers);
        assert(d.peers.len() == self.peers.len());
        match h {
            Holder::Peer(p) => {
                if p == Cluster::actor(e) {
                    None
                } else {
                    assert(d.peers[p] == self.peers[p]);
                    Some(h)
                }
            },
            Holder::Message(to, a) => {
                if self.appends.contains((to, a)) {
                    Some(h)
                } else {
                    let at = self.lemma_new_message(n, e, to, a);
                    None
                }
            },
            Holder::Snapshot(index, term) => {
                if self.offers.contains((index, term)) {
                    Some(h)
                } else {
                    self.lemma_new_offer(n, e, index, term);
                    None
                }
            },
        }
    }

    /// What holds of the knowledge of terms survives every tidy event.
    pub proof fn lemma_next_keeps_matching(self, n: usize, e: Event)
        requires
            self.inv(n),
            self.inv_matching(n),
            self.enabled(e),
            self.tidy(e),
        ensures
            self.next(e).inv_matching(n),
    {
        let d = self.next(e);
        self.lemma_next_keeps_inv(n, e);
        self.lemma_stepped_keeps_inv(n, e);
        assert(d.peers == self.stepped(e).peers);
        assert(d.leaders == self.stepped(e).leaders);
        let actor = Cluster::actor(e);
        assert(0 <= actor < n);
        let top = d.knowledge(Holder::Peer(actor));
        assert(d.all_agree()) by {
            assert forall|h1: Holder, h2: Holder| d.is_holder(h1) && d.is_holder(h2) implies #[trigger] agree(
                d.knowledge(h1),
                d.knowledge(h2),
            ) by {
                let c1 = self.lemma_cover(n, e, h1);
                let c2 = self.lemma_cover(n, e, h2);
                match (c1, c2) {
                    (Some(v1), Some(v2)) => {
                        assert(agree(self.knowledge(v1), self.knowledge(v2)));
                        lemma_parts_agree(
                            d.knowledge(h1),
                            self.knowledge(v1),
                            d.knowledge(h2),
                            self.knowledge(v2),
                        );
                    },
                    (Some(v1), None) => {
                        self.lemma_actor_agrees(n, e, actor, v1);
                        lemma_agree_both_ways(top, self.knowledge(v1));
                        lemma_parts_agree(d.knowledge(h1), self.knowledge(v1), d.knowledge(h2), top);
                    },
                    (None, Some(v2)) => {
                        self.lemma_actor_agrees(n, e, actor, v2);
                        lemma_parts_agree(d.knowledge(h1), top, d.knowledge(h2), self.knowledge(v2));
                    },
                    (None, None) => {
                        assert(agree(top, top));
                        lemma_parts_agree(d.knowledge(h1), top, d.knowledge(h2), top);
                    },
                }
            }
        }
        // a peer that makes a term known is on record as the leader of that term
        assert forall|i: int, t: u64| self.makes_known(e, i, t) implies {
            &&& e matches Event::Step(at, x) && self.peers[at].role == Role::Leader
                && self.peers[at].term == t && i == self.peers[at].last_log_index() + 1
                && d.peers[at].role == Role::Leader && d.peers[at].term == t
                && d.peers[at].last_log_index() == i
            &&& d.has_leader(t)
            &&& self.has_leader(t)
        } by {
            match e {
                Event::Step(at, x) => {
                    assert(self.peers[at].wf());
                    assert(self.leaders.contains_key((at as u64, self.peers[at].term)));
                    assert(d.leaders.contains_key((at as u64, self.peers[at].term)));
                    assert(d.peers[at] == self.peers[at].after(x));
                },
                _ => {},
            }
        }
        assert(d.terms_have_leaders()) by {
            assert forall|i: int, t: u64| #[trigger] d.known(i, t) implies t == 0 || d.has_leader(
                t,
            ) by {
                self.lemma_learns(n, e, i, t);
                if self.known(i, t) && t != 0 {
                    let q = choose|q: u64| self.leaders.contains_key((q, t));
                    assert(d.leaders.contains_key((q, t)));
                }
            }
        }
        assert(d.candidates_past_zero(n)) by {
            assert forall|p: int| 0 <= p < n && (#[trigger] d.peers[p]).role
                != Role::Follower implies d.peers[p].term >= 1 by {
                self.lemma_event_moves_peer(n, e, p);
            }
        }
        assert(d.leaders_know_their_term(n)) by {
            assert forall|p: int, i: int|
                0 <= p < n && (#[trigger] d.peers[p]).role == Role::Leader && #[trigger] d.known(
                    i,
                    d.peers[p].term,
                ) implies i <= d.peers[p].last_log_index() by {
                let s = self.peers[p];
                let t = d.peers[p];
                self.lemma_learns(n, e, i, t.term);
                self.lemma_event_moves_peer(n, e, p);
                assert(d.leaders.contains_key((p as u64, t.term)));
                assert(t.term >= 1);
                if s.role == Role::Leader && s.term == t.term {
                    self.lemma_leader_step_keeps_log(n, e, p);
                    if self.makes_known(e, i, t.term) {
                        let at = e->Step_0;
                        assert(self.leaders.contains_key((at as u64, t.term)));
                        assert(self.leaders.contains_key((p as u64, s.term)));
                        self.lemma_one_leader(n, at as u64, p as u64, t.term);
                    }
                } else {
                    // the peer has just come to lead: its term had no leader, so nothing
                    // was known of it
                    if self.has_leader(t.term) {
                        let q = choose|q: u64| self.leaders.contains_key((q, t.term));
                        assert(d.leaders.contains_key((q, t.term)));
                        d.lemma_one_leader(n, q, p as u64, t.term);
                        assert(self.leaders.contains_key((p as u64, t.term)));
                        assert(t.term <= s.term);
                        assert(false);
                    }
                    if self.makes_known(e, i, t.term) {
                        assert(self.has_leader(t.term));
                    }
                }
            }
        }
    }

    /// At the start all that is known is that term 0 comes before the
    /// first entry.
    pub proof fn lemma_init_matching(n: usize)
        ensures
            Cluster::init(n).inv_matching(n),
    {
        let c = Cluster::init(n);
        assert forall|h: Holder, i: int| c.is_holder(h) && c.term_of(h, i) is Some implies i == 0
            && c.term_of(h, i) == Some(0u64) by {
            match h {
                Holder::Peer(p) => {
                    assert(c.peers[p] == RaftView::fresh(n, p as usize));
                },
                _ => {},
            }
        }
        assert forall|h1: Holder, h2: Holder| c.is_holder(h1) && c.is_holder(h2) implies #[trigger] agree(
            c.knowledge(h1),
            c.knowledge(h2),
        ) by {
            let f = c.knowledge(h1);
            let g = c.knowledge(h2);
            assert forall|i: int, j: int|
                #![trigger f(i), g(j)]
                j <= i && f(i) is Some && f(i) == g(i) && f(j) is Some && g(j) is Some implies f(j)
                == g(j) by {
                assert(c.term_of(h1, j) is Some && c.term_of(h2, j) is Some);
            }
        }
        assert forall|i: int, t: u64| #[trigger] c.known(i, t) implies t == 0 by {
            let h = choose|h: Holder| c.is_holder(h) && c.term_of(h, i) == Some(t);
            assert(c.term_of(h, i) is Some);
        }
        assert forall|p: int| 0 <= p < n implies (#[trigger] c.peers[p]).role == Role::Follower by {
            assert(c.peers[p] == RaftView::fresh(n, p as usize));
        }
    }

    /// A tidy run brings no forged AppendEntries request.
    pub proof fn lemma_tidy_is_genuine(n: usize, events: Seq<Event>)
        requires
            Cluster::tidy_run(n, events),
        ensures
            forall|k: int| 0 <= k < events.len() ==> !is_forged(#[trigger] events[k]),
        decreases events.len(),
    {
        if events.len() > 0 {
            let fewer = events.drop_last();
            Cluster::lemma_tidy_is_genuine(n, fewer);
            assert forall|k: int| 0 <= k < events.len() implies !is_forged(#[trigger] events[k]) by {
                if k < fewer.len() {
                    assert(fewer[k] == events[k]);
                }
            }
        }
    }

    /// What holds of the knowledge of terms holds after every tidy run.
    pub proof fn lemma_run_matching(n: usize, events: Seq<Event>)
        requires
            Cluster::possible(n, events),
            Cluster::tidy_run(n, events),
        ensures
            Cluster::run(n, events).inv(n),
            Cluster::run(n, events).inv_matching(n),
        decreases events.len(),
    {
        Cluster::lemma_run_inv(n, events);
        if events.len() == 0 {
            Cluster::lemma_init_matching(n);
        } else {
            let fewer = events.drop_last();
            Cluster::lemma_run_matching(n, fewer);
            Cluster::run(n, fewer).lemma_next_keeps_matching(n, events.last());
        }
    }
}

/// Log matching: in a cluster that starts afresh, in which AppendEntries
/// requests reach a peer only if a peer sent them and every snapshot fits
/// the peer that makes it or takes it over, any two peers whose logs hold
/// an entry of one term at some index hold the same entries, command and
/// all, at every index up to it at which both hold one.
pub proof fn theorem_logs_match(n: usize, events: Seq<Event>, p: int, q: int)
    requires
        Cluster::possible(n, events),
        Cluster::tidy_run(n, events),
        0 <= p < n,
        0 <= q < n,
    ensures
        logs_match(Cluster::run(n, events).peers[p], Cluster::run(n, events).peers[q]),
{
    let c = Cluster::run(n, events);
    Cluster::lemma_run_matching(n, events);
    Cluster::lemma_tidy_is_genuine(n, events);
    Cluster::lemma_run_entries(n, events);
    let a = c.peers[p];
    let b = c.peers[q];
    let hp = Holder::Peer(p);
    let hq = Holder::Peer(q);
    let f = c.knowledge(hp);
    let g = c.knowledge(hq);
    assert(c.is_holder(hp) && c.is_holder(hq));
    assert(agree(f, g));
    assert forall|i: int, j: int|
        j <= i && a.has_entry(i) && b.has_entry(i) && a.entry_at(i).term == b.entry_at(i).term
            && a.has_entry(j) && b.has_entry(j) implies a.entry_at(j) == b.entry_at(j) by {
        assert(f(i) == a.term_at(i) && g(i) == b.term_at(i));
        assert(f(j) == a.term_at(j) && g(j) == b.term_at(j));
        assert(f(i) is Some && f(i) == g(i) && f(j) is Some && g(j) is Some);
        assert(a.entry_at(j).term == b.entry_at(j).term);
        assert(c.entry_of(hp, j) == Some(a.entry_at(j)));
        assert(c.entry_of(hq, j) == Some(b.entry_at(j)));
        assert(c.present(j, a.entry_at(j)));
        assert(c.present(j, b.entry_at(j)));
    }
}

} // verus!
