//! A cluster of peers as a whole: why no term has two leaders, and why a
//! leader only appends.
//!
//! The cluster is a list of peers together with the messages that are
//! under way and a record of what has happened: which votes were given,
//! and which peers came to lead. Peers take steps one at a time, in any
//! order, and may crash and start again from what they stored. Messages
//! may be lost, delayed, repeated and reordered. Requests may even carry
//! anything, since any peer may be sent anything; only the answer to a
//! vote request is always what a peer really sent. Election safety holds
//! of all such runs. That a leader only appends holds of the runs in
//! which the AppendEntries requests that arrive are requests that a peer
//! sent.

use crate::proto::raftpb::{AppendEntriesArgsView, RequestVoteArgs, RequestVoteReply};
use crate::raft::laws::{
    keeps_log, lemma_leader_append_only, lemma_step_keeps_invariant, lemma_term_never_falls,
    lemma_vote_stands,
};
use crate::raft::model::{OutboundView, RaftView, Stimulus};
use crate::raft::{Actions, RepliesFrom, Role};
use vstd::prelude::*;
use vstd::set_lib::{
    lemma_int_range, lemma_len_subset, lemma_map_size_bound, lemma_set_disjoint_lens,
    set_int_range,
};

verus! {

/// The peers and the record of their votes.
pub struct Cluster {
    /// The peers, each at its index.
    pub peers: Seq<RaftView>,
    /// The vote answers sent so far: the voter, the candidate that had
    /// asked, and the answer.
    pub replies: Set<(u64, u64, RequestVoteReply)>,
    /// The AppendEntries requests sent so far, each with the peer that it
    /// is for.
    pub appends: Set<(u64, AppendEntriesArgsView)>,
    /// The snapshots sent so far: the index and the term that each ends
    /// in.
    pub offers: Set<(u64, u64)>,
    /// The votes given so far: for a voter and a term, the candidate.
    pub votes: Map<(u64, u64), u64>,
    /// The peers that came to lead so far: for a peer and a term in which
    /// it believed itself the leader, the voters that it had counted.
    pub leaders: Map<(u64, u64), Seq<u64>>,
}

/// What can happen in a cluster.
pub enum Event {
    /// The peer takes a stimulus other than a vote request or the answer
    /// to one: a request of whatever content, an answer of whatever
    /// content, a timer, a call of the service.
    Step(int, Stimulus),
    /// An AppendEntries request that a peer sent reaches the peer that it
    /// is for.
    Append(int, AppendEntriesArgsView),
    /// The peer handles a vote request of whatever content and answers.
    Vote(int, RequestVoteArgs),
    /// An answer of the voter to the candidate's vote request, sent
    /// earlier, reaches the candidate.
    Count(u64, u64, RequestVoteReply),
    /// The peer crashes and starts again from its stored record.
    Restart(int),
}

/// The AppendEntries requests among `sends`, each with the peer that it
/// is for.
pub open spec fn append_requests(sends: Seq<OutboundView>) -> Set<(u64, AppendEntriesArgsView)> {
    Set::new(
        |m: (u64, AppendEntriesArgsView)|
            exists|k: int|
                0 <= k < sends.len() && (#[trigger] sends[k] matches OutboundView::AppendEntries {
                    peer,
                    args,
                    ..
                } && peer == m.0 && args == m.1),
    )
}

/// The ends of the snapshots that go out with `sends`, when `sender` is
/// the state in which they were asked for: a peer sends the snapshot that
/// it has.
pub open spec fn snapshot_offers(sends: Seq<OutboundView>, sender: RaftView) -> Set<(u64, u64)> {
    if exists|k: int| 0 <= k < sends.len() && #[trigger] sends[k] is InstallSnapshot {
        set![(sender.last_included_index, sender.last_included_term)]
    } else {
        Set::empty()
    }
}

/// Whether `e` brings a peer an AppendEntries request that no peer sent.
pub open spec fn is_forged(e: Event) -> bool {
    e matches Event::Step(_, x) && x is AppendEntries
}

/// Whether `x` is a vote request or the answer to one.
pub open spec fn is_vote_traffic(x: Stimulus) -> bool {
    x is RequestVote || (x matches Stimulus::Reply(r) && r is RequestVote)
}

impl Cluster {
    /// A cluster of `n` peers that have just started, without stored
    /// state.
    pub open spec fn init(n: usize) -> Cluster {
        Cluster {
            peers: Seq::new(n as nat, |i: int| RaftView::fresh(n, i as usize)),
            replies: Set::empty(),
            appends: Set::empty(),
            offers: Set::empty(),
            votes: Map::empty(),
            leaders: Map::empty(),
        }
    }

    /// Whether `e` can happen.
    pub open spec fn enabled(self, e: Event) -> bool {
        match e {
            Event::Step(at, x) => 0 <= at < self.peers.len() && !is_vote_traffic(x)
                && self.peers[at].admits(x),
            Event::Append(at, a) => 0 <= at < self.peers.len() && self.appends.contains(
                (at as u64, a),
            ) && self.peers[at].admits(Stimulus::AppendEntries(a)),
            Event::Vote(at, _) => 0 <= at < self.peers.len(),
            Event::Count(voter, candidate, reply) => candidate < self.peers.len()
                && self.replies.contains((voter, candidate, reply)),
            Event::Restart(at) => 0 <= at < self.peers.len(),
        }
    }

    /// The cluster with the vote and the leadership of the peer at `at`
    /// put on record.
    pub open spec fn noted(self, at: int) -> Cluster {
        let p = self.peers[at];
        Cluster {
            votes: if p.voted_for is Some {
                self.votes.insert((at as u64, p.term), p.voted_for.unwrap())
            } else {
                self.votes
            },
            leaders: if p.role == Role::Leader {
                self.leaders.insert((at as u64, p.term), p.voters)
            } else {
                self.leaders
            },
            ..self
        }
    }

    /// The requests that the peers want sent when `e` happens.
    pub open spec fn sent(self, e: Event) -> Seq<OutboundView> {
        match e {
            Event::Step(at, x) => self.peers[at].sends(x),
            Event::Count(voter, candidate, reply) => self.peers[candidate as int].request_vote_reply_step(
                voter,
                reply,
            ).effects.sends,
            _ => Seq::empty(),
        }
    }

    /// The peer on which `e` acts.
    pub open spec fn actor(e: Event) -> int {
        match e {
            Event::Step(at, _) => at,
            Event::Append(at, _) => at,
            Event::Vote(at, _) => at,
            Event::Count(_, candidate, _) => candidate as int,
            Event::Restart(at) => at,
        }
    }

    /// The cluster after `e` happened.
    pub open spec fn next(self, e: Event) -> Cluster {
        Cluster {
            appends: self.appends + append_requests(self.sent(e)),
            offers: self.offers + snapshot_offers(
                self.sent(e),
                self.stepped(e).peers[Cluster::actor(e)],
            ),
            ..self.stepped(e)
        }
    }

    /// The peers and the record of votes and leaders after `e` happened.
    pub open spec fn stepped(self, e: Event) -> Cluster {
        match e {
            Event::Step(at, x) => Cluster {
                peers: self.peers.update(at, self.peers[at].after(x)),
                ..self
            }.noted(at),
            Event::Append(at, a) => Cluster {
                peers: self.peers.update(at, self.peers[at].append_entries_step(a).state),
                ..self
            }.noted(at),
            Event::Vote(at, args) => Cluster {
                peers: self.peers.update(at, self.peers[at].request_vote_step(args).state),
                replies: self.replies.insert(
                    (at as u64, args.cid, self.peers[at].request_vote_step(args).reply),
                ),
                ..self
            }.noted(at),
            Event::Count(voter, candidate, reply) => Cluster {
                peers: self.peers.update(
                    candidate as int,
                    self.peers[candidate as int].request_vote_reply_step(voter, reply).state,
                ),
                ..self
            }.noted(candidate as int),
            Event::Restart(at) => Cluster {
                peers: self.peers.update(
                    at,
                    RaftView::fresh(self.peers[at].npeers, self.peers[at].me).restored(
                        self.peers[at].durable(),
                    ),
                ),
                ..self
            },
        }
    }

    /// The cluster of `n` peers after `events` happened in order.
    pub open spec fn run(n: usize, events: Seq<Event>) -> Cluster
        decreases events.len(),
    {
        if events.len() == 0 {
            Cluster::init(n)
        } else {
            Cluster::run(n, events.drop_last()).next(events.last())
        }
    }

    /// Whether each of `events` can happen when its turn comes.
    pub open spec fn possible(n: usize, events: Seq<Event>) -> bool
        decreases events.len(),
    {
        events.len() > 0 ==> Cluster::possible(n, events.drop_last()) && Cluster::run(
            n,
            events.drop_last(),
        ).enabled(events.last())
    }

    // ----- what holds of every cluster that can come about -----

    /// Every peer is in order and knows its place.
    pub open spec fn peers_in_order(self, n: usize) -> bool {
        &&& self.peers.len() == n
        &&& forall|i: int|
            0 <= i < n ==> (#[trigger] self.peers[i]).wf() && self.peers[i].me == i
                && self.peers[i].npeers == n
    }

    /// Whether the record says that `voter` gave its vote in `term` to
    /// `candidate`.
    pub open spec fn voted(self, voter: u64, term: u64, candidate: u64) -> bool {
        self.votes.contains_key((voter, term)) && self.votes[(voter, term)] == candidate
    }

    /// The record holds each peer's vote of its term, and nothing of a
    /// term that the voter has not reached.
    pub open spec fn votes_on_record(self, n: usize) -> bool {
        &&& forall|i: int|
            0 <= i < n && (#[trigger] self.peers[i]).voted_for is Some ==> self.voted(
                i as u64,
                self.peers[i].term,
                self.peers[i].voted_for.unwrap(),
            )
        &&& forall|v: u64, t: u64| #[trigger]
            self.votes.contains_key((v, t)) ==> v < n && t <= self.peers[v as int].term && (t
                == self.peers[v as int].term ==> self.peers[v as int].voted_for == Some(
                self.votes[(v, t)],
            ))
    }

    /// An answer that grants a vote was given by a voter that voted so.
    pub open spec fn replies_genuine(self) -> bool {
        forall|v: u64, c: u64, r: RequestVoteReply| #[trigger]
            self.replies.contains((v, c, r)) && r.granted ==> self.voted(v, r.term, c)
    }

    /// A candidate or leader has voted for itself and has counted only
    /// votes that were given to it in its term; a leader has counted more
    /// than half of the peers and is on record.
    pub open spec fn counts_genuine(self, n: usize) -> bool {
        forall|i: int|
            0 <= i < n && (#[trigger] self.peers[i]).role != Role::Follower ==> {
                &&& self.peers[i].voted_for == Some(i as u64)
                &&& forall|k: int|
                    0 <= k < self.peers[i].voters.len() ==> self.voted(
                        #[trigger] self.peers[i].voters[k],
                        self.peers[i].term,
                        i as u64,
                    )
                &&& self.peers[i].role == Role::Leader ==> self.peers[i].voters.len() > n / 2
                    && self.leaders.contains_key((i as u64, self.peers[i].term))
            }
    }

    /// Every peer on record as a leader had the votes of more than half
    /// of the peers, each voter counted once; it has reached the term, and
    /// is no candidate in it.
    pub open spec fn leaders_elected(self, n: usize) -> bool {
        forall|p: u64, t: u64| #[trigger]
            self.leaders.contains_key((p, t)) ==> {
                &&& p < n
                &&& t <= self.peers[p as int].term
                &&& t == self.peers[p as int].term ==> self.peers[p as int].role
                    != Role::Candidate
                &&& self.leaders[(p, t)].no_duplicates()
                &&& self.leaders[(p, t)].len() > n / 2
                &&& forall|k: int|
                    0 <= k < self.leaders[(p, t)].len() ==> self.voted(
                        #[trigger] self.leaders[(p, t)][k],
                        t,
                        p,
                    )
            }
    }

    /// Every AppendEntries request was sent by a peer that is on record
    /// as the leader of the request's term, to another peer.
    pub open spec fn appends_genuine(self) -> bool {
        forall|to: u64, a: AppendEntriesArgsView| #[trigger]
            self.appends.contains((to, a)) ==> to != a.leader_id && self.leaders.contains_key(
                (a.leader_id, a.term),
            )
    }

    /// What holds of the votes and leaders of every cluster of `n` peers
    /// that can come about.
    pub open spec fn inv_votes(self, n: usize) -> bool {
        &&& self.peers_in_order(n)
        &&& self.votes_on_record(n)
        &&& self.replies_genuine()
        &&& self.counts_genuine(n)
        &&& self.leaders_elected(n)
    }

    /// What holds of every cluster of `n` peers that can come about.
    pub open spec fn inv(self, n: usize) -> bool {
        &&& self.inv_votes(n)
        &&& self.appends_genuine()
    }
}

/// What a step may do to a peer's part in elections, from `s` to `t`,
/// where `granted_by` is a voter whose vote the step may count: the peer
/// stays in order and in its place, its term does not fall, its vote
/// stands for the rest of the term, and if it is a candidate or leader
/// afterwards, it has either just become a candidate of a higher term
/// with its own vote alone, or it was one before in the same term and has
/// counted at most the one vote more; it leads only with more than half
/// of the peers counted, and a leader does not become a candidate of its
/// own term.
pub open spec fn election_step_ok(s: RaftView, t: RaftView, granted_by: Option<u64>) -> bool {
    &&& t.wf()
    &&& t.me == s.me
    &&& t.npeers == s.npeers
    &&& t.term >= s.term
    &&& (t.term == s.term && s.voted_for is Some ==> t.voted_for == s.voted_for)
    &&& (t.role != Role::Follower ==> {
        ||| {
            &&& t.term > s.term
            &&& t.role == Role::Candidate
            &&& t.voted_for == Some(t.me as u64)
            &&& t.voters == seq![t.me as u64]
        }
        ||| {
            &&& s.role != Role::Follower
            &&& t.term == s.term
            &&& (t.voters == s.voters || (granted_by matches Some(v) && t.voters
                == s.voters.push(v)))
            &&& (t.role == Role::Leader ==> (s.role == Role::Leader && t.voters == s.voters)
                || t.voters.len() > t.npeers / 2)
            &&& (s.role == Role::Leader ==> t.role == Role::Leader)
        }
    })
}

/// Every step other than vote traffic is in order for elections.
proof fn lemma_step_election_ok(s: RaftView, x: Stimulus)
    requires
        s.wf(),
        s.admits(x),
        !is_vote_traffic(x),
    ensures
        election_step_ok(s, s.after(x), None),
{
    lemma_step_keeps_invariant(s, x);
    lemma_term_never_falls(s, x);
    if s.voted_for is Some && s.after(x).term == s.term {
        lemma_vote_stands(s, x);
    }
}

/// Handling a vote request is in order for elections, and an answer that
/// grants the vote says what the voter did.
proof fn lemma_vote_election_ok(s: RaftView, a: RequestVoteArgs)
    requires
        s.wf(),
    ensures
        election_step_ok(s, s.request_vote_step(a).state, None),
        s.request_vote_step(a).reply.granted ==> s.request_vote_step(a).state.voted_for == Some(
            a.cid,
        ) && s.request_vote_step(a).reply.term == s.request_vote_step(a).state.term,
{
}

/// Counting a vote answer is in order for elections.
proof fn lemma_count_election_ok(s: RaftView, from: u64, r: RequestVoteReply)
    requires
        s.wf(),
    ensures
        election_step_ok(
            s,
            s.request_vote_reply_step(from, r).state,
            if r.granted && r.term == s.term {
                Some(from)
            } else {
                None
            },
        ),
{
    let s1 = s.observe_term(r.term);
    if s1.role == Role::Candidate && r.term == s1.term && r.granted {
        if !s1.voters.contains(from) {
            let pushed = s1.voters.push(from);
            assert forall|i: int, j: int|
                0 <= i < pushed.len() && 0 <= j < pushed.len() && i != j implies pushed[i]
                != pushed[j] by {
                if i < s1.voters.len() && j < s1.voters.len() {
                } else if i < s1.voters.len() {
                    assert(s1.voters.contains(s1.voters[i]));
                } else {
                    assert(s1.voters.contains(s1.voters[j]));
                }
            }
        }
    }
}

/// Handling an AppendEntries request is in order for elections.
proof fn lemma_append_election_ok(s: RaftView, a: AppendEntriesArgsView)
    requires
        s.wf(),
        s.admits(Stimulus::AppendEntries(a)),
    ensures
        election_step_ok(s, s.append_entries_step(a).state, None),
{
    let x = Stimulus::AppendEntries(a);
    lemma_step_keeps_invariant(s, x);
    lemma_term_never_falls(s, x);
    if s.voted_for is Some && s.after(x).term == s.term {
        lemma_vote_stands(s, x);
    }
}

/// The requests of a heartbeat round come from the leader, in its term,
/// and go to other peers.
proof fn lemma_heartbeat_sends(s: RaftView, upto: int, k: int)
    requires
        0 <= k < s.heartbeat_sends(upto).len(),
        upto <= usize::MAX,
    ensures
        s.heartbeat_sends(upto)[k] matches OutboundView::AppendEntries { peer, args, .. } ==> peer
            != s.me as u64 && 0 <= peer < upto && args.term == s.term && args.leader_id
            == s.me as u64,
    decreases upto,
{
    if upto > 0 {
        if upto - 1 == s.me {
            lemma_heartbeat_sends(s, upto - 1, k);
        } else if k < s.heartbeat_sends(upto - 1).len() {
            lemma_heartbeat_sends(s, upto - 1, k);
        }
    }
}

/// The vote requests of an election are no AppendEntries requests.
proof fn lemma_vote_requests(s: RaftView, upto: int, k: int)
    requires
        0 <= k < s.vote_requests(upto).len(),
    ensures
        s.vote_requests(upto)[k] is RequestVote,
    decreases upto,
{
    if upto > 0 {
        if upto - 1 == s.me {
            lemma_vote_requests(s, upto - 1, k);
        } else if k < s.vote_requests(upto - 1).len() {
            lemma_vote_requests(s, upto - 1, k);
        }
    }
}

/// Whenever a step wants an AppendEntries request sent, the peer leads
/// after the step, and the request carries its term and its name and goes
/// to another peer.
proof fn lemma_sends_are_the_leaders(s: RaftView, x: Stimulus, k: int)
    requires
        s.wf(),
        s.me < s.npeers,
        0 <= k < s.sends(x).len(),
    ensures
        s.sends(x)[k] matches OutboundView::AppendEntries { peer, args, .. } ==> s.after(x).role
            == Role::Leader && args.term == s.after(x).term && args.leader_id == s.me as u64
            && peer != s.me as u64,
{
    match x {
        Stimulus::Action(action) => {
            if action == Actions::SendHeartbeat {
                lemma_heartbeat_sends(s, s.npeers as int, k);
            } else if s.role != Role::Leader {
                let c = s.as_candidate();
                lemma_vote_requests(c, c.npeers as int, k);
            }
        },
        Stimulus::Reply(reply_from) => {
            match reply_from {
                RepliesFrom::RequestVote(from, r) => {
                    let t = s.after(x);
                    if t.role == Role::Leader && s.sends(x).len() > 0 {
                        lemma_heartbeat_sends(t, t.npeers as int, k);
                    }
                },
                _ => {},
            }
        },
        _ => {},
    }
}

impl Cluster {
    /// A step of one peer that is in order for elections keeps what holds
    /// of the cluster, and takes nothing off the record.
    proof fn lemma_peer_step(self, n: usize, at: int, t: RaftView, granted_by: Option<u64>)
        requires
            self.inv_votes(n),
            0 <= at < n,
            election_step_ok(self.peers[at], t, granted_by),
            granted_by matches Some(v) ==> self.voted(v, self.peers[at].term, at as u64),
        ensures
            ({
                let c = Cluster { peers: self.peers.update(at, t), ..self }.noted(at);
                &&& c.inv_votes(n)
                &&& c.replies == self.replies
                &&& c.appends == self.appends
                &&& c.offers == self.offers
                &&& forall|v: u64, term: u64, cand: u64|
                    self.voted(v, term, cand) ==> c.voted(v, term, cand)
                &&& forall|p: u64, term: u64| #[trigger]
                    self.leaders.contains_key((p, term)) ==> c.leaders.contains_key((p, term))
                &&& t.voted_for is Some ==> c.voted(at as u64, t.term, t.voted_for.unwrap())
                &&& t.role == Role::Leader ==> c.leaders.contains_key((at as u64, t.term))
            }),
    {
        let s = self.peers[at];
        let c = Cluster { peers: self.peers.update(at, t), ..self }.noted(at);
        assert(s.wf() && s.me == at && s.npeers == n);
        // nothing on record changes
        assert forall|v: u64, term: u64, cand: u64| self.voted(v, term, cand) implies c.voted(
            v,
            term,
            cand,
        ) by {
            if t.voted_for is Some && v == at as u64 && term == t.term {
                assert(self.votes.contains_key((v, term)));
                assert(term <= self.peers[v as int].term);
            }
        }
        assert(c.peers_in_order(n)) by {
            assert forall|i: int| 0 <= i < n implies (#[trigger] c.peers[i]).wf() && c.peers[i].me
                == i && c.peers[i].npeers == n by {
                if i != at {
                    assert(c.peers[i] == self.peers[i]);
                }
            }
        }
        assert(c.votes_on_record(n)) by {
            assert forall|i: int| 0 <= i < n && (#[trigger] c.peers[i]).voted_for is Some implies c.voted(
                i as u64,
                c.peers[i].term,
                c.peers[i].voted_for.unwrap(),
            ) by {
                if i != at {
                    assert(c.peers[i] == self.peers[i]);
                    assert(self.voted(
                        i as u64,
                        self.peers[i].term,
                        self.peers[i].voted_for.unwrap(),
                    ));
                }
            }
            assert forall|v: u64, term: u64| #[trigger]
                c.votes.contains_key((v, term)) implies v < n && term <= c.peers[v as int].term && (
            term == c.peers[v as int].term ==> c.peers[v as int].voted_for == Some(
                c.votes[(v, term)],
            )) by {
                if self.votes.contains_key((v, term)) {
                    assert(self.voted(v, term, self.votes[(v, term)]));
                    assert(c.voted(v, term, self.votes[(v, term)]));
                    if v as int != at {
                        assert(c.peers[v as int] == self.peers[v as int]);
                    }
                } else {
                    assert(v == at as u64 && term == t.term);
                }
            }
        }
        assert(c.replies_genuine()) by {
            assert forall|v: u64, cand: u64, r: RequestVoteReply| #[trigger]
                c.replies.contains((v, cand, r)) && r.granted implies c.voted(v, r.term, cand) by {
                assert(self.replies.contains((v, cand, r)));
                assert(self.voted(v, r.term, cand));
            }
        }
        assert(c.counts_genuine(n)) by {
            assert forall|i: int| 0 <= i < n && (#[trigger] c.peers[i]).role != Role::Follower implies {
                &&& c.peers[i].voted_for == Some(i as u64)
                &&& forall|k: int|
                    0 <= k < c.peers[i].voters.len() ==> c.voted(
                        #[trigger] c.peers[i].voters[k],
                        c.peers[i].term,
                        i as u64,
                    )
                &&& c.peers[i].role == Role::Leader ==> c.peers[i].voters.len() > n / 2
                    && c.leaders.contains_key((i as u64, c.peers[i].term))
            } by {
                if i != at {
                    assert(c.peers[i] == self.peers[i]);
                    assert forall|k: int| 0 <= k < c.peers[i].voters.len() implies c.voted(
                        #[trigger] c.peers[i].voters[k],
                        c.peers[i].term,
                        i as u64,
                    ) by {
                        assert(self.voted(self.peers[i].voters[k], self.peers[i].term, i as u64));
                    }
                } else {
                    assert(c.peers[i] == t);
                    if t.term > s.term {
                        assert(t.voters =~= seq![t.me as u64]);
                    } else {
                        assert(s.role != Role::Follower);
                        assert(s.voted_for == Some(at as u64));
                        assert forall|k: int| 0 <= k < t.voters.len() implies c.voted(
                            #[trigger] t.voters[k],
                            t.term,
                            at as u64,
                        ) by {
                            if k < s.voters.len() {
                                assert(self.voted(s.voters[k], s.term, at as u64));
                            }
                        }
                    }
                }
            }
        }
        assert(c.leaders_elected(n)) by {
            assert forall|p: u64, term: u64| #[trigger]
                c.leaders.contains_key((p, term)) implies {
                &&& p < n
                &&& term <= c.peers[p as int].term
                &&& term == c.peers[p as int].term ==> c.peers[p as int].role != Role::Candidate
                &&& c.leaders[(p, term)].no_duplicates()
                &&& c.leaders[(p, term)].len() > n / 2
                &&& forall|k: int|
                    0 <= k < c.leaders[(p, term)].len() ==> c.voted(
                        #[trigger] c.leaders[(p, term)][k],
                        term,
                        p,
                    )
            } by {
                if t.role == Role::Leader && p == at as u64 && term == t.term {
                    assert(c.leaders[(p, term)] == t.voters);
                    assert(c.peers[at] == t);
                } else {
                    assert(self.leaders.contains_key((p, term)));
                    assert(c.leaders[(p, term)] == self.leaders[(p, term)]);
                    if p as int != at {
                        assert(c.peers[p as int] == self.peers[p as int]);
                    } else {
                        assert(c.peers[p as int] == t);
                    }
                    assert forall|k: int| 0 <= k < c.leaders[(p, term)].len() implies c.voted(
                        #[trigger] c.leaders[(p, term)][k],
                        term,
                        p,
                    ) by {
                        assert(self.voted(self.leaders[(p, term)][k], term, p));
                    }
                }
            }
        }
    }

    /// Whatever happens keeps what holds of the votes and leaders, and
    /// takes no leader off the record.
    pub proof fn lemma_stepped_keeps_inv(self, n: usize, e: Event)
        requires
            self.inv_votes(n),
            self.enabled(e),
        ensures
            self.stepped(e).inv_votes(n),
            self.stepped(e).appends == self.appends,
            self.stepped(e).offers == self.offers,
            forall|p: u64, term: u64| #[trigger]
                self.leaders.contains_key((p, term)) ==> self.stepped(e).leaders.contains_key(
                    (p, term),
                ),
            forall|i: int|
                0 <= i < n && (#[trigger] self.stepped(e).peers[i]).role == Role::Leader
                    ==> self.stepped(e).leaders.contains_key(
                    (i as u64, self.stepped(e).peers[i].term),
                ),
    {
        match e {
            Event::Step(at, x) => {
                lemma_step_election_ok(self.peers[at], x);
                self.lemma_peer_step(n, at, self.peers[at].after(x), None);
            },
            Event::Append(at, a) => {
                lemma_append_election_ok(self.peers[at], a);
                self.lemma_peer_step(n, at, self.peers[at].append_entries_step(a).state, None);
            },
            Event::Vote(at, args) => {
                let out = self.peers[at].request_vote_step(args);
                lemma_vote_election_ok(self.peers[at], args);
                self.lemma_peer_step(n, at, out.state, None);
                let mid = Cluster { peers: self.peers.update(at, out.state), ..self }.noted(at);
                let c = self.stepped(e);
                assert(c.peers == mid.peers && c.votes == mid.votes && c.leaders == mid.leaders);
                assert(c.replies == mid.replies.insert((at as u64, args.cid, out.reply)));
                assert(c.peers_in_order(n));
                assert(c.votes_on_record(n));
                assert(c.counts_genuine(n));
                assert(c.leaders_elected(n));
                assert(c.replies_genuine()) by {
                    assert forall|v: u64, cand: u64, r: RequestVoteReply| #[trigger]
                        c.replies.contains((v, cand, r)) && r.granted implies c.voted(
                        v,
                        r.term,
                        cand,
                    ) by {
                        if mid.replies.contains((v, cand, r)) {
                            assert(mid.voted(v, r.term, cand));
                        }
                    }
                }
            },
            Event::Count(voter, candidate, reply) => {
                let s = self.peers[candidate as int];
                lemma_count_election_ok(s, voter, reply);
                if reply.granted && reply.term == s.term {
                    assert(self.voted(voter, reply.term, candidate));
                }
                self.lemma_peer_step(
                    n,
                    candidate as int,
                    s.request_vote_reply_step(voter, reply).state,
                    if reply.granted && reply.term == s.term {
                        Some(voter)
                    } else {
                        None
                    },
                );
            },
            Event::Restart(at) => {
                let s = self.peers[at];
                let t = RaftView::fresh(s.npeers, s.me).restored(s.durable());
                let c = self.stepped(e);
                assert(t.wf());
                assert(c.peers_in_order(n)) by {
                    assert forall|i: int| 0 <= i < n implies (#[trigger] c.peers[i]).wf()
                        && c.peers[i].me == i && c.peers[i].npeers == n by {
                        if i != at {
                            assert(c.peers[i] == self.peers[i]);
                        }
                    }
                }
                assert(c.votes_on_record(n)) by {
                    assert forall|i: int|
                        0 <= i < n && (#[trigger] c.peers[i]).voted_for is Some implies c.voted(
                        i as u64,
                        c.peers[i].term,
                        c.peers[i].voted_for.unwrap(),
                    ) by {
                        assert(self.peers[i].voted_for is Some);
                    }
                    assert forall|v: u64, term: u64| #[trigger]
                        c.votes.contains_key((v, term)) implies v < n && term
                        <= c.peers[v as int].term && (term == c.peers[v as int].term
                        ==> c.peers[v as int].voted_for == Some(c.votes[(v, term)])) by {
                        assert(self.votes.contains_key((v, term)));
                    }
                }
                assert(c.counts_genuine(n)) by {
                    assert forall|i: int|
                        0 <= i < n && (#[trigger] c.peers[i]).role != Role::Follower implies {
                        &&& c.peers[i].voted_for == Some(i as u64)
                        &&& forall|k: int|
                            0 <= k < c.peers[i].voters.len() ==> c.voted(
                                #[trigger] c.peers[i].voters[k],
                                c.peers[i].term,
                                i as u64,
                            )
                        &&& c.peers[i].role == Role::Leader ==> c.peers[i].voters.len() > n / 2
                            && c.leaders.contains_key((i as u64, c.peers[i].term))
                    } by {
                        assert(i != at);
                        assert(c.peers[i] == self.peers[i]);
                    }
                }
            },
        }
    }

    /// Whatever happens keeps what holds of the cluster, and takes no
    /// leader off the record.
    pub proof fn lemma_next_keeps_inv(self, n: usize, e: Event)
        requires
            self.inv(n),
            self.enabled(e),
        ensures
            self.next(e).inv(n),
            forall|p: u64, term: u64| #[trigger]
                self.leaders.contains_key((p, term)) ==> self.next(e).leaders.contains_key(
                    (p, term),
                ),
    {
        self.lemma_stepped_keeps_inv(n, e);
        let c = self.next(e);
        let d = self.stepped(e);
        assert(c.peers == d.peers && c.votes == d.votes && c.leaders == d.leaders && c.replies
            == d.replies);
        assert(c.peers_in_order(n));
        assert(c.votes_on_record(n));
        assert(c.replies_genuine());
        assert(c.counts_genuine(n));
        assert(c.leaders_elected(n));
        assert forall|to: u64, a: AppendEntriesArgsView| #[trigger]
            c.appends.contains((to, a)) implies to != a.leader_id && c.leaders.contains_key(
            (a.leader_id, a.term),
        ) by {
            if self.appends.contains((to, a)) {
            } else {
                let sends = self.sent(e);
                assert(append_requests(sends).contains((to, a)));
                let k = choose|k: int|
                    0 <= k < sends.len() && (#[trigger] sends[k] matches OutboundView::AppendEntries {
                        peer,
                        args,
                        ..
                    } && peer == to && args == a);
                match e {
                    Event::Step(at, x) => {
                        lemma_sends_are_the_leaders(self.peers[at], x, k);
                        assert(d.peers[at] == self.peers[at].after(x));
                    },
                    Event::Count(voter, candidate, reply) => {
                        let x = Stimulus::Reply(RepliesFrom::RequestVote(voter, reply));
                        lemma_sends_are_the_leaders(self.peers[candidate as int], x, k);
                        assert(d.peers[candidate as int] == self.peers[candidate as int].after(x));
                    },
                    _ => {},
                }
            }
        }
    }

    /// What holds of every cluster holds at the start.
    pub proof fn lemma_init_inv(n: usize)
        ensures
            Cluster::init(n).inv(n),
    {
        let c = Cluster::init(n);
        assert forall|i: int| 0 <= i < n implies (#[trigger] c.peers[i]).wf() && c.peers[i].me == i
            && c.peers[i].npeers == n by {
            assert(c.peers[i] == RaftView::fresh(n, i as usize));
        }
    }

    /// What holds of every cluster holds after any events that can
    /// happen.
    pub proof fn lemma_run_inv(n: usize, events: Seq<Event>)
        requires
            Cluster::possible(n, events),
        ensures
            Cluster::run(n, events).inv(n),
        decreases events.len(),
    {
        if events.len() == 0 {
            Cluster::lemma_init_inv(n);
        } else {
            Cluster::lemma_run_inv(n, events.drop_last());
            Cluster::run(n, events.drop_last()).lemma_next_keeps_inv(n, events.last());
        }
    }

    /// A peer that believed itself the leader at some moment of a run is
    /// on record as a leader of that term ever after.
    pub proof fn lemma_leaders_stay_on_record(n: usize, events: Seq<Event>, moment: int, p: int)
        requires
            Cluster::possible(n, events),
            0 <= moment <= events.len(),
            0 <= p < n,
            Cluster::run(n, events.take(moment)).peers[p].role == Role::Leader,
        ensures
            Cluster::run(n, events).leaders.contains_key(
                (p as u64, Cluster::run(n, events.take(moment)).peers[p].term),
            ),
        decreases events.len() - moment,
    {
        if moment == events.len() {
            assert(events.take(moment) =~= events);
            Cluster::lemma_run_inv(n, events);
        } else {
            let fewer = events.drop_last();
            assert(fewer.take(moment) =~= events.take(moment));
            Cluster::lemma_leaders_stay_on_record(n, fewer, moment, p);
            Cluster::lemma_run_inv(n, fewer);
            Cluster::run(n, fewer).lemma_next_keeps_inv(n, events.last());
        }
    }
}

/// Two groups of voters, each more than half of the `n` peers and each
/// voter counted once, have a voter in common.
pub proof fn lemma_majorities_meet(a: Seq<u64>, b: Seq<u64>, n: usize)
    requires
        a.no_duplicates(),
        b.no_duplicates(),
        forall|k: int| 0 <= k < a.len() ==> #[trigger] a[k] < n,
        forall|k: int| 0 <= k < b.len() ==> #[trigger] b[k] < n,
        a.len() > n / 2,
        b.len() > n / 2,
    ensures
        exists|i: int, j: int| 0 <= i < a.len() && 0 <= j < b.len() && a[i] == b[j],
{
    let sa = a.to_set();
    let sb = b.to_set();
    a.unique_seq_to_set();
    b.unique_seq_to_set();
    let range = set_int_range(0, n as int);
    let all = range.map(|i: int| i as u64);
    lemma_int_range(0, n as int);
    lemma_map_size_bound(range, all, |i: int| i as u64);
    assert((sa + sb).subset_of(all)) by {
        assert forall|x: u64| (sa + sb).contains(x) implies all.contains(x) by {
            assert(x < n);
            assert(range.contains(x as int));
            assert((x as int) as u64 == x);
        }
    }
    lemma_len_subset(sa + sb, all);
    if sa.disjoint(sb) {
        lemma_set_disjoint_lens(sa, sb);
        assert(false);
    }
    let x = choose|x: u64| sa.contains(x) && sb.contains(x);
    assert(sa.contains(x) && sb.contains(x));
    let i = choose|i: int| 0 <= i < a.len() && a[i] == x;
    let j = choose|j: int| 0 <= j < b.len() && b[j] == x;
    assert(0 <= i < a.len() && 0 <= j < b.len() && a[i] == b[j]);
}

impl Cluster {
    /// Where the votes are in order, no term has two leaders on record.
    pub proof fn lemma_one_leader(self, n: usize, p: u64, q: u64, term: u64)
        requires
            self.inv_votes(n),
            self.leaders.contains_key((p, term)),
            self.leaders.contains_key((q, term)),
        ensures
            p == q,
    {
        let a = self.leaders[(p, term)];
        let b = self.leaders[(q, term)];
        assert forall|k: int| 0 <= k < a.len() implies #[trigger] a[k] < n by {
            assert(self.voted(a[k], term, p));
            assert(self.votes.contains_key((a[k], term)));
        }
        assert forall|k: int| 0 <= k < b.len() implies #[trigger] b[k] < n by {
            assert(self.voted(b[k], term, q));
            assert(self.votes.contains_key((b[k], term)));
        }
        lemma_majorities_meet(a, b, n);
        let (i, j) = choose|i: int, j: int| 0 <= i < a.len() && 0 <= j < b.len() && a[i] == b[j];
        assert(self.voted(a[i], term, p));
        assert(self.voted(b[j], term, q));
    }

    /// What a run is made of: its beginnings are runs, and each event
    /// happens to the cluster that the events before it left.
    pub proof fn lemma_prefix(n: usize, events: Seq<Event>, moment: int)
        requires
            Cluster::possible(n, events),
            0 <= moment <= events.len(),
        ensures
            Cluster::possible(n, events.take(moment)),
            Cluster::run(n, events.take(moment)).inv(n),
            moment < events.len() ==> Cluster::run(n, events.take(moment)).enabled(events[moment])
                && Cluster::run(n, events.take(moment + 1)) == Cluster::run(
                n,
                events.take(moment),
            ).next(events[moment]),
        decreases events.len() - moment,
    {
        if moment == events.len() {
            assert(events.take(moment) =~= events);
        } else {
            let fewer = events.drop_last();
            if moment == events.len() - 1 {
                assert(events.take(moment) =~= fewer);
                assert(events.take(moment + 1) =~= events);
            } else {
                Cluster::lemma_prefix(n, fewer, moment);
                assert(fewer.take(moment) =~= events.take(moment));
                assert(fewer.take(moment + 1) =~= events.take(moment + 1));
            }
        }
        Cluster::lemma_run_inv(n, events.take(moment));
    }
}

/// No term has two leaders on record.
pub proof fn lemma_one_leader_on_record(n: usize, events: Seq<Event>, p: u64, q: u64, term: u64)
    requires
        Cluster::possible(n, events),
        Cluster::run(n, events).leaders.contains_key((p, term)),
        Cluster::run(n, events).leaders.contains_key((q, term)),
    ensures
        p == q,
{
    Cluster::lemma_run_inv(n, events);
    Cluster::run(n, events).lemma_one_leader(n, p, q, term);
}

/// Election safety: in a cluster that starts afresh, whatever happens and
/// in whatever order, with requests of whatever content, no two peers ever
/// believe themselves the leader of one term. If peer `p` leads at one
/// moment of a run and peer `q` at another, in the same term, they are the
/// same peer.
pub proof fn theorem_election_safety(
    n: usize,
    events: Seq<Event>,
    moment_p: int,
    p: int,
    moment_q: int,
    q: int,
)
    requires
        Cluster::possible(n, events),
        0 <= moment_p <= events.len(),
        0 <= moment_q <= events.len(),
        0 <= p < n,
        0 <= q < n,
        Cluster::run(n, events.take(moment_p)).peers[p].role == Role::Leader,
        Cluster::run(n, events.take(moment_q)).peers[q].role == Role::Leader,
        Cluster::run(n, events.take(moment_p)).peers[p].term == Cluster::run(
            n,
            events.take(moment_q),
        ).peers[q].term,
    ensures
        p == q,
{
    let term = Cluster::run(n, events.take(moment_p)).peers[p].term;
    Cluster::lemma_leaders_stay_on_record(n, events, moment_p, p);
    Cluster::lemma_leaders_stay_on_record(n, events, moment_q, q);
    lemma_one_leader_on_record(n, events, p as u64, q as u64, term);
}

impl Cluster {
    /// No event that brings only genuine AppendEntries requests makes a
    /// peer that leads, and goes on to lead in the same term, lose or
    /// change an entry of its log.
    pub proof fn lemma_leader_step_keeps_log(self, n: usize, e: Event, p: int)
        requires
            self.inv(n),
            self.enabled(e),
            !is_forged(e),
            0 <= p < n,
            self.peers[p].role == Role::Leader,
            self.next(e).peers[p].role == Role::Leader,
            self.next(e).peers[p].term == self.peers[p].term,
        ensures
            keeps_log(self.peers[p], self.next(e).peers[p]),
    {
        let s = self.peers[p];
        assert(self.next(e).peers == self.stepped(e).peers);
        assert(s.wf());
        match e {
            Event::Step(at, x) => {
                if at == p {
                    lemma_leader_append_only(s, x);
                }
            },
            Event::Append(at, a) => {
                if at == p {
                    if a.term == s.term {
                        assert(self.appends.contains((p as u64, a)));
                        assert(self.leaders.contains_key((a.leader_id, a.term)));
                        assert(self.leaders.contains_key((p as u64, s.term)));
                        self.lemma_one_leader(n, a.leader_id, p as u64, a.term);
                        assert(false);
                    }
                    lemma_leader_append_only(s, Stimulus::AppendEntries(a));
                }
            },
            Event::Vote(at, args) => {
                if at == p {
                    lemma_leader_append_only(s, Stimulus::RequestVote(args));
                }
            },
            Event::Count(voter, candidate, reply) => {
                if candidate == p {
                    lemma_leader_append_only(
                        s,
                        Stimulus::Reply(RepliesFrom::RequestVote(voter, reply)),
                    );
                }
            },
            Event::Restart(at) => {},
        }
    }
}

/// Leader append-only, step by step: in a cluster that starts afresh and
/// in which AppendEntries requests reach a peer only if a peer sent them,
/// no event makes a peer that leads, and goes on to lead in the same
/// term, lose or change an entry of its log; a snapshot may take the
/// place of a prefix.
pub proof fn theorem_leader_append_only(n: usize, events: Seq<Event>, moment: int, p: int)
    requires
        Cluster::possible(n, events),
        forall|k: int| 0 <= k < events.len() ==> !is_forged(#[trigger] events[k]),
        0 <= moment < events.len(),
        0 <= p < n,
        Cluster::run(n, events.take(moment)).peers[p].role == Role::Leader,
        Cluster::run(n, events.take(moment + 1)).peers[p].role == Role::Leader,
        Cluster::run(n, events.take(moment)).peers[p].term == Cluster::run(
            n,
            events.take(moment + 1),
        ).peers[p].term,
    ensures
        keeps_log(
            Cluster::run(n, events.take(moment)).peers[p],
            Cluster::run(n, events.take(moment + 1)).peers[p],
        ),
{
    Cluster::lemma_prefix(n, events, moment);
    Cluster::run(n, events.take(moment)).lemma_leader_step_keeps_log(n, events[moment], p);
}

impl Cluster {
    /// What an event may do to the standing of any one peer: its term
    /// does not fall, a follower does not come to lead within its term,
    /// and a candidate or leader was one before unless its term is new.
    pub proof fn lemma_event_moves_peer(self, n: usize, e: Event, p: int)
        requires
            self.inv(n),
            self.enabled(e),
            0 <= p < n,
        ensures
            self.next(e).peers[p].term >= self.peers[p].term,
            self.next(e).peers[p].term == self.peers[p].term && self.next(e).peers[p].role
                == Role::Leader ==> self.peers[p].role != Role::Follower,
            self.next(e).peers[p].role != Role::Follower ==> self.next(e).peers[p].term
                > self.peers[p].term || (self.peers[p].role != Role::Follower && self.next(
                e,
            ).peers[p].term == self.peers[p].term),
    {
        assert(self.next(e).peers == self.stepped(e).peers);
        assert(self.peers[p].wf());
        match e {
            Event::Step(at, x) => {
                lemma_step_election_ok(self.peers[at], x);
            },
            Event::Append(at, a) => {
                lemma_append_election_ok(self.peers[at], a);
            },
            Event::Vote(at, args) => {
                lemma_vote_election_ok(self.peers[at], args);
            },
            Event::Count(voter, candidate, reply) => {
                lemma_count_election_ok(self.peers[candidate as int], voter, reply);
            },
            Event::Restart(at) => {},
        }
    }

    /// Along a run, the term of a peer never falls.
    pub proof fn lemma_terms_grow(n: usize, events: Seq<Event>, earlier: int, later: int, p: int)
        requires
            Cluster::possible(n, events),
            0 <= earlier <= later <= events.len(),
            0 <= p < n,
        ensures
            Cluster::run(n, events.take(earlier)).peers[p].term <= Cluster::run(
                n,
                events.take(later),
            ).peers[p].term,
        decreases later - earlier,
    {
        if earlier < later {
            Cluster::lemma_terms_grow(n, events, earlier, later - 1, p);
            Cluster::lemma_prefix(n, events, later - 1);
            Cluster::run(n, events.take(later - 1)).lemma_event_moves_peer(
                n,
                events[later - 1],
                p,
            );
        }
    }
}

/// Keeping the log carries over from step to step.
proof fn lemma_keeps_log_chain(a: RaftView, b: RaftView, c: RaftView)
    requires
        keeps_log(a, b),
        keeps_log(b, c),
    ensures
        keeps_log(a, c),
{
    assert forall|i: int| a.has_entry(i) && i > c.last_included_index implies c.has_entry(i)
        && c.entry_at(i) == a.entry_at(i) by {
        assert(b.has_entry(i) && b.entry_at(i) == a.entry_at(i));
    }
}

impl Cluster {
    /// A peer that leads in one term before an event and after it, and
    /// was on record as the leader of that term before the event, led
    /// before the event.
    proof fn lemma_led_before(self, n: usize, e: Event, p: int)
        requires
            self.inv(n),
            self.enabled(e),
            0 <= p < n,
            self.next(e).peers[p].role == Role::Leader,
            self.next(e).peers[p].term == self.peers[p].term,
            self.leaders.contains_key((p as u64, self.peers[p].term)),
        ensures
            self.peers[p].role == Role::Leader,
    {
        self.lemma_event_moves_peer(n, e, p);
    }
}

/// Leader append-only: in a cluster that starts afresh and in which
/// AppendEntries requests reach a peer only if a peer sent them, a peer
/// that leads at two moments in the same term still holds at the later
/// one every entry that its log held at the earlier one, unchanged and at
/// its index; a snapshot may have taken the place of a prefix.
pub proof fn theorem_leader_keeps_its_log(
    n: usize,
    events: Seq<Event>,
    earlier: int,
    later: int,
    p: int,
)
    requires
        Cluster::possible(n, events),
        forall|k: int| 0 <= k < events.len() ==> !is_forged(#[trigger] events[k]),
        0 <= earlier <= later <= events.len(),
        0 <= p < n,
        Cluster::run(n, events.take(earlier)).peers[p].role == Role::Leader,
        Cluster::run(n, events.take(later)).peers[p].role == Role::Leader,
        Cluster::run(n, events.take(earlier)).peers[p].term == Cluster::run(
            n,
            events.take(later),
        ).peers[p].term,
    ensures
        keeps_log(
            Cluster::run(n, events.take(earlier)).peers[p],
            Cluster::run(n, events.take(later)).peers[p],
        ),
    decreases later - earlier,
{
    let first = Cluster::run(n, events.take(earlier)).peers[p];
    let last = Cluster::run(n, events.take(later)).peers[p];
    if earlier < later {
        let mid = later - 1;
        let before = Cluster::run(n, events.take(mid));
        Cluster::lemma_terms_grow(n, events, earlier, mid, p);
        Cluster::lemma_terms_grow(n, events, mid, later, p);
        Cluster::lemma_prefix(n, events, mid);
        assert(before.peers[p].term == first.term);
        // the peer is on record as the leader of the term, so it still leads
        assert(events.take(mid).take(earlier) =~= events.take(earlier));
        Cluster::lemma_leaders_stay_on_record(n, events.take(mid), earlier, p);
        before.lemma_led_before(n, events[mid], p);
        theorem_leader_keeps_its_log(n, events, earlier, mid, p);
        theorem_leader_append_only(n, events, mid, p);
        lemma_keeps_log_chain(first, before.peers[p], last);
    }
}

} // verus!
