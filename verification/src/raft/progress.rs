//! Why an election can succeed: a peer whose election timer runs out
//! comes to lead, if its request and the answers get through between it
//! and enough peers that have not moved past it.

use crate::proto::raftpb::RequestVoteArgs;
use crate::raft::cluster::{Cluster, Event};
use crate::raft::model::{RaftView, Stimulus};
use crate::raft::{Actions, Role};
use vstd::prelude::*;

verus! {

impl Cluster {
    /// The cluster after each of `voters` in turn has handled the vote
    /// request `req` of peer `p` and `p` has counted the answer.
    pub open spec fn canvassed(self, p: int, req: RequestVoteArgs, voters: Seq<int>) -> Cluster
        decreases voters.len(),
    {
        if voters.len() == 0 {
            self
        } else {
            let before = self.canvassed(p, req, voters.drop_last());
            let v = voters.last();
            let reply = before.peers[v].request_vote_step(req).reply;
            before.next(Event::Vote(v, req)).next(Event::Count(v as u64, p as u64, reply))
        }
    }

    /// Whether the peer `v` stands ready to vote for `p` when `p` next asks:
    /// it is another peer, it has not passed `p`'s term, and its log is no
    /// more up to date than `p`'s.
    pub open spec fn would_vote_for(self, v: int, p: int) -> bool {
        &&& 0 <= v < self.peers.len()
        &&& v != p
        &&& self.peers[v].term <= self.peers[p].term
        &&& self.peers[v].up_to_date(
            self.peers[p].last_log_term(),
            self.peers[p].last_log_index() as u64,
        )
    }

    /// What canvassing achieves voter by voter: the candidate stays in its
    /// term and counts each voter, until it leads; the peers that have not
    /// been asked stay as they were.
    proof fn lemma_canvass(self, n: usize, p: int, req: RequestVoteArgs, voters: Seq<int>)
        requires
            self.inv(n),
            0 <= p < n,
            self.peers[p].role == Role::Candidate,
            self.peers[p].voters =~= seq![p as u64],
            req == self.peers[p].vote_request(),
            voters.no_duplicates(),
            forall|k: int|
                0 <= k < voters.len() ==> 0 <= #[trigger] voters[k] < n && voters[k] != p
                    && self.peers[voters[k]].term < req.term && self.peers[voters[k]].up_to_date(
                    req.last_log_term,
                    req.last_log_index,
                ),
        ensures
            ({
                let d = self.canvassed(p, req, voters);
                &&& d.inv(n)
                &&& d.peers[p].term == req.term
                &&& d.peers[p].role != Role::Follower
                &&& d.peers[p].role == Role::Candidate ==> {
                    &&& d.peers[p].voters.len() == voters.len() + 1
                    &&& voters.len() >= 1 ==> d.peers[p].voters.len() <= n / 2
                    &&& forall|k: int|
                        0 <= k < voters.len() ==> d.peers[p].voters.contains(
                            #[trigger] voters[k] as u64,
                        )
                    &&& forall|u: u64| #[trigger]
                        d.peers[p].voters.contains(u) ==> u == p as u64 || exists|k: int|
                            0 <= k < voters.len() && voters[k] == u
                }
                &&& forall|v: int|
                    0 <= v < n && v != p && !voters.contains(v) ==> d.peers[v] == self.peers[v]
            }),
        decreases voters.len(),
    {
        if voters.len() == 0 {
            assert(self.peers[p].wf());
            assert(self.peers[p].voters.len() == 1);
            assert(self.peers[p].voters[0] == p as u64);
            assert forall|u: u64| #[trigger] self.peers[p].voters.contains(u) implies u
                == p as u64 by {
                let k = choose|k: int| 0 <= k < self.peers[p].voters.len() && self.peers[p].voters[k]
                    == u;
            }
        } else {
            let fewer = voters.drop_last();
            let v = voters.last();
            assert forall|k: int| 0 <= k < fewer.len() implies 0 <= #[trigger] fewer[k] < n
                && fewer[k] != p && self.peers[fewer[k]].term < req.term
                && self.peers[fewer[k]].up_to_date(req.last_log_term, req.last_log_index) by {
                assert(fewer[k] == voters[k]);
            }
            assert(fewer.no_duplicates()) by {
                assert forall|i: int, j: int|
                    0 <= i < fewer.len() && 0 <= j < fewer.len() && i != j implies fewer[i]
                    != fewer[j] by {
                    assert(fewer[i] == voters[i] && fewer[j] == voters[j]);
                }
            }
            self.lemma_canvass(n, p, req, fewer);
            let c1 = self.canvassed(p, req, fewer);
            assert(voters[voters.len() - 1] == v);
            assert(!fewer.contains(v)) by {
                if fewer.contains(v) {
                    let k = choose|k: int| 0 <= k < fewer.len() && fewer[k] == v;
                    assert(voters[k] == v);
                }
            }
            assert(c1.peers[v] == self.peers[v]);
            let out = c1.peers[v].request_vote_step(req);
            let e1 = Event::Vote(v, req);
            c1.lemma_next_keeps_inv(n, e1);
            let c2 = c1.next(e1);
            assert(c2.peers == c1.stepped(e1).peers);
            assert(c2.peers[p] == c1.peers[p]);
            assert(out.reply.granted && out.reply.term == req.term);
            let e2 = Event::Count(v as u64, p as u64, out.reply);
            assert(c2.replies.contains((v as u64, req.cid, out.reply)));
            assert(req.cid == p as u64);
            assert(c2.enabled(e2));
            c2.lemma_next_keeps_inv(n, e2);
            let d = c2.next(e2);
            assert(d.peers == c2.stepped(e2).peers);
            assert(d == self.canvassed(p, req, voters));
            let before = c1.peers[p];
            let after = d.peers[p];
            assert(before.wf());
            assert forall|w: int| 0 <= w < n && w != p && !voters.contains(w) implies d.peers[w]
                == self.peers[w] by {
                assert(w != v);
                assert(!fewer.contains(w)) by {
                    if fewer.contains(w) {
                        let k = choose|k: int| 0 <= k < fewer.len() && fewer[k] == w;
                        assert(voters[k] == w);
                    }
                }
            }
            if before.role == Role::Candidate {
                assert(!before.voters.contains(v as u64)) by {
                    if before.voters.contains(v as u64) {
                        let k = choose|k: int| 0 <= k < fewer.len() && fewer[k] == v as u64;
                        assert(fewer.contains(v));
                    }
                }
                let counted = before.voters.push(v as u64);
                if after.role == Role::Candidate {
                    assert(after.voters == counted);
                    assert forall|k: int| 0 <= k < voters.len() implies after.voters.contains(
                        #[trigger] voters[k] as u64,
                    ) by {
                        if k < fewer.len() {
                            assert(fewer[k] == voters[k]);
                            assert(before.voters.contains(fewer[k] as u64));
                            let at = choose|at: int|
                                0 <= at < before.voters.len() && before.voters[at] == fewer[k] as u64;
                            assert(counted[at] == voters[k] as u64);
                        } else {
                            assert(counted[counted.len() - 1] == v as u64);
                        }
                    }
                    assert forall|u: u64| #[trigger] after.voters.contains(u) implies u == p as u64
                        || exists|k: int| 0 <= k < voters.len() && voters[k] == u by {
                        let at = choose|at: int| 0 <= at < counted.len() && counted[at] == u;
                        if at < before.voters.len() {
                            assert(before.voters.contains(u));
                            if u != p as u64 {
                                let k = choose|k: int| 0 <= k < fewer.len() && fewer[k] == u;
                                assert(voters[k] == u);
                            }
                        } else {
                            assert(voters[voters.len() - 1] == u);
                        }
                    }
                }
            }
        }
    }
}

/// An election can succeed: when the election timer of a peer runs out
/// while it does not lead, and its request reaches peers that have not
/// passed its term and whose logs are no more up to date than its own,
/// and their answers reach it, and these peers, at least one, are with
/// the peer itself more than half of the cluster, then the peer leads in
/// the next term.
pub proof fn theorem_election_can_succeed(c: Cluster, n: usize, p: int, voters: Seq<int>)
    requires
        c.inv(n),
        0 <= p < n,
        c.peers[p].role != Role::Leader,
        c.peers[p].term < u64::MAX,
        voters.no_duplicates(),
        forall|k: int| 0 <= k < voters.len() ==> c.would_vote_for(#[trigger] voters[k], p),
        voters.len() >= 1,
        voters.len() + 1 > n / 2,
    ensures
        ({
            let timeout = Event::Step(p, Stimulus::Action(Actions::StartElection));
            let asked = c.next(timeout);
            let d = asked.canvassed(p, asked.peers[p].vote_request(), voters);
            &&& c.enabled(timeout)
            &&& d.inv(n)
            &&& d.peers[p].role == Role::Leader
            &&& d.peers[p].term == c.peers[p].term + 1
        }),
{
    let timeout = Event::Step(p, Stimulus::Action(Actions::StartElection));
    let s = c.peers[p];
    assert(s.wf() && s.me == p && s.npeers == n);
    c.lemma_next_keeps_inv(n, timeout);
    let asked = c.next(timeout);
    assert(asked.peers == c.stepped(timeout).peers);
    let t = asked.peers[p];
    assert(t == s.as_candidate());
    let req = t.vote_request();
    assert forall|k: int| 0 <= k < voters.len() implies 0 <= #[trigger] voters[k] < n && voters[k]
        != p && asked.peers[voters[k]].term < req.term && asked.peers[voters[k]].up_to_date(
        req.last_log_term,
        req.last_log_index,
    ) by {
        assert(c.would_vote_for(voters[k], p));
        assert(asked.peers[voters[k]] == c.peers[voters[k]]);
    }
    asked.lemma_canvass(n, p, req, voters);
}

} // verus!
