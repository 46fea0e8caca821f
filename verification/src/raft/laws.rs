//! What holds of a peer whatever happens to it.

use crate::proto::raftpb::{AppendEntriesArgsView, EntryView};
use crate::raft::model::{OutboundView, RaftView, Stimulus};
use crate::raft::{ApplyMsgView, RepliesFrom, Role};
use vstd::prelude::*;

verus! {

/// Whether `after` still holds every entry of `before` that its snapshot
/// does not cover, unchanged and at its index, and neither its snapshot
/// nor its log ends earlier.
pub open spec fn keeps_log(before: RaftView, after: RaftView) -> bool {
    &&& after.last_included_index >= before.last_included_index
    &&& after.last_log_index() >= before.last_log_index()
    &&& forall|i: int|
        before.has_entry(i) && i > after.last_included_index ==> after.has_entry(i)
            && after.entry_at(i) == before.entry_at(i)
}

/// Whether `x` is an AppendEntries request of the peer's own term.
pub open spec fn is_append_entries_of_term(x: Stimulus, term: u64) -> bool {
    x matches Stimulus::AppendEntries(a) && a.term == term
}

/// What putting `entries` behind `prev` does to a log that holds `prev`:
/// everything up to `prev` stays, the entries stand behind it, each at its
/// index, and the log ends with the last of them unless it held them all
/// before.
pub proof fn lemma_splice(s: RaftView, prev: int, entries: Seq<EntryView>)
    requires
        s.wf(),
        s.term_at(prev) is Some,
        prev + entries.len() < u64::MAX,
    ensures
        ({
            let t = RaftView { log: s.spliced_log(prev, entries), ..s };
            let k = s.first_mismatch(prev, entries, 0);
            &&& t.wf()
            &&& 0 <= k <= entries.len()
            &&& prev + k <= s.last_log_index()
            &&& t.last_log_index() == if k == entries.len() {
                s.last_log_index()
            } else {
                prev + entries.len()
            }
            &&& forall|i: int|
                s.has_entry(i) && i <= prev + k ==> t.has_entry(i) && t.entry_at(i) == s.entry_at(i)
            &&& forall|i: int|
                0 <= i < entries.len() ==> t.has_entry(prev + 1 + i) && t.entry_at(
                    prev + 1 + i,
                ).term == (#[trigger] entries[i]).term
            &&& forall|i: int|
                k <= i < entries.len() ==> t.entry_at(prev + 1 + i) == #[trigger] entries[i]
        }),
{
    let t = RaftView { log: s.spliced_log(prev, entries), ..s };
    let k = s.first_mismatch(prev, entries, 0);
    s.lemma_first_mismatch(prev, entries, 0);
    if k > 0 {
        assert(s.term_at(prev + 1 + (k - 1)) == Some(entries[k - 1].term));
    }
    assert(prev + k <= s.last_log_index());
    let keep = prev + k - s.last_included_index;
    if k < entries.len() {
        assert(t.log == s.log.take(keep) + entries.skip(k));
        assert(t.log.len() == keep + entries.len() - k);
        assert forall|i: int| 0 <= i < entries.len() implies t.has_entry(prev + 1 + i)
            && t.entry_at(prev + 1 + i).term == (#[trigger] entries[i]).term by {
            if i < k {
                assert(s.term_at(prev + 1 + i) == Some(entries[i].term));
                assert(t.log[prev + 1 + i - s.last_included_index - 1] == s.log[prev + i
                    - s.last_included_index]);
            } else {
                assert(t.log[prev + 1 + i - s.last_included_index - 1] == entries.skip(k)[i - k]);
            }
        }
        assert forall|i: int| k <= i < entries.len() implies t.entry_at(prev + 1 + i)
            == #[trigger] entries[i] by {
            assert(t.log[prev + 1 + i - s.last_included_index - 1] == entries.skip(k)[i - k]);
        }
        assert forall|i: int| s.has_entry(i) && i <= prev + k implies t.has_entry(i) && t.entry_at(
            i,
        ) == s.entry_at(i) by {
            assert(t.log[i - s.last_included_index - 1] == s.log[i - s.last_included_index - 1]);
        }
    } else {
        assert forall|i: int| 0 <= i < entries.len() implies t.has_entry(prev + 1 + i)
            && t.entry_at(prev + 1 + i).term == (#[trigger] entries[i]).term by {
            assert(s.term_at(prev + 1 + i) == Some(entries[i].term));
        }
    }
}

/// The invariant of a peer's state survives every step.
pub proof fn lemma_step_keeps_invariant(s: RaftView, x: Stimulus)
    requires
        s.wf(),
        s.admits(x),
    ensures
        s.after(x).wf(),
{
    match x {
        Stimulus::AppendEntries(a) => {
            let s1 = s.follow_leader(a.term);
            if a.term >= s.term && s1.term_at(a.prev_log_index as int) == Some(a.prev_log_term) {
                lemma_splice(s1, a.prev_log_index as int, a.log_entries);
            }
        },
        _ => {},
    }
}

/// Terms never fall.
pub proof fn lemma_term_never_falls(s: RaftView, x: Stimulus)
    requires
        s.wf(),
        s.admits(x),
    ensures
        s.after(x).term >= s.term,
{
}

/// A vote, once given, stands for the rest of the term.
pub proof fn lemma_vote_stands(s: RaftView, x: Stimulus)
    requires
        s.wf(),
        s.admits(x),
        s.voted_for is Some,
        s.after(x).term == s.term,
    ensures
        s.after(x).voted_for == s.voted_for,
{
}

/// Whatever changes the durable state tells the caller to store it.
pub proof fn lemma_changes_are_stored(s: RaftView, x: Stimulus)
    requires
        s.wf(),
        s.admits(x),
        s.after(x).durable() != s.durable(),
    ensures
        s.stores(x),
{
    match x {
        Stimulus::Reply(reply_from) => {},
        _ => {},
    }
}

/// A leader only appends: as long as the peer leads in one term, no step
/// removes or changes an entry of its log, except that a snapshot takes
/// the place of a prefix. The one step left out is an AppendEntries
/// request that carries the leader's own term, which no peer sends while
/// there is one leader per term.
pub proof fn lemma_leader_append_only(s: RaftView, x: Stimulus)
    requires
        s.wf(),
        s.admits(x),
        s.role == Role::Leader,
        s.after(x).role == Role::Leader,
        s.after(x).term == s.term,
        !is_append_entries_of_term(x, s.term),
    ensures
        keeps_log(s, s.after(x)),
{
    match x {
        Stimulus::Start(command) => {
            let t = s.after(x);
            assert forall|i: int| s.has_entry(i) implies t.has_entry(i) && t.entry_at(i)
                == s.entry_at(i) by {}
        },
        _ => {},
    }
}

/// Whether `msgs` deliver the entries of `t` behind index `from`, one
/// message per index and in index order, each with the command that the
/// log holds there.
pub open spec fn delivers_entries_behind(msgs: Seq<ApplyMsgView>, t: RaftView, from: int) -> bool {
    forall|j: int|
        0 <= j < msgs.len() ==> t.has_entry(from + 1 + j) && #[trigger] msgs[j]
            == (ApplyMsgView::Command {
            data: t.entry_at(from + 1 + j).payload,
            index: (from + 1 + j) as u64,
        })
}

/// What moving the commit index to `to` hands to the service.
proof fn lemma_applies_up_to(s: RaftView, to: u64)
    requires
        s.wf(),
        to > s.commit_index ==> to <= s.last_log_index(),
    ensures
        s.applies_up_to(to).len() == s.committed_up_to(to).last_applied - s.last_applied,
        delivers_entries_behind(
            s.applies_up_to(to),
            s.committed_up_to(to),
            s.last_applied as int,
        ),
{
}

/// What commit advancement finds: the commit index, or an index ahead of
/// it that is committable and has no committable index above it.
pub proof fn lemma_largest_committable(s: RaftView, upto: int)
    requires
        upto <= s.last_log_index(),
        s.last_log_index() < u64::MAX,
    ensures
        s.commit_index <= s.largest_committable(upto),
        s.largest_committable(upto) > s.commit_index ==> s.largest_committable(upto) <= upto
            && s.committable(s.largest_committable(upto)),
        forall|n: int|
            s.largest_committable(upto) < n <= upto ==> !s.committable(n),
    decreases upto - s.commit_index,
{
    if upto > s.commit_index && !s.committable(upto) {
        lemma_largest_committable(s, upto - 1);
    }
}

/// What a step hands to the service is nothing, or a single snapshot, or
/// the entries behind the last one applied, one message per index and in
/// index order up to the new last one applied, each with the command that
/// the log holds there.
pub proof fn lemma_applies_in_order(s: RaftView, x: Stimulus)
    requires
        s.wf(),
        s.admits(x),
    ensures
        s.delivers(x).len() == 0 || (s.delivers(x).len() == 1 && s.delivers(x)[0] is Snapshot) || (
        s.delivers(x).len() == s.after(x).last_applied - s.last_applied
            && delivers_entries_behind(s.delivers(x), s.after(x), s.last_applied as int)),
{
    match x {
        Stimulus::AppendEntries(a) => {
            let s1 = s.follow_leader(a.term);
            if a.term >= s.term && s1.term_at(a.prev_log_index as int) == Some(a.prev_log_term) {
                lemma_splice(s1, a.prev_log_index as int, a.log_entries);
                let s2 = RaftView {
                    log: s1.spliced_log(a.prev_log_index as int, a.log_entries),
                    ..s1
                };
                let to = if a.leader_commit > s2.commit_index {
                    s2.follower_commit_target(a.leader_commit)
                } else {
                    s2.commit_index
                };
                lemma_applies_up_to(s2, to);
            }
        },
        Stimulus::Reply(reply_from) => {
            match reply_from {
                RepliesFrom::AppendEntries(from, next, r) => {
                    let s1 = s.observe_term(r.term);
                    if s1.role == Role::Leader && r.term == s1.term && r.success {
                        let s2 = RaftView {
                            next_index: s1.next_index.update(from as int, next),
                            match_index: s1.match_index.update(from as int, (next - 1) as u64),
                            ..s1
                        };
                        lemma_largest_committable(s2, s2.last_log_index());
                        lemma_applies_up_to(s2, s2.majority_commit_index());
                    }
                },
                _ => {},
            }
        },
        _ => {},
    }
}

/// The place of the request for `peer` in a round of requests to every
/// peer but `me`, in the order of the peers.
pub open spec fn place_in_round(me: int, peer: int) -> int {
    if peer < me {
        peer
    } else {
        peer - 1
    }
}

/// The number of peers below `upto` other than `me`.
pub open spec fn others_below(me: int, upto: int) -> int {
    if 0 <= me < upto {
        upto - 1
    } else {
        upto
    }
}

/// A heartbeat round and an election hold one request for every peer but
/// the sender.
pub proof fn lemma_round_lengths(s: RaftView, upto: int)
    requires
        0 <= upto,
    ensures
        s.heartbeat_sends(upto).len() == others_below(s.me as int, upto),
        s.vote_requests(upto).len() == others_below(s.me as int, upto),
    decreases upto,
{
    if upto > 0 {
        lemma_round_lengths(s, upto - 1);
    }
}

/// A heartbeat round holds the requests in the order of the peers: for
/// each peer but the leader the entries it lacks, or the snapshot.
pub proof fn lemma_heartbeat_round(s: RaftView, upto: int, peer: int)
    requires
        0 <= peer < upto,
        peer != s.me,
    ensures
        0 <= place_in_round(s.me as int, peer) < s.heartbeat_sends(upto).len(),
        s.heartbeat_sends(upto)[place_in_round(s.me as int, peer)] == s.outbound_for(peer),
    decreases upto,
{
    lemma_round_lengths(s, upto);
    lemma_round_lengths(s, upto - 1);
    if peer < upto - 1 {
        lemma_heartbeat_round(s, upto - 1, peer);
    }
}

/// An election asks the peers in their order, each peer but the
/// candidate once, with one and the same request.
pub proof fn lemma_election_round(s: RaftView, upto: int, peer: int)
    requires
        0 <= peer < upto <= usize::MAX,
        peer != s.me,
    ensures
        0 <= place_in_round(s.me as int, peer) < s.vote_requests(upto).len(),
        s.vote_requests(upto)[place_in_round(s.me as int, peer)] == (OutboundView::RequestVote {
            peer: peer as u64,
            args: s.vote_request(),
        }),
    decreases upto,
{
    lemma_round_lengths(s, upto);
    lemma_round_lengths(s, upto - 1);
    if peer < upto - 1 {
        lemma_election_round(s, upto - 1, peer);
    }
}

/// Whether two logs agree wherever they can be compared: if both hold an
/// entry of one term at some index, they hold the same entries up to
/// there, as far as both hold them.
pub open spec fn logs_match(a: RaftView, b: RaftView) -> bool {
    forall|i: int, j: int|
        j <= i && a.has_entry(i) && b.has_entry(i) && a.entry_at(i).term == b.entry_at(i).term
            && a.has_entry(j) && b.has_entry(j) ==> a.entry_at(j) == b.entry_at(j)
}

/// Two states with one log compare alike with any third.
proof fn lemma_same_log_matches(leader: RaftView, a: RaftView, b: RaftView)
    requires
        a.log == b.log,
        a.last_included_index == b.last_included_index,
        logs_match(leader, a),
    ensures
        logs_match(leader, b),
        forall|i: int| a.has_entry(i) == b.has_entry(i),
        forall|i: int| a.has_entry(i) ==> a.entry_at(i) == b.entry_at(i),
{
    assert forall|i: int| a.has_entry(i) == b.has_entry(i) by {}
    assert forall|i: int| a.entry_at(i) == b.entry_at(i) by {}
}

/// Putting the leader's entries behind an entry on which the logs agree
/// keeps the logs matching, and brings over every entry of the leader
/// behind it.
proof fn lemma_splice_keeps_logs_matching(leader: RaftView, peer: RaftView, prev: int)
    requires
        leader.wf(),
        peer.wf(),
        logs_match(leader, peer),
        leader.last_included_index <= prev <= leader.last_log_index(),
        peer.term_at(prev) is Some,
        peer.term_at(prev) == leader.term_at(prev),
    ensures
        ({
            let entries = leader.log.skip(prev - leader.last_included_index);
            let t = RaftView { log: peer.spliced_log(prev, entries), ..peer };
            &&& logs_match(leader, t)
            &&& forall|i: int|
                prev < i <= leader.last_log_index() ==> t.has_entry(i) && t.entry_at(i)
                    == leader.entry_at(i)
        }),
{
    let entries = leader.log.skip(prev - leader.last_included_index);
    let t = RaftView { log: peer.spliced_log(prev, entries), ..peer };
    let k = peer.first_mismatch(prev, entries, 0);
    assert(prev + entries.len() == leader.last_log_index());
    lemma_splice(peer, prev, entries);
    peer.lemma_first_mismatch(prev, entries, 0);
    assert forall|i: int| prev < i <= leader.last_log_index() implies t.has_entry(i)
        && t.entry_at(i) == leader.entry_at(i) by {
        let m = i - prev - 1;
        assert(entries[m] == leader.entry_at(i));
        assert(t.has_entry(prev + 1 + m));
        if m >= k {
            assert(t.entry_at(prev + 1 + m) == entries[m]);
        } else {
            assert(peer.term_at(prev + 1 + m) == Some(entries[m].term));
            assert(peer.has_entry(i));
            assert(t.entry_at(i) == peer.entry_at(i));
            assert(peer.entry_at(i).term == leader.entry_at(i).term);
            assert(leader.has_entry(i));
        }
    }
    assert forall|i: int, j: int|
        j <= i && leader.has_entry(i) && t.has_entry(i) && leader.entry_at(i).term == t.entry_at(
            i,
        ).term && leader.has_entry(j) && t.has_entry(j) implies leader.entry_at(j) == t.entry_at(
        j,
    ) by {
        if j <= prev {
            assert(peer.has_entry(j));
            assert(t.entry_at(j) == peer.entry_at(j));
            if i > prev {
                assert(leader.has_entry(prev) && peer.has_entry(prev));
                assert(peer.entry_at(prev).term == leader.entry_at(prev).term);
            } else {
                assert(peer.has_entry(i));
                assert(t.entry_at(i) == peer.entry_at(i));
            }
        }
    }
}

/// What handling an AppendEntries request does to the log: on success the
/// entries are put behind `prev_log_index`, whose term was found as
/// given; otherwise the log stays. The snapshot stays in any case.
proof fn lemma_append_entries_log(s: RaftView, a: AppendEntriesArgsView)
    requires
        s.wf(),
    ensures
        ({
            let out = s.append_entries_step(a);
            let s1 = s.follow_leader(a.term);
            &&& s1.log == s.log
            &&& s1.last_included_index == s.last_included_index
            &&& s1.last_included_term == s.last_included_term
            &&& s1.wf()
            &&& out.state.last_included_index == s.last_included_index
            &&& out.reply.success ==> s1.term_at(a.prev_log_index as int) == Some(a.prev_log_term)
                && out.state.log == s1.spliced_log(a.prev_log_index as int, a.log_entries)
            &&& !out.reply.success ==> out.state.log == s.log
        }),
{
}

/// Replication keeps logs matching: if the logs of a leader and of a peer
/// agree wherever they can be compared, they still do after the peer has
/// handled the leader's AppendEntries request for it; and a peer that
/// reports success holds every entry of the leader behind
/// `prev_log_index`.
pub proof fn lemma_replication_keeps_logs_matching(leader: RaftView, peer: RaftView, to: int)
    requires
        leader.wf(),
        peer.wf(),
        0 <= to < leader.npeers,
        logs_match(leader, peer),
        leader.append_entries_args_for(to) is Some,
    ensures
        peer.admits(Stimulus::AppendEntries(leader.append_entries_args_for(to).unwrap())),
        logs_match(
            leader,
            peer.append_entries_step(leader.append_entries_args_for(to).unwrap()).state,
        ),
        peer.append_entries_step(leader.append_entries_args_for(to).unwrap()).reply.success
            ==> forall|i: int|
            leader.next_index[to] <= i <= leader.last_log_index() ==> peer.append_entries_step(
                leader.append_entries_args_for(to).unwrap(),
            ).state.has_entry(i) && peer.append_entries_step(
                leader.append_entries_args_for(to).unwrap(),
            ).state.entry_at(i) == leader.entry_at(i),
{
    let a = leader.append_entries_args_for(to).unwrap();
    let out = peer.append_entries_step(a);
    let prev = a.prev_log_index as int;
    let s1 = peer.follow_leader(a.term);
    lemma_append_entries_log(peer, a);
    lemma_same_log_matches(leader, peer, s1);
    if out.reply.success {
        lemma_splice_keeps_logs_matching(leader, s1, prev);
        let t2 = RaftView { log: s1.spliced_log(prev, a.log_entries), ..s1 };
        lemma_same_log_matches(leader, t2, out.state);
    } else {
        lemma_same_log_matches(leader, peer, out.state);
    }
}

/// What a peer stores brings it back: a peer that starts from the stored
/// record of `s` has its term, its vote, its log and its snapshot's end,
/// and has applied nothing beyond the snapshot, so that what it delivers
/// next begins right behind it.
pub proof fn lemma_restart_round_trip(s: RaftView, to: u64)
    requires
        s.wf(),
    ensures
        ({
            let r = RaftView::fresh(s.npeers, s.me).restored(s.durable());
            &&& r.wf()
            &&& r.durable() == s.durable()
            &&& r.role == Role::Follower
            &&& r.last_applied == s.last_included_index
            &&& r.commit_index == s.last_included_index
            &&& s.last_included_index < to <= r.last_log_index() ==> r.applies_up_to(to).len() > 0
                && r.applies_up_to(to)[0] == ApplyMsgView::Command {
                data: r.entry_at(s.last_included_index + 1).payload,
                index: (s.last_included_index + 1) as u64,
            }
        }),
{
}

} // verus!
