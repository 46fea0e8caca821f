use raft::proto::raftpb::{
    AppendEntriesArgs, AppendEntriesReply, LogEntry, RaftNonVolatileState, RequestVoteReply,
};
use raft::raft::errors::Error;
use raft::raft::{Actions, ApplyMsg, Effects, Outbound, Raft, RepliesFrom};

fn entry(term: u64, tag: u8) -> LogEntry {
    LogEntry { term, rb: vec![tag] }
}

fn entries_of(terms: &[u64]) -> Vec<LogEntry> {
    terms.iter().enumerate().map(|(i, t)| entry(*t, i as u8 + 1)).collect()
}

fn follower(term: u64, terms: &[u64]) -> Raft {
    Raft::new(
        3,
        1,
        Some(RaftNonVolatileState {
            current_term: term,
            voted_for: None,
            log: entries_of(terms),
            last_included_index: 0,
            last_included_term: 0,
        }),
    )
}

fn leader(term_before: u64, terms: &[u64]) -> Raft {
    let mut rf = Raft::new(
        3,
        0,
        Some(RaftNonVolatileState {
            current_term: term_before,
            voted_for: None,
            log: entries_of(terms),
            last_included_index: 0,
            last_included_term: 0,
        }),
    );
    rf.start_election();
    rf.handle_request_vote_reply(1, RequestVoteReply { term: term_before + 1, granted: true });
    assert!(rf.is_leader());
    rf
}

fn append(term: u64, prev: (u64, u64), entries: Vec<LogEntry>, commit: u64) -> AppendEntriesArgs {
    AppendEntriesArgs {
        term,
        leader_id: 0,
        prev_log_index: prev.0,
        prev_log_term: prev.1,
        log_entries: entries,
        leader_commit: commit,
    }
}

fn terms_of(rf: &Raft) -> Vec<u64> {
    (rf.last_included_index() + 1..=rf.last_log_index_logical())
        .map(|i| rf.term_at_logical(i).unwrap())
        .collect()
}

fn idle() -> Effects {
    Effects { persist: false, reset_timer: false, heartbeat: false, applies: vec![], sends: vec![] }
}

#[test]
fn only_a_leader_takes_a_command() {
    let mut rf = Raft::new(3, 0, None);
    let (result, effects) = rf.start(vec![1, 2, 3]);
    assert_eq!(result, Err(Error::NotLeader));
    assert_eq!(effects, idle());
    assert_eq!(rf.last_log_index_logical(), 0);
}

#[test]
fn a_leader_appends_the_command_with_its_term() {
    let mut rf = leader(4, &[1, 4]);
    let (result, effects) = rf.start(vec![9, 9]);
    assert_eq!(result, Ok((3, 5)));
    assert_eq!(
        effects,
        Effects { persist: true, reset_timer: true, heartbeat: true, applies: vec![], sends: vec![] }
    );
    assert_eq!(rf.last_log_index_logical(), 3);
    assert_eq!(rf.last_log_term(), 5);
    assert_eq!(rf.log_at_logical(3), Some(LogEntry { term: 5, rb: vec![9, 9] }));
    assert_eq!(rf.data_at_logical(3), Some(vec![9, 9]));
    assert_eq!(rf.data_at_logical(4), None);
    assert_eq!(rf.term_at_logical(0), Some(0));
    assert_eq!(rf.term_at_logical(4), None);
    let (result, _) = rf.start(vec![]);
    assert_eq!(result, Ok((4, 5)));
}

#[test]
fn entries_of_a_lower_term_are_refused() {
    let mut rf = follower(5, &[1]);
    let (reply, effects) = rf.append_entries_handler(append(4, (1, 1), vec![entry(4, 7)], 1));
    assert_eq!(reply, AppendEntriesReply { term: 5, success: false, conflict_index: 0 });
    assert_eq!(effects, idle());
    assert_eq!(terms_of(&rf), vec![1]);
    assert_eq!(rf.commit_index(), 0);
}

#[test]
fn a_heartbeat_resets_the_timer_and_adopts_the_term() {
    let mut rf = follower(2, &[1, 2]);
    let (reply, effects) = rf.append_entries_handler(append(3, (2, 2), vec![], 0));
    assert_eq!(reply, AppendEntriesReply { term: 3, success: true, conflict_index: 0 });
    assert!(effects.reset_timer);
    assert!(effects.persist);
    assert!(effects.applies.is_empty());
    assert_eq!(rf.term(), 3);
    assert_eq!(terms_of(&rf), vec![1, 2]);
}

#[test]
fn a_log_that_is_too_short_reports_its_end() {
    let mut rf = follower(2, &[1, 1]);
    let (reply, effects) = rf.append_entries_handler(append(2, (5, 2), vec![entry(2, 9)], 0));
    assert_eq!(reply, AppendEntriesReply { term: 2, success: false, conflict_index: 3 });
    assert_eq!(
        effects,
        Effects { persist: false, reset_timer: true, heartbeat: false, applies: vec![], sends: vec![] }
    );
    assert_eq!(terms_of(&rf), vec![1, 1]);
}

#[test]
fn a_conflicting_term_reports_the_start_of_its_run() {
    let mut rf = follower(4, &[1, 1, 2, 2, 2, 3]);
    let (reply, _) = rf.append_entries_handler(append(4, (5, 4), vec![], 0));
    assert_eq!(reply, AppendEntriesReply { term: 4, success: false, conflict_index: 3 });
    let (reply, _) = rf.append_entries_handler(append(4, (2, 4), vec![], 0));
    assert_eq!(reply.conflict_index, 1);
    let (reply, _) = rf.append_entries_handler(append(4, (6, 4), vec![], 0));
    assert_eq!(reply.conflict_index, 6);
}

#[test]
fn a_mismatch_at_the_empty_prefix_has_no_hint() {
    let mut rf = follower(1, &[1]);
    let (reply, _) = rf.append_entries_handler(append(1, (0, 7), vec![], 0));
    assert_eq!(reply, AppendEntriesReply { term: 1, success: false, conflict_index: 0 });
}

#[test]
fn new_entries_are_appended_and_committed_up_to_the_leaders_commit() {
    let mut rf = follower(1, &[1]);
    let (reply, effects) =
        rf.append_entries_handler(append(1, (1, 1), vec![entry(1, 20), entry(1, 30)], 2));
    assert!(reply.success);
    assert_eq!(
        effects,
        Effects {
            persist: true,
            reset_timer: true,
            heartbeat: false,
            applies: vec![
                ApplyMsg::Command { data: vec![1], index: 1 },
                ApplyMsg::Command { data: vec![20], index: 2 },
            ],
            sends: vec![],
        }
    );
    assert_eq!(rf.commit_index(), 2);
    assert_eq!(rf.last_applied(), 2);
    assert_eq!(rf.last_log_index_logical(), 3);
}

#[test]
fn the_commit_index_does_not_pass_the_end_of_the_log() {
    let mut rf = follower(1, &[]);
    let (_, effects) = rf.append_entries_handler(append(1, (0, 0), vec![entry(1, 5)], 9));
    assert_eq!(rf.commit_index(), 1);
    assert_eq!(effects.applies, vec![ApplyMsg::Command { data: vec![5], index: 1 }]);
    assert_eq!(rf.get_update_commit_index(9), Some(1));
    assert_eq!(rf.get_update_commit_index(1), None);
    assert_eq!(rf.get_update_commit_index(0), None);
}

#[test]
fn entries_that_are_there_already_do_not_cut_the_log() {
    let mut rf = follower(2, &[1, 1, 2, 2]);
    let (reply, effects) =
        rf.append_entries_handler(append(2, (1, 1), vec![entry(1, 2), entry(2, 3)], 0));
    assert!(reply.success);
    assert!(effects.persist);
    assert_eq!(terms_of(&rf), vec![1, 1, 2, 2]);
    assert_eq!(rf.data_at_logical(4), Some(vec![4]));
}

#[test]
fn a_conflict_cuts_the_log_at_the_first_entry_that_differs() {
    let mut rf = follower(3, &[1, 1, 2, 2]);
    let incoming = vec![entry(1, 52), entry(3, 53), entry(3, 54)];
    let (reply, _) = rf.append_entries_handler(append(3, (1, 1), incoming, 0));
    assert!(reply.success);
    assert_eq!(terms_of(&rf), vec![1, 1, 3, 3]);
    // the entry that matched stays as it was, the rest came in
    assert_eq!(rf.data_at_logical(2), Some(vec![2]));
    assert_eq!(rf.data_at_logical(3), Some(vec![53]));
    assert_eq!(rf.data_at_logical(4), Some(vec![54]));
}

#[test]
fn entries_beyond_the_end_extend_the_log() {
    let mut rf = follower(1, &[1, 1]);
    let incoming = vec![entry(1, 2), entry(1, 33), entry(1, 34)];
    let (reply, _) = rf.append_entries_handler(append(1, (1, 1), incoming, 0));
    assert!(reply.success);
    assert_eq!(terms_of(&rf), vec![1, 1, 1, 1]);
    assert_eq!(rf.data_at_logical(2), Some(vec![2]));
    assert_eq!(rf.data_at_logical(4), Some(vec![34]));
}

#[test]
fn a_candidate_gives_up_for_a_leader_of_its_term_and_keeps_its_vote() {
    let mut rf = Raft::new(3, 1, None);
    rf.start_election();
    assert!(rf.is_candidate());
    let (reply, effects) = rf.append_entries_handler(append(1, (0, 0), vec![], 0));
    assert!(reply.success);
    assert!(rf.is_follower());
    assert_eq!(rf.term(), 1);
    assert_eq!(rf.voted_for(), Some(1));
    assert_eq!(rf.votes_counted(), 0);
    assert!(effects.persist);
}

#[test]
fn a_heartbeat_round_sends_each_peer_what_it_lacks() {
    let mut rf = leader(1, &[1, 1]);
    rf.start(vec![7]);
    rf.handle_append_entries_reply(
        1,
        3,
        AppendEntriesReply { term: 2, success: true, conflict_index: 0 },
    );
    let effects = rf.mux_actions(Actions::SendHeartbeat);
    assert!(!effects.persist);
    assert_eq!(
        effects.sends,
        vec![
            Outbound::AppendEntries {
                peer: 1,
                args: AppendEntriesArgs {
                    term: 2,
                    leader_id: 0,
                    prev_log_index: 2,
                    prev_log_term: 1,
                    log_entries: vec![LogEntry { term: 2, rb: vec![7] }],
                    leader_commit: 0,
                },
                next_index_on_success: 4,
            },
            Outbound::AppendEntries {
                peer: 2,
                args: AppendEntriesArgs {
                    term: 2,
                    leader_id: 0,
                    prev_log_index: 2,
                    prev_log_term: 1,
                    log_entries: vec![LogEntry { term: 2, rb: vec![7] }],
                    leader_commit: 0,
                },
                next_index_on_success: 4,
            },
        ]
    );
}

#[test]
fn a_follower_sends_no_heartbeats() {
    let rf = follower(3, &[1]);
    assert!(rf.send_heartbeat().is_empty());
    let mut rf = rf;
    assert_eq!(rf.mux_actions(Actions::SendHeartbeat), idle());
}

#[test]
fn a_success_moves_the_indices_and_commits_an_entry_of_the_current_term() {
    let mut rf = leader(0, &[]);
    rf.start(vec![10]);
    rf.start(vec![11]);
    let effects = rf.mux_replies(RepliesFrom::AppendEntries(
        2,
        3,
        AppendEntriesReply { term: 1, success: true, conflict_index: 0 },
    ));
    assert_eq!(rf.next_index_of(2), 3);
    assert_eq!(rf.match_index_of(2), 2);
    assert_eq!(rf.commit_index(), 2);
    assert_eq!(rf.last_applied(), 2);
    assert_eq!(
        effects.applies,
        vec![
            ApplyMsg::Command { data: vec![10], index: 1 },
            ApplyMsg::Command { data: vec![11], index: 2 },
        ]
    );
    assert!(!effects.persist);
}

#[test]
fn entries_of_earlier_terms_are_not_committed_by_counting() {
    // two entries of term 1, then leadership in term 2 without a new entry
    let mut rf = leader(1, &[1, 1]);
    let effects = rf.handle_append_entries_reply(
        1,
        3,
        AppendEntriesReply { term: 2, success: true, conflict_index: 0 },
    );
    assert_eq!(rf.match_index_of(1), 2);
    assert_eq!(rf.valid_commit_index_from_majority(), 0);
    assert_eq!(rf.commit_index(), 0);
    assert!(effects.applies.is_empty());
    // an entry of the current term carries the earlier ones with it
    rf.start(vec![42]);
    let effects = rf.handle_append_entries_reply(
        1,
        4,
        AppendEntriesReply { term: 2, success: true, conflict_index: 0 },
    );
    assert_eq!(rf.commit_index(), 3);
    assert_eq!(effects.applies.len(), 3);
    assert_eq!(effects.applies[2], ApplyMsg::Command { data: vec![42], index: 3 });
}

#[test]
fn the_largest_index_that_a_majority_stores_is_committed() {
    let mut rf = Raft::new(5, 0, None);
    rf.start_election();
    rf.handle_request_vote_reply(1, RequestVoteReply { term: 1, granted: true });
    rf.handle_request_vote_reply(2, RequestVoteReply { term: 1, granted: true });
    for k in 0..4u8 {
        rf.start(vec![k]);
    }
    let ok = AppendEntriesReply { term: 1, success: true, conflict_index: 0 };
    rf.handle_append_entries_reply(1, 5, ok);
    assert_eq!(rf.commit_index(), 0);
    rf.handle_append_entries_reply(2, 4, ok);
    assert_eq!(rf.commit_index(), 3);
    rf.handle_append_entries_reply(3, 2, ok);
    assert_eq!(rf.commit_index(), 3);
    rf.handle_append_entries_reply(4, 5, ok);
    assert_eq!(rf.commit_index(), 4);
}

#[test]
fn a_refusal_with_a_hint_moves_next_index_there_and_keeps_match_index() {
    let mut rf = leader(2, &[1, 1, 2]);
    rf.handle_append_entries_reply(
        1,
        3,
        AppendEntriesReply { term: 3, success: true, conflict_index: 0 },
    );
    assert_eq!(rf.match_index_of(1), 2);
    rf.handle_append_entries_reply(
        1,
        4,
        AppendEntriesReply { term: 3, success: false, conflict_index: 2 },
    );
    assert_eq!(rf.next_index_of(1), 2);
    assert_eq!(rf.match_index_of(1), 2);
}

#[test]
fn a_refusal_without_a_hint_steps_back_by_one_but_not_below_one() {
    let mut rf = leader(1, &[1, 1]);
    let no = AppendEntriesReply { term: 2, success: false, conflict_index: 0 };
    assert_eq!(rf.next_index_of(2), 3);
    rf.handle_append_entries_reply(2, 3, no);
    assert_eq!(rf.next_index_of(2), 2);
    rf.handle_append_entries_reply(2, 3, no);
    assert_eq!(rf.next_index_of(2), 1);
    rf.handle_append_entries_reply(2, 3, no);
    assert_eq!(rf.next_index_of(2), 1);
}

#[test]
fn a_leader_steps_down_on_an_answer_of_a_higher_term() {
    let mut rf = leader(1, &[1]);
    let effects = rf.handle_append_entries_reply(
        1,
        2,
        AppendEntriesReply { term: 8, success: false, conflict_index: 0 },
    );
    assert!(rf.is_follower());
    assert_eq!(rf.term(), 8);
    assert_eq!(rf.voted_for(), None);
    assert!(effects.persist);
    assert_eq!(rf.next_index_of(1), 2);
}

#[test]
fn an_answer_of_an_earlier_term_is_ignored() {
    let mut rf = leader(4, &[1]);
    rf.start(vec![1]);
    let effects = rf.handle_append_entries_reply(
        1,
        3,
        AppendEntriesReply { term: 3, success: true, conflict_index: 0 },
    );
    assert_eq!(effects, idle());
    assert_eq!(rf.match_index_of(1), 0);
    assert_eq!(rf.next_index_of(1), 2);
    assert_eq!(rf.commit_index(), 0);
}

#[test]
fn a_follower_ignores_answers_to_entries() {
    let mut rf = follower(2, &[1]);
    let effects = rf.handle_append_entries_reply(
        0,
        2,
        AppendEntriesReply { term: 2, success: true, conflict_index: 0 },
    );
    assert_eq!(effects, idle());
    assert_eq!(rf.match_index_of(0), 0);
}

#[test]
fn fast_backoff_converges_in_two_rounds() {
    // the follower holds 100 entries of term 1
    let mut f = follower(1, &[1; 100]);
    // the new leader shares the first three and has five of term 2 behind them
    let mut l = leader(2, &[1, 1, 1, 2, 2, 2, 2, 2]);
    assert_eq!(l.last_log_index_logical(), 8);
    assert_eq!(l.next_index_of(1), 9);
    let mut rounds = 0;
    loop {
        rounds += 1;
        let args = l.append_entries_args_for(1).unwrap();
        let next = args.prev_log_index + args.log_entries.len() as u64 + 1;
        let (reply, _) = f.append_entries_handler(args);
        if rounds == 1 {
            assert_eq!(reply, AppendEntriesReply { term: 3, success: false, conflict_index: 1 });
        }
        l.handle_append_entries_reply(1, next, reply);
        if reply.success {
            break;
        }
        assert!(rounds < 10);
    }
    assert_eq!(rounds, 2);
    assert_eq!(terms_of(&f), vec![1, 1, 1, 2, 2, 2, 2, 2]);
    assert_eq!(terms_of(&f), terms_of(&l));
    assert_eq!(l.match_index_of(1), 8);
    assert_eq!(l.next_index_of(1), 9);
    for i in 1..=8 {
        assert_eq!(f.log_at_logical(i), l.log_at_logical(i));
    }
}

#[test]
fn a_leader_never_loses_an_entry_while_it_leads() {
    let mut rf = leader(1, &[1, 1]);
    rf.start(vec![5]);
    let before: Vec<Option<LogEntry>> = (1..=3).map(|i| rf.log_at_logical(i)).collect();
    rf.request_vote_handler(raft::proto::raftpb::RequestVoteArgs {
        term: 2,
        cid: 2,
        last_log_index: 9,
        last_log_term: 2,
    });
    rf.append_entries_handler(append(1, (0, 0), vec![entry(1, 99)], 0));
    rf.handle_append_entries_reply(
        1,
        1,
        AppendEntriesReply { term: 2, success: false, conflict_index: 1 },
    );
    rf.mux_actions(Actions::SendHeartbeat);
    rf.mux_actions(Actions::StartElection);
    rf.start(vec![6]);
    assert!(rf.is_leader());
    let after: Vec<Option<LogEntry>> = (1..=3).map(|i| rf.log_at_logical(i)).collect();
    assert_eq!(before, after);
    assert_eq!(rf.last_log_index_logical(), 4);
}

#[test]
fn what_is_stored_brings_the_log_back() {
    let mut rf = leader(2, &[1, 2]);
    rf.start(vec![8]);
    let stored = rf.pack_nvstate();
    assert_eq!(
        stored,
        RaftNonVolatileState {
            current_term: 3,
            voted_for: Some(0),
            log: vec![entry(1, 1), entry(2, 2), LogEntry { term: 3, rb: vec![8] }],
            last_included_index: 0,
            last_included_term: 0,
        }
    );
    let again = Raft::new(3, 0, Some(stored));
    assert!(again.is_follower());
    assert_eq!(again.term(), 3);
    assert_eq!(again.voted_for(), Some(0));
    assert_eq!(terms_of(&again), vec![1, 2, 3]);
    assert_eq!(again.commit_index(), 0);
    assert_eq!(again.last_applied(), 0);
    assert_eq!(again.pack_nvstate(), rf.pack_nvstate());
}
