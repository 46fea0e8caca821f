use raft::proto::raftpb::{
    AppendEntriesArgs, InstallSnapshotArgs, InstallSnapshotReply, LogEntry, RaftNonVolatileState,
    RequestVoteReply,
};
use raft::raft::{ApplyMsg, Effects, Outbound, Raft, RepliesFrom};

fn log_of(terms: &[u64]) -> Vec<LogEntry> {
    terms.iter().enumerate().map(|(i, t)| LogEntry { term: *t, rb: vec![i as u8 + 1] }).collect()
}

fn compacted(me: usize, term: u64, snapshot: (u64, u64), terms: &[u64]) -> Raft {
    Raft::new(
        3,
        me,
        Some(RaftNonVolatileState {
            current_term: term,
            voted_for: None,
            log: log_of(terms),
            last_included_index: snapshot.0,
            last_included_term: snapshot.1,
        }),
    )
}

fn elected(me: usize, term_before: u64, snapshot: (u64, u64), terms: &[u64]) -> Raft {
    let mut rf = compacted(me, term_before, snapshot, terms);
    rf.start_election();
    let voter = if me == 0 { 1 } else { 0 };
    rf.handle_request_vote_reply(voter, RequestVoteReply { term: term_before + 1, granted: true });
    assert!(rf.is_leader());
    rf
}

fn none() -> Effects {
    Effects { persist: false, reset_timer: false, heartbeat: false, applies: vec![], sends: vec![] }
}

#[test]
fn a_restored_peer_has_applied_exactly_the_snapshot() {
    let rf = compacted(0, 3, (10, 2), &[2, 3, 3]);
    assert_eq!(rf.last_included_index(), 10);
    assert_eq!(rf.last_included_term(), 2);
    assert_eq!(rf.commit_index(), 10);
    assert_eq!(rf.last_applied(), 10);
    assert_eq!(rf.last_log_index_logical(), 13);
    assert_eq!(rf.term_at_logical(10), Some(2));
    assert_eq!(rf.term_at_logical(9), None);
    assert_eq!(rf.term_at_logical(11), Some(2));
    assert_eq!(rf.term_at_logical(13), Some(3));
    assert_eq!(rf.term_at_logical(14), None);
    assert_eq!(rf.index_logical_to_physical(10), None);
    assert_eq!(rf.index_logical_to_physical(11), Some(0));
    assert_eq!(rf.index_logical_to_physical(13), Some(2));
    assert_eq!(rf.index_logical_to_physical(14), None);
    assert_eq!(rf.data_at_logical(10), None);
    assert_eq!(rf.data_at_logical(12), Some(vec![2]));
}

#[test]
fn a_restored_peer_delivers_from_right_behind_the_snapshot() {
    let mut rf = compacted(1, 3, (10, 2), &[2, 3, 3]);
    let (reply, effects) = rf.append_entries_handler(AppendEntriesArgs {
        term: 3,
        leader_id: 0,
        prev_log_index: 13,
        prev_log_term: 3,
        log_entries: vec![],
        leader_commit: 12,
    });
    assert!(reply.success);
    assert_eq!(
        effects.applies,
        vec![
            ApplyMsg::Command { data: vec![1], index: 11 },
            ApplyMsg::Command { data: vec![2], index: 12 },
        ]
    );
    assert_eq!(rf.last_applied(), 12);
}

#[test]
fn a_snapshot_cuts_the_log_up_to_its_index() {
    let mut rf = compacted(0, 3, (0, 0), &[1, 1, 2, 3]);
    let term = rf.term_at_logical(2).unwrap();
    assert!(rf.snapshot(2, term));
    assert_eq!(rf.last_included_index(), 2);
    assert_eq!(rf.last_included_term(), 1);
    assert_eq!(rf.last_log_index_logical(), 4);
    assert_eq!(rf.log_at_logical(2), None);
    assert_eq!(rf.log_at_logical(3), Some(LogEntry { term: 2, rb: vec![3] }));
    assert_eq!(rf.log_at_logical(4), Some(LogEntry { term: 3, rb: vec![4] }));
    assert_eq!(rf.commit_index(), 2);
    assert_eq!(rf.last_applied(), 2);
    let stored = rf.pack_nvstate();
    assert_eq!(stored.last_included_index, 2);
    assert_eq!(stored.last_included_term, 1);
    assert_eq!(stored.log.len(), 2);
}

#[test]
fn a_snapshot_behind_the_commit_index_leaves_it() {
    let mut rf = compacted(1, 1, (0, 0), &[1, 1, 1]);
    rf.append_entries_handler(AppendEntriesArgs {
        term: 1,
        leader_id: 0,
        prev_log_index: 3,
        prev_log_term: 1,
        log_entries: vec![],
        leader_commit: 3,
    });
    assert_eq!(rf.commit_index(), 3);
    assert!(rf.snapshot(1, 1));
    assert_eq!(rf.commit_index(), 3);
    assert_eq!(rf.last_applied(), 3);
    assert_eq!(rf.last_included_index(), 1);
    assert_eq!(rf.last_log_index_logical(), 3);
}

#[test]
fn a_snapshot_that_reaches_no_further_is_refused() {
    let mut rf = compacted(0, 3, (5, 2), &[2, 3]);
    assert!(!rf.snapshot(5, 2));
    assert!(!rf.snapshot(4, 2));
    assert_eq!(rf.last_included_index(), 5);
    assert_eq!(rf.last_log_index_logical(), 7);
}

#[test]
fn a_snapshot_beyond_the_log_empties_it() {
    let mut rf = compacted(0, 3, (5, 2), &[2, 3]);
    assert!(rf.snapshot(20, 3));
    assert_eq!(rf.last_included_index(), 20);
    assert_eq!(rf.last_included_term(), 3);
    assert_eq!(rf.last_log_index_logical(), 20);
    assert_eq!(rf.last_log_term(), 3);
    assert_eq!(rf.commit_index(), 20);
    assert_eq!(rf.last_applied(), 20);
}

#[test]
fn a_snapshot_is_installed_only_if_it_is_news() {
    let mut rf = compacted(0, 5, (10, 3), &[3, 4]);
    // an older term
    assert!(!rf.cond_install_snapshot(2, 50));
    // the same term, a lower index
    assert!(!rf.cond_install_snapshot(3, 9));
    // the very same snapshot
    assert!(!rf.cond_install_snapshot(3, 10));
    // a newer term that reaches no further
    assert!(!rf.cond_install_snapshot(4, 10));
    assert_eq!(rf.last_included_index(), 10);
    assert_eq!(rf.last_included_term(), 3);
    assert_eq!(rf.last_log_index_logical(), 12);
    // the same term, further on
    assert!(rf.cond_install_snapshot(3, 11));
    assert_eq!(rf.last_included_index(), 11);
    assert_eq!(rf.last_log_index_logical(), 12);
    // a newer term, further on
    assert!(rf.cond_install_snapshot(4, 30));
    assert_eq!(rf.last_included_index(), 30);
    assert_eq!(rf.last_included_term(), 4);
    assert_eq!(rf.last_log_index_logical(), 30);
    assert_eq!(rf.commit_index(), 30);
}

#[test]
fn a_follower_hands_a_snapshot_to_the_service() {
    let mut rf = compacted(1, 2, (0, 0), &[1]);
    let (reply, effects) = rf.install_snapshot_handler(InstallSnapshotArgs {
        term: 3,
        leader_id: 0,
        last_included_index: 40,
        last_included_term: 2,
        rb: vec![7, 7, 7],
    });
    assert_eq!(reply, InstallSnapshotReply { term: 3 });
    assert_eq!(
        effects,
        Effects {
            persist: true,
            reset_timer: true,
            heartbeat: false,
            applies: vec![ApplyMsg::Snapshot { data: vec![7, 7, 7], term: 2, index: 40 }],
            sends: vec![],
        }
    );
    assert_eq!(rf.term(), 3);
    assert_eq!(rf.commit_index(), 40);
    assert_eq!(rf.last_applied(), 40);
    // the log is cut when the service switches over
    assert_eq!(rf.last_included_index(), 0);
    assert!(rf.cond_install_snapshot(2, 40));
    assert_eq!(rf.last_included_index(), 40);
    assert_eq!(rf.last_log_index_logical(), 40);
}

#[test]
fn a_snapshot_of_a_lower_term_is_refused() {
    let mut rf = compacted(1, 5, (0, 0), &[1]);
    let (reply, effects) = rf.install_snapshot_handler(InstallSnapshotArgs {
        term: 4,
        leader_id: 0,
        last_included_index: 40,
        last_included_term: 2,
        rb: vec![1],
    });
    assert_eq!(reply, InstallSnapshotReply { term: 5 });
    assert_eq!(effects, none());
    assert_eq!(rf.commit_index(), 0);
}

#[test]
fn an_old_snapshot_does_not_move_the_commit_index_back() {
    let mut rf = compacted(1, 2, (50, 2), &[]);
    let (_, effects) = rf.install_snapshot_handler(InstallSnapshotArgs {
        term: 2,
        leader_id: 0,
        last_included_index: 40,
        last_included_term: 2,
        rb: vec![],
    });
    assert_eq!(effects.applies.len(), 1);
    assert!(!effects.persist);
    assert_eq!(rf.commit_index(), 50);
    assert_eq!(rf.last_applied(), 50);
}

#[test]
fn a_leader_of_the_same_term_keeps_a_snapshot_to_itself() {
    let mut rf = elected(0, 1, (0, 0), &[1]);
    let (reply, effects) = rf.install_snapshot_handler(InstallSnapshotArgs {
        term: 2,
        leader_id: 1,
        last_included_index: 40,
        last_included_term: 2,
        rb: vec![1],
    });
    assert_eq!(reply, InstallSnapshotReply { term: 2 });
    assert_eq!(effects, none());
    assert!(rf.is_leader());
    assert_eq!(rf.commit_index(), 0);
}

#[test]
fn a_peer_that_lags_behind_the_snapshot_is_sent_the_snapshot() {
    let mut rf = elected(0, 3, (10, 2), &[3, 3]);
    assert_eq!(rf.next_index_of(1), 13);
    // peer 1 turns out to need entries that the snapshot has replaced
    rf.handle_append_entries_reply(
        1,
        13,
        raft::proto::raftpb::AppendEntriesReply { term: 4, success: false, conflict_index: 4 },
    );
    assert_eq!(rf.next_index_of(1), 4);
    assert!(rf.append_entries_args_for(1).is_none());
    assert!(rf.append_entries_args_for(2).is_some());
    let sends = rf.send_heartbeat();
    assert_eq!(sends.len(), 2);
    assert_eq!(sends[0], Outbound::InstallSnapshot { peer: 1, next_index_on_success: 11 });
    match &sends[1] {
        Outbound::AppendEntries { peer, args, next_index_on_success } => {
            assert_eq!(*peer, 2);
            assert_eq!(args.prev_log_index, 12);
            assert_eq!(args.prev_log_term, 3);
            assert!(args.log_entries.is_empty());
            assert_eq!(*next_index_on_success, 13);
        }
        other => panic!("unexpected request {:?}", other),
    }
    let args = rf.install_snapshot_args(vec![5, 6]);
    assert_eq!(
        args,
        InstallSnapshotArgs {
            term: 4,
            leader_id: 0,
            last_included_index: 10,
            last_included_term: 2,
            rb: vec![5, 6],
        }
    );
    // the answer moves the peer right behind the snapshot
    let effects = rf.mux_replies(RepliesFrom::InstallSnapshot(1, 11, InstallSnapshotReply { term: 4 }));
    assert_eq!(effects, none());
    assert_eq!(rf.next_index_of(1), 11);
    let args = rf.append_entries_args_for(1).unwrap();
    assert_eq!(args.prev_log_index, 10);
    assert_eq!(args.prev_log_term, 2);
    assert_eq!(args.log_entries.len(), 2);
}

#[test]
fn the_entry_at_the_snapshot_boundary_can_be_the_previous_one() {
    let mut leader = elected(0, 3, (10, 2), &[3, 3]);
    leader.handle_install_snapshot_reply(1, 11, InstallSnapshotReply { term: 4 });
    let mut peer = compacted(1, 4, (10, 2), &[]);
    let args = leader.append_entries_args_for(1).unwrap();
    let (reply, _) = peer.append_entries_handler(args);
    assert!(reply.success);
    assert_eq!(peer.last_log_index_logical(), 12);
    assert_eq!(peer.log_at_logical(12), leader.log_at_logical(12));
}

#[test]
fn a_peer_behind_its_own_snapshot_has_no_hint() {
    let mut peer = compacted(1, 4, (10, 2), &[3]);
    let (reply, _) = peer.append_entries_handler(AppendEntriesArgs {
        term: 4,
        leader_id: 0,
        prev_log_index: 6,
        prev_log_term: 2,
        log_entries: vec![],
        leader_commit: 0,
    });
    assert!(!reply.success);
    assert_eq!(reply.conflict_index, 0);
}

#[test]
fn a_next_index_beyond_the_log_asks_for_the_snapshot() {
    let mut rf = elected(0, 3, (10, 2), &[3]);
    rf.handle_append_entries_reply(
        1,
        12,
        raft::proto::raftpb::AppendEntriesReply { term: 4, success: false, conflict_index: 30 },
    );
    assert_eq!(rf.next_index_of(1), 30);
    assert!(rf.append_entries_args_for(1).is_none());
    let sends = rf.send_heartbeat();
    assert_eq!(sends[0], Outbound::InstallSnapshot { peer: 1, next_index_on_success: 11 });
}

#[test]
fn a_follower_ignores_answers_to_snapshots_but_adopts_a_higher_term() {
    let mut rf = compacted(0, 3, (0, 0), &[]);
    let effects = rf.handle_install_snapshot_reply(1, 5, InstallSnapshotReply { term: 3 });
    assert_eq!(effects, none());
    assert_eq!(rf.next_index_of(1), 1);
    let effects = rf.handle_install_snapshot_reply(1, 5, InstallSnapshotReply { term: 6 });
    assert!(effects.persist);
    assert_eq!(rf.term(), 6);
    assert_eq!(rf.next_index_of(1), 1);
}
