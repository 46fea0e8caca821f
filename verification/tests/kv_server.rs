use raft::kvraft::server::{Applied, KvServer, KvSnapshot};
use raft::kvraft::table::Table;
use raft::proto::kvraftpb::{
    GetReply, GetRequest, Op, OpReply, OpType, PutAppendReply, PutAppendRequest, OP_APPEND, OP_PUT,
};
use raft::proto::raftpb::RequestVoteReply;
use raft::raft::errors::Error;
use raft::raft::Raft;

fn text(s: &str) -> String {
    s.to_string()
}

fn op(op_type: OpType, key: &str, value: &str, name: &str, reqno: u64) -> Op {
    Op { op_type, key: text(key), value: text(value), name: text(name), reqno }
}

fn put(key: &str, value: &str, name: &str, reqno: u64) -> Op {
    op(OpType::Put, key, value, name, reqno)
}

fn append(key: &str, value: &str, name: &str, reqno: u64) -> Op {
    op(OpType::Append, key, value, name, reqno)
}

fn get(key: &str, name: &str, reqno: u64) -> Op {
    op(OpType::Get, key, "", name, reqno)
}

fn ok(value: &str) -> OpReply {
    OpReply { wrong_leader: false, err: String::new(), value: text(value) }
}

#[test]
fn put_get_append_get_is_linearizable() {
    let mut kv = KvServer::new(0, None);
    kv.apply_command(put("x", "1", "C1", 1), 1, 1);
    assert_eq!(kv.value_of(&text("x")), "1");
    kv.apply_command(get("x", "C1", 2), 2, 1);
    kv.apply_command(append("x", "y", "C1", 3), 3, 1);
    assert_eq!(kv.value_of(&text("x")), "1y");
    assert_eq!(kv.max_reqno_of(&text("C1")), 3);
    assert_eq!(kv.last_applied_index(), 3);
}

#[test]
fn waiting_clients_get_the_outcome_of_their_command() {
    let mut kv = KvServer::new(0, None);
    let mut rf = Raft::new(3, 0, None);
    rf.start_election();
    rf.handle_request_vote_reply(1, RequestVoteReply { term: 1, granted: true });
    let mut answers = vec![];
    let ops = vec![put("x", "1", "C1", 1), get("x", "C1", 2), append("x", "y", "C1", 3), get("x", "C1", 4)];
    for (k, o) in ops.into_iter().enumerate() {
        let (index, effects) = kv.replicate(&mut rf, vec![k as u8]);
        assert_eq!(index, Ok(k as u64 + 1));
        assert!(effects.persist && effects.reset_timer && effects.heartbeat);
        assert_eq!(kv.waiter_at(k as u64 + 1), Some(1));
        answers.push(kv.apply(Applied::Command { op: o, index: k as u64 + 1 }, rf.term()));
        assert_eq!(kv.waiter_at(k as u64 + 1), None);
    }
    assert_eq!(answers, vec![Some(ok("")), Some(ok("1")), Some(ok("")), Some(ok("1y"))]);
}

#[test]
fn a_peer_that_does_not_lead_takes_no_command() {
    let mut kv = KvServer::new(1, None);
    let mut rf = Raft::new(3, 1, None);
    let (result, effects) = kv.replicate(&mut rf, vec![1]);
    assert_eq!(result, Err(Error::NotLeader));
    assert!(!effects.persist);
    assert_eq!(kv.waiter_at(1), None);
    assert_eq!(rf.last_log_index_logical(), 0);
}

#[test]
fn nobody_is_answered_where_nobody_waits() {
    let mut kv = KvServer::new(2, None);
    assert_eq!(kv.apply_command(put("a", "b", "C", 1), 1, 4), None);
    assert_eq!(kv.apply_command(get("a", "C", 2), 2, 4), None);
    assert_eq!(kv.value_of(&text("a")), "b");
}

#[test]
fn a_repeated_append_takes_effect_once() {
    let mut kv = KvServer::new(0, None);
    kv.apply_command(put("k", "v", "C", 6), 1, 1);
    kv.apply_command(append("k", "A", "C", 7), 2, 1);
    for index in 3..6 {
        kv.apply_command(append("k", "A", "C", 7), index, 1);
    }
    assert_eq!(kv.value_of(&text("k")), "vA");
    assert_eq!(kv.max_reqno_of(&text("C")), 7);
}

#[test]
fn a_repeated_put_does_not_undo_what_came_after_it() {
    let mut kv = KvServer::new(0, None);
    kv.apply_command(put("k", "old", "A", 1), 1, 1);
    kv.apply_command(put("k", "new", "B", 1), 2, 1);
    kv.apply_command(put("k", "old", "A", 1), 3, 1);
    assert_eq!(kv.value_of(&text("k")), "new");
}

#[test]
fn a_request_number_that_is_not_higher_is_a_duplicate() {
    let mut kv = KvServer::new(0, None);
    assert!(!kv.is_dup(&put("k", "1", "C", 5)));
    assert_eq!(kv.max_reqno_of(&text("C")), 5);
    assert!(kv.is_dup(&put("k", "2", "C", 5)));
    assert!(kv.is_dup(&put("k", "3", "C", 4)));
    assert_eq!(kv.max_reqno_of(&text("C")), 5);
    assert!(!kv.is_dup(&put("k", "4", "C", 6)));
    assert_eq!(kv.max_reqno_of(&text("C")), 6);
    // clients are told apart by their names
    assert!(!kv.is_dup(&put("k", "5", "D", 1)));
    // request number 0 is the number of no request
    assert!(kv.is_dup(&put("k", "6", "E", 0)));
    assert_eq!(kv.max_reqno_of(&text("E")), 0);
}

#[test]
fn a_request_with_number_zero_is_never_applied() {
    let mut kv = KvServer::new(0, None);
    kv.apply_command(put("k", "v", "C", 0), 1, 1);
    assert_eq!(kv.value_of(&text("k")), "");
}

#[test]
fn a_get_is_answered_even_when_its_number_is_old() {
    let mut kv = KvServer::new(0, None);
    let mut rf = Raft::new(1, 0, None);
    rf.start_election();
    rf.handle_request_vote_reply(0, RequestVoteReply { term: 1, granted: true });
    assert!(rf.is_leader());
    kv.apply_command(put("k", "v", "C", 9), 1, 1);
    kv.replicate(&mut rf, vec![]);
    let answer = kv.apply_command(get("k", "C", 3), 1, 1);
    assert_eq!(answer, Some(ok("v")));
    assert_eq!(kv.max_reqno_of(&text("C")), 9);
}

#[test]
fn a_get_reads_the_empty_string_for_a_missing_key() {
    let mut kv = KvServer::new(0, None);
    assert_eq!(kv.value_of(&text("nothing")), "");
    kv.apply_command(append("fresh", "abc", "C", 1), 1, 1);
    assert_eq!(kv.value_of(&text("fresh")), "abc");
}

#[test]
fn a_waiter_of_an_earlier_term_is_told_to_go_elsewhere() {
    let mut kv = KvServer::new(0, None);
    // a leader of term 5 with 41 entries takes a command at index 42
    let mut rf = Raft::new(
        3,
        0,
        Some(raft::proto::raftpb::RaftNonVolatileState {
            current_term: 4,
            voted_for: None,
            log: (0..41).map(|_| raft::proto::raftpb::LogEntry { term: 1, rb: vec![] }).collect(),
            last_included_index: 0,
            last_included_term: 0,
        }),
    );
    rf.start_election();
    rf.handle_request_vote_reply(1, RequestVoteReply { term: 5, granted: true });
    let (index, _) = kv.replicate(&mut rf, vec![1]);
    assert_eq!(index, Ok(42));
    assert_eq!(kv.waiter_at(42), Some(5));
    // a leader of term 6 puts another command there
    let (_, _) = rf.append_entries_handler(raft::proto::raftpb::AppendEntriesArgs {
        term: 6,
        leader_id: 1,
        prev_log_index: 41,
        prev_log_term: 1,
        log_entries: vec![raft::proto::raftpb::LogEntry { term: 6, rb: vec![2] }],
        leader_commit: 0,
    });
    assert_eq!(rf.term(), 6);
    let answer = kv.apply(Applied::Command { op: put("other", "op", "D", 1), index: 42 }, rf.term());
    assert_eq!(
        answer,
        Some(OpReply { wrong_leader: true, err: text("STALE TERM"), value: String::new() })
    );
    assert_eq!(kv.waiter_at(42), None);
    // the other command did take effect
    assert_eq!(kv.value_of(&text("other")), "op");
}

#[test]
fn a_snapshot_brings_the_store_and_the_request_numbers_back() {
    let mut kv = KvServer::new(0, Some(100));
    kv.apply_command(put("a", "1", "C", 1), 1, 1);
    kv.apply_command(put("b", "2", "D", 4), 2, 1);
    kv.apply_command(append("a", "x", "C", 2), 3, 1);
    let snapshot = kv.snapshot();
    assert_eq!(
        snapshot,
        KvSnapshot {
            kv_store: vec![(text("a"), text("1x")), (text("b"), text("2"))],
            max_reqno_map: vec![(text("C"), 2), (text("D"), 4)],
        }
    );
    let mut restarted = KvServer::new(0, Some(100));
    restarted.apply_command(put("junk", "junk", "Z", 1), 1, 1);
    let answer = restarted.apply(Applied::Snapshot { state: snapshot, term: 1, index: 3 }, 1);
    assert_eq!(answer, None);
    assert_eq!(restarted.value_of(&text("a")), "1x");
    assert_eq!(restarted.value_of(&text("b")), "2");
    assert_eq!(restarted.value_of(&text("junk")), "");
    assert_eq!(restarted.max_reqno_of(&text("C")), 2);
    assert_eq!(restarted.max_reqno_of(&text("D")), 4);
    assert_eq!(restarted.max_reqno_of(&text("Z")), 0);
    assert_eq!(restarted.last_applied_index(), 3);
    assert_eq!(restarted.snapshot(), kv.snapshot());
    // a request from before the snapshot is still known
    restarted.apply_command(append("a", "x", "C", 2), 4, 1);
    assert_eq!(restarted.value_of(&text("a")), "1x");
}

#[test]
fn a_snapshot_with_a_key_twice_keeps_the_later_value() {
    let mut kv = KvServer::new(0, None);
    kv.apply_snapshot(
        KvSnapshot {
            kv_store: vec![(text("k"), text("first")), (text("k"), text("second"))],
            max_reqno_map: vec![(text("C"), 1), (text("C"), 5)],
        },
        9,
    );
    assert_eq!(kv.value_of(&text("k")), "second");
    assert_eq!(kv.max_reqno_of(&text("C")), 5);
    assert_eq!(kv.snapshot().kv_store.len(), 1);
}

#[test]
fn a_snapshot_is_due_when_the_stored_state_passes_the_limit() {
    let kv = KvServer::new(3, Some(1000));
    assert_eq!(kv.peer(), 3);
    assert!(!kv.should_snapshot(999));
    assert!(!kv.should_snapshot(1000));
    assert!(kv.should_snapshot(1001));
    let unlimited = KvServer::new(0, None);
    assert!(!unlimited.should_snapshot(usize::MAX));
}

#[test]
fn requests_become_commands() {
    let op = Op::from_get(GetRequest { key: text("k"), name: text("C"), reqno: 3 });
    assert_eq!(op, get("k", "C", 3));
    let put_op = Op::from_put_append(PutAppendRequest {
        key: text("k"),
        value: text("v"),
        op: OP_PUT,
        name: text("C"),
        reqno: 4,
    });
    assert_eq!(put_op, Some(put("k", "v", "C", 4)));
    let append_op = Op::from_put_append(PutAppendRequest {
        key: text("k"),
        value: text("v"),
        op: OP_APPEND,
        name: text("C"),
        reqno: 5,
    });
    assert_eq!(append_op, Some(append("k", "v", "C", 5)));
    for code in [0, 3, -1] {
        let unknown = Op::from_put_append(PutAppendRequest {
            key: text("k"),
            value: text("v"),
            op: code,
            name: text("C"),
            reqno: 5,
        });
        assert_eq!(unknown, None);
    }
}

#[test]
fn outcomes_become_answers() {
    let reply = OpReply { wrong_leader: true, err: text("STALE TERM"), value: text("v") };
    assert_eq!(
        GetReply::from(reply),
        GetReply { wrong_leader: true, err: text("STALE TERM"), value: text("v") }
    );
    assert_eq!(
        PutAppendReply::from(ok("")),
        PutAppendReply { wrong_leader: false, err: String::new() }
    );
}

#[test]
fn a_table_binds_each_key_once() {
    let mut table: Table<u64> = Table::new();
    assert_eq!(table.len(), 0);
    assert_eq!(table.get(&text("a")), None);
    table.insert(text("a"), 1);
    table.insert(text("b"), 2);
    table.insert(text("a"), 3);
    assert_eq!(table.len(), 2);
    assert_eq!(table.get(&text("a")), Some(&3));
    assert_eq!(table.get(&text("b")), Some(&2));
    assert!(table.contains_key(&text("b")));
    assert!(!table.contains_key(&text("c")));
    assert_eq!(table.key_at(0), "a");
    assert_eq!(*table.value_at(1), 2);
    table.clear();
    assert_eq!(table.len(), 0);
    assert!(!table.contains_key(&text("a")));
}
