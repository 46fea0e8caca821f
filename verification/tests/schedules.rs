use std::collections::HashMap;

use raft::proto::raftpb::{
    AppendEntriesArgs, AppendEntriesReply, InstallSnapshotArgs, InstallSnapshotReply, LogEntry,
    RaftNonVolatileState, RequestVoteArgs, RequestVoteReply,
};
use raft::raft::{Actions, ApplyMsg, Effects, Outbound, Raft, RepliesFrom};

/// A small generator of numbers, so that every run is the same.
struct Dice(u64);

impl Dice {
    fn roll(&mut self, sides: u64) -> u64 {
        self.0 = self.0.wrapping_mul(6364136223846793005).wrapping_add(1442695040888963407);
        (self.0 >> 33) % sides
    }
}

enum Letter {
    Vote { from: usize, to: usize, args: RequestVoteArgs },
    Append { from: usize, to: usize, args: AppendEntriesArgs, next: u64 },
    Install { from: usize, to: usize, args: InstallSnapshotArgs, next: u64 },
    VoteAnswer { to: usize, from: u64, reply: RequestVoteReply },
    AppendAnswer { to: usize, from: u64, next: u64, reply: AppendEntriesReply },
    InstallAnswer { to: usize, from: u64, next: u64, reply: InstallSnapshotReply },
    Offer { to: usize, data: Vec<u8>, term: u64, index: u64 },
}

fn copy_entries(entries: &[LogEntry]) -> Vec<LogEntry> {
    entries.iter().map(|e| LogEntry { term: e.term, rb: e.rb.clone() }).collect()
}

fn copy_letter(letter: &Letter) -> Letter {
    match letter {
        Letter::Vote { from, to, args } => Letter::Vote { from: *from, to: *to, args: *args },
        Letter::Append { from, to, args, next } => Letter::Append {
            from: *from,
            to: *to,
            args: AppendEntriesArgs {
                term: args.term,
                leader_id: args.leader_id,
                prev_log_index: args.prev_log_index,
                prev_log_term: args.prev_log_term,
                log_entries: copy_entries(&args.log_entries),
                leader_commit: args.leader_commit,
            },
            next: *next,
        },
        Letter::Install { from, to, args, next } => Letter::Install {
            from: *from,
            to: *to,
            args: InstallSnapshotArgs {
                term: args.term,
                leader_id: args.leader_id,
                last_included_index: args.last_included_index,
                last_included_term: args.last_included_term,
                rb: args.rb.clone(),
            },
            next: *next,
        },
        Letter::VoteAnswer { to, from, reply } => {
            Letter::VoteAnswer { to: *to, from: *from, reply: *reply }
        }
        Letter::AppendAnswer { to, from, next, reply } => {
            Letter::AppendAnswer { to: *to, from: *from, next: *next, reply: *reply }
        }
        Letter::InstallAnswer { to, from, next, reply } => {
            Letter::InstallAnswer { to: *to, from: *from, next: *next, reply: *reply }
        }
        Letter::Offer { to, data, term, index } => {
            Letter::Offer { to: *to, data: data.clone(), term: *term, index: *index }
        }
    }
}

struct World {
    peers: Vec<Raft>,
    disks: Vec<RaftNonVolatileState>,
    snapshots: Vec<Vec<u8>>,
    applied_up_to: Vec<u64>,
    mail: Vec<Letter>,
    /// For each term, the peer that led in it.
    leaders: HashMap<u64, usize>,
    /// For each index, the command that was delivered there.
    delivered: HashMap<u64, Vec<u8>>,
    commands: u64,
}

impl World {
    fn new(n: usize) -> World {
        let peers: Vec<Raft> = (0..n).map(|i| Raft::new(n, i, None)).collect();
        let disks = peers.iter().map(|p| p.pack_nvstate()).collect();
        World {
            peers,
            disks,
            snapshots: vec![vec![]; n],
            applied_up_to: vec![0; n],
            mail: vec![],
            leaders: HashMap::new(),
            delivered: HashMap::new(),
            commands: 0,
        }
    }

    fn perform(&mut self, at: usize, effects: Effects) {
        if effects.persist {
            self.disks[at] = self.peers[at].pack_nvstate();
        }
        // whatever changed was to be stored
        assert_eq!(self.disks[at], self.peers[at].pack_nvstate());
        for msg in effects.applies {
            match msg {
                ApplyMsg::Command { data, index } => {
                    // one message per index, in order
                    assert_eq!(index, self.applied_up_to[at] + 1);
                    self.applied_up_to[at] = index;
                    // the command that the log holds there
                    assert_eq!(self.peers[at].data_at_logical(index), Some(data.clone()));
                    // and the command that every peer delivers there
                    let known = self.delivered.entry(index).or_insert_with(|| data.clone());
                    assert_eq!(*known, data, "two commands at index {}", index);
                }
                ApplyMsg::Snapshot { data, term, index } => {
                    self.mail.push(Letter::Offer { to: at, data, term, index });
                }
            }
        }
        for out in effects.sends {
            match out {
                Outbound::RequestVote { peer, args } => {
                    self.mail.push(Letter::Vote { from: at, to: peer as usize, args });
                }
                Outbound::AppendEntries { peer, args, next_index_on_success } => {
                    self.mail.push(Letter::Append {
                        from: at,
                        to: peer as usize,
                        args,
                        next: next_index_on_success,
                    });
                }
                Outbound::InstallSnapshot { peer, next_index_on_success } => {
                    let args = self.peers[at].install_snapshot_args(self.snapshots[at].clone());
                    self.mail.push(Letter::Install {
                        from: at,
                        to: peer as usize,
                        args,
                        next: next_index_on_success,
                    });
                }
            }
        }
        if effects.heartbeat {
            let more = self.peers[at].mux_actions(Actions::SendHeartbeat);
            self.perform(at, more);
        }
    }

    fn open(&mut self, letter: Letter) {
        match letter {
            Letter::Vote { from, to, args } => {
                let (reply, effects) = self.peers[to].request_vote_handler(args);
                self.perform(to, effects);
                self.mail.push(Letter::VoteAnswer { to: from, from: to as u64, reply });
            }
            Letter::Append { from, to, args, next } => {
                let (reply, effects) = self.peers[to].append_entries_handler(args);
                self.perform(to, effects);
                self.mail.push(Letter::AppendAnswer { to: from, from: to as u64, next, reply });
            }
            Letter::Install { from, to, args, next } => {
                let (reply, effects) = self.peers[to].install_snapshot_handler(args);
                self.perform(to, effects);
                self.mail.push(Letter::InstallAnswer { to: from, from: to as u64, next, reply });
            }
            Letter::VoteAnswer { to, from, reply } => {
                let effects = self.peers[to].mux_replies(RepliesFrom::RequestVote(from, reply));
                self.perform(to, effects);
            }
            Letter::AppendAnswer { to, from, next, reply } => {
                let effects =
                    self.peers[to].mux_replies(RepliesFrom::AppendEntries(from, next, reply));
                self.perform(to, effects);
            }
            Letter::InstallAnswer { to, from, next, reply } => {
                let effects =
                    self.peers[to].mux_replies(RepliesFrom::InstallSnapshot(from, next, reply));
                self.perform(to, effects);
            }
            Letter::Offer { to, data, term, index } => {
                if self.peers[to].cond_install_snapshot(term, index) {
                    self.snapshots[to] = data;
                    self.disks[to] = self.peers[to].pack_nvstate();
                    self.applied_up_to[to] = self.peers[to].last_applied();
                }
            }
        }
    }

    fn step(&mut self, dice: &mut Dice, with_snapshots: bool) {
        let n = self.peers.len();
        let at = dice.roll(n as u64) as usize;
        match dice.roll(20) {
            0 => {
                let effects = self.peers[at].mux_actions(Actions::StartElection);
                self.perform(at, effects);
            }
            1..=3 => {
                let effects = self.peers[at].mux_actions(Actions::SendHeartbeat);
                self.perform(at, effects);
            }
            4..=5 => {
                self.commands += 1;
                let command = self.commands.to_le_bytes().to_vec();
                let (_, effects) = self.peers[at].start(command);
                self.perform(at, effects);
            }
            6 => {
                // a letter is lost
                if !self.mail.is_empty() {
                    let k = dice.roll(self.mail.len() as u64) as usize;
                    self.mail.swap_remove(k);
                }
            }
            7 => {
                // a letter arrives, and will arrive again
                if !self.mail.is_empty() {
                    let k = dice.roll(self.mail.len() as u64) as usize;
                    let copy = copy_letter(&self.mail[k]);
                    self.open(copy);
                }
            }
            8 => {
                // a peer crashes and starts again from what it stored
                let stored = self.peers[at].pack_nvstate();
                assert_eq!(stored, self.disks[at]);
                self.peers[at] = Raft::new(n, at, Some(stored));
                self.applied_up_to[at] = self.peers[at].last_applied();
            }
            9 => {
                // the service makes a snapshot of what it has applied
                let index = self.applied_up_to[at];
                if with_snapshots && index > self.peers[at].last_included_index() {
                    let term = self.peers[at].term_at_logical(index).unwrap();
                    if self.peers[at].snapshot(index, term) {
                        self.snapshots[at] = index.to_le_bytes().to_vec();
                        self.disks[at] = self.peers[at].pack_nvstate();
                    }
                }
            }
            _ => {
                // a letter arrives, in any order
                if !self.mail.is_empty() {
                    let k = dice.roll(self.mail.len() as u64) as usize;
                    let letter = self.mail.swap_remove(k);
                    self.open(letter);
                }
            }
        }
        if self.mail.len() > 400 {
            self.mail.drain(0..200);
        }
        self.check();
    }

    fn check(&mut self) {
        let n = self.peers.len();
        for p in 0..n {
            let rf = &self.peers[p];
            assert!(rf.last_included_index() <= rf.last_applied());
            assert!(rf.last_applied() <= rf.commit_index());
            if rf.is_leader() {
                // no term has two leaders
                let known = *self.leaders.entry(rf.term()).or_insert(p);
                assert_eq!(known, p, "two leaders in term {}", rf.term());
            }
        }
        // logs that agree somewhere agree everywhere before
        for p in 0..n {
            for q in p + 1..n {
                let a = &self.peers[p];
                let b = &self.peers[q];
                let low = a.last_included_index().max(b.last_included_index()) + 1;
                let high = a.last_log_index_logical().min(b.last_log_index_logical());
                let mut i = high;
                while i >= low {
                    if a.term_at_logical(i) == b.term_at_logical(i) {
                        for j in low..=i {
                            assert_eq!(a.log_at_logical(j), b.log_at_logical(j), "logs differ at {}", j);
                        }
                        break;
                    }
                    i -= 1;
                }
            }
        }
    }
}

fn run(seed: u64, peers: usize, steps: usize, with_snapshots: bool) -> World {
    let mut dice = Dice(seed);
    let mut world = World::new(peers);
    for _ in 0..steps {
        world.step(&mut dice, with_snapshots);
    }
    world
}

#[test]
fn random_schedules_of_three_peers_keep_the_cluster_safe() {
    let mut committed = 0;
    for seed in 0..40 {
        let world = run(seed, 3, 3000, false);
        committed += world.delivered.len();
    }
    assert!(committed > 100);
}

#[test]
fn random_schedules_of_five_peers_keep_the_cluster_safe() {
    let mut committed = 0;
    for seed in 100..120 {
        let world = run(seed, 5, 3000, false);
        committed += world.delivered.len();
    }
    assert!(committed > 50);
}

#[test]
fn random_schedules_with_snapshots_keep_the_cluster_safe() {
    let mut committed = 0;
    let mut compacted = 0;
    for seed in 200..240 {
        let world = run(seed, 3, 3000, true);
        committed += world.delivered.len();
        compacted += world.peers.iter().filter(|p| p.last_included_index() > 0).count();
    }
    assert!(committed > 100);
    assert!(compacted > 0);
}
