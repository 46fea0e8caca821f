//! The key/value state machine: it applies the committed commands in log
//! order, each client request at most once, and answers the clients that
//! wait at this peer.

use crate::kvraft::table::{pairs_map, Table};
use crate::proto::kvraftpb::{Op, OpReply, OpReplyView, OpType, OpView};
use crate::raft::errors::Error;
use crate::raft::{Effects, Raft};
use std::collections::HashMap;
use vstd::prelude::*;
use vstd::string::StringExecFns;

verus! {

broadcast use vstd::std_specs::hash::group_hash_axioms;

/// The error text for a client whose command was committed under another
/// leadership than the one that accepted it.
pub open spec fn stale_term() -> Seq<char> {
    "STALE TERM"@
}

/// The state of the key/value service.
pub struct KvView {
    /// The value of each key that has one.
    pub kv_store: Map<Seq<char>, Seq<char>>,
    /// For each client, the highest request number applied.
    pub max_reqno_map: Map<Seq<char>, u64>,
    /// For each log index at which a client waits, the term in which its
    /// command went into the log.
    pub waiters: Map<u64, u64>,
    /// The log index of the last message applied.
    pub last_applied_index: u64,
}

/// The highest request number applied for client `name`; 0 for a client
/// not seen.
pub open spec fn max_reqno(max_reqno_map: Map<Seq<char>, u64>, name: Seq<char>) -> u64 {
    if max_reqno_map.contains_key(name) {
        max_reqno_map[name]
    } else {
        0
    }
}

/// The value of `key`; empty for a key without one.
pub open spec fn value_of(kv_store: Map<Seq<char>, Seq<char>>, key: Seq<char>) -> Seq<char> {
    if kv_store.contains_key(key) {
        kv_store[key]
    } else {
        Seq::empty()
    }
}

impl KvView {
    /// Whether `op` repeats or precedes a request of its client that was
    /// applied.
    pub open spec fn is_dup(self, op: OpView) -> bool {
        op.reqno <= max_reqno(self.max_reqno_map, op.name)
    }

    /// The request numbers after `op` was seen: its client's number is the
    /// higher of the one on record and the command's.
    pub open spec fn reqnos_after(self, op: OpView) -> Map<Seq<char>, u64> {
        self.max_reqno_map.insert(
            op.name,
            if self.is_dup(op) {
                max_reqno(self.max_reqno_map, op.name)
            } else {
                op.reqno
            },
        )
    }

    /// The store after `op`: a put binds the key, an append extends its
    /// value, each only when the request is new; a get changes nothing.
    pub open spec fn store_after(self, op: OpView) -> Map<Seq<char>, Seq<char>> {
        if self.is_dup(op) {
            self.kv_store
        } else {
            match op.op_type {
                OpType::Put => self.kv_store.insert(op.key, op.value),
                OpType::Append => self.kv_store.insert(
                    op.key,
                    value_of(self.kv_store, op.key) + op.value,
                ),
                OpType::Get => self.kv_store,
            }
        }
    }

    /// The value that `op` reports: for a get the key's value, else
    /// nothing.
    pub open spec fn value_read(self, op: OpView) -> Seq<char> {
        match op.op_type {
            OpType::Get => value_of(self.kv_store, op.key),
            _ => Seq::empty(),
        }
    }

    /// The state after the command `op` at log index `index` was applied.
    pub open spec fn command_applied(self, op: OpView, index: u64) -> KvView {
        KvView {
            kv_store: self.store_after(op),
            max_reqno_map: self.reqnos_after(op),
            waiters: self.waiters.remove(index),
            last_applied_index: index,
        }
    }

    /// What the client that waits at `index`, if there is one, is told
    /// when `op` is applied there while the peer is in `current_term`:
    /// the outcome if its command went into the log in that term, else
    /// that it should turn to another peer.
    pub open spec fn delivery(self, op: OpView, index: u64, current_term: u64) -> Option<
        OpReplyView,
    > {
        if !self.waiters.contains_key(index) {
            None
        } else if self.waiters[index] == current_term {
            Some(
                OpReplyView {
                    wrong_leader: false,
                    err: Seq::empty(),
                    value: self.value_read(op),
                },
            )
        } else {
            Some(
                OpReplyView { wrong_leader: true, err: stale_term(), value: self.value_read(op) },
            )
        }
    }

    /// The state after a snapshot with these contents, which reaches up
    /// to log index `index`, took the place of the store.
    pub open spec fn snapshot_installed(
        self,
        kv_store: Map<Seq<char>, Seq<char>>,
        max_reqno_map: Map<Seq<char>, u64>,
        index: u64,
    ) -> KvView {
        KvView { kv_store, max_reqno_map, last_applied_index: index, ..self }
    }
}

/// What a snapshot of the service holds.
#[derive(Debug, PartialEq, Eq)]
pub struct KvSnapshot {
    /// The keys with their values.
    pub kv_store: Vec<(String, String)>,
    /// The clients with their highest request numbers applied.
    pub max_reqno_map: Vec<(String, u64)>,
}

/// The pairs of a list of keys and values.
pub open spec fn store_pairs(list: Seq<(String, String)>) -> Seq<(Seq<char>, Seq<char>)> {
    list.map_values(|e: (String, String)| (e.0@, e.1@))
}

/// The pairs of a list of clients and request numbers.
pub open spec fn reqno_pairs(list: Seq<(String, u64)>) -> Seq<(Seq<char>, u64)> {
    list.map_values(|e: (String, u64)| (e.0@, e.1))
}

impl KvSnapshot {
    /// The value of each key, as the snapshot has it.
    pub open spec fn store(&self) -> Map<Seq<char>, Seq<char>> {
        pairs_map(store_pairs(self.kv_store@))
    }

    /// The highest request number of each client, as the snapshot has it.
    pub open spec fn reqnos(&self) -> Map<Seq<char>, u64> {
        pairs_map(reqno_pairs(self.max_reqno_map@))
    }
}

/// A message from the consensus module, with its command decoded.
#[derive(Debug, PartialEq, Eq)]
pub enum Applied {
    /// The committed command at `index`.
    Command { op: Op, index: u64 },
    /// A snapshot that covers the log up to and including `index`.
    Snapshot { state: KvSnapshot, term: u64, index: u64 },
}

/// The key/value server of one peer.
pub struct KvServer {
    me: usize,
    /// Snapshot when the stored consensus state grows beyond this size.
    maxraftstate: Option<usize>,
    last_applied_index: u64,
    kv_store: Table<String>,
    max_reqno_map: Table<u64>,
    /// For each log index at which a client waits, the term in which its
    /// command went into the log.
    event_signal_map: HashMap<u64, u64>,
}

impl View for KvServer {
    type V = KvView;

    closed spec fn view(&self) -> KvView {
        KvView {
            kv_store: self.kv_store@,
            max_reqno_map: self.max_reqno_map@,
            waiters: self.event_signal_map@,
            last_applied_index: self.last_applied_index,
        }
    }
}

impl KvServer {
    /// The invariant of a server.
    pub closed spec fn wf(&self) -> bool {
        self.kv_store.wf() && self.max_reqno_map.wf()
    }

    /// A server with an empty store, for the peer with index `me`. With a
    /// `maxraftstate`, the server asks for a snapshot when the stored
    /// consensus state is larger than that.
    pub fn new(me: usize, maxraftstate: Option<usize>) -> (kv: KvServer)
        ensures
            kv.wf(),
            kv@ == (KvView {
                kv_store: Map::empty(),
                max_reqno_map: Map::empty(),
                waiters: Map::empty(),
                last_applied_index: 0,
            }),
    {
        KvServer {
            me,
            maxraftstate,
            last_applied_index: 0,
            kv_store: Table::new(),
            max_reqno_map: Table::new(),
            event_signal_map: HashMap::new(),
        }
    }

    /// The value of `key`; empty for a key without one.
    pub fn value_of(&self, key: &String) -> (value: String)
        requires
            self.wf(),
        ensures
            value@ == value_of(self@.kv_store, key@),
    {
        match self.kv_store.get(key) {
            Some(v) => v.clone(),
            None => String::new(),
        }
    }

    /// Whether `op` repeats or precedes a request of its client that was
    /// applied. The client's request number is brought up to the
    /// command's.
    pub fn is_dup(&mut self, op: &Op) -> (dup: bool)
        requires
            old(self).wf(),
        ensures
            final(self).wf(),
            dup == old(self)@.is_dup(op@),
            final(self)@ == (KvView { max_reqno_map: old(self)@.reqnos_after(op@), ..old(self)@ }),
    {
        let largest_reqno: u64 = match self.max_reqno_map.get(&op.name) {
            Some(n) => *n,
            None => 0,
        };
        if op.reqno > largest_reqno {
            self.max_reqno_map.insert(op.name.clone(), op.reqno);
            false
        } else {
            self.max_reqno_map.insert(op.name.clone(), largest_reqno);
            true
        }
    }

    /// Applies the command `op`, which the log holds at `index`, while the
    /// peer is in `current_term`.
    ///
    /// A put or an append takes effect unless its client's request number
    /// shows that it was applied before; a get reads the key's value. The
    /// result is what to tell the client that waits at `index`, if there
    /// is one: the outcome, if its command went into the log in the
    /// current term; else that it should turn to another peer, because
    /// the entry at `index` may be another peer's.
    pub fn apply_command(&mut self, op: Op, index: u64, current_term: u64) -> (delivery: Option<
        OpReply,
    >)
        requires
            old(self).wf(),
        ensures
            final(self).wf(),
            final(self)@ == old(self)@.command_applied(op@, index),
            match delivery {
                Some(reply) => old(self)@.delivery(op@, index, current_term) == Some(reply@),
                None => old(self)@.delivery(op@, index, current_term) is None,
            },
    {
        let mut reply = OpReply { wrong_leader: false, err: String::new(), value: String::new() };
        let is_dup = self.is_dup(&op);
        match op.op_type {
            OpType::Put => {
                if !is_dup {
                    self.kv_store.insert(op.key, op.value);
                }
            },
            OpType::Append => {
                if !is_dup {
                    let mut value = self.value_of(&op.key);
                    value.append(op.value.as_str());
                    self.kv_store.insert(op.key, value);
                }
            },
            OpType::Get => {
                reply.value = self.value_of(&op.key);
            },
        }
        self.last_applied_index = index;
        match self.event_signal_map.remove(&index) {
            Some(term) => {
                if term != current_term {
                    reply.wrong_leader = true;
                    reply.err = "STALE TERM".to_owned();
                }
                Some(reply)
            },
            None => None,
        }
    }

    /// Puts the contents of a snapshot, which reaches up to log index
    /// `index`, in the place of the store and of the request numbers.
    /// The waiting clients stay.
    pub fn apply_snapshot(&mut self, state: KvSnapshot, index: u64)
        requires
            old(self).wf(),
        ensures
            final(self).wf(),
            final(self)@ == old(self)@.snapshot_installed(
                state.store(),
                state.reqnos(),
                index,
            ),
    {
        self.kv_store.clear();
        let mut i: usize = 0;
        while i < state.kv_store.len()
            invariant
                i <= state.kv_store.len(),
                self.kv_store.wf(),
                self.max_reqno_map == old(self).max_reqno_map,
                self.event_signal_map == old(self).event_signal_map,
                self.kv_store@ == pairs_map(
                    store_pairs(state.kv_store@).take(i as int),
                ),
            decreases state.kv_store.len() - i,
        {
            let key = state.kv_store[i].0.clone();
            let value = state.kv_store[i].1.clone();
            self.kv_store.insert(key, value);
            proof {
                let pairs = store_pairs(state.kv_store@);
                assert(pairs.take(i + 1).drop_last() =~= pairs.take(i as int));
            }
            i += 1;
        }
        assert(store_pairs(state.kv_store@).take(i as int) =~= store_pairs(state.kv_store@));
        self.max_reqno_map.clear();
        let mut j: usize = 0;
        while j < state.max_reqno_map.len()
            invariant
                j <= state.max_reqno_map.len(),
                self.max_reqno_map.wf(),
                self.kv_store.wf(),
                self.kv_store@ == state.store(),
                self.event_signal_map == old(self).event_signal_map,
                self.max_reqno_map@ == pairs_map(
                    reqno_pairs(state.max_reqno_map@).take(j as int),
                ),
            decreases state.max_reqno_map.len() - j,
        {
            let name = state.max_reqno_map[j].0.clone();
            let reqno = state.max_reqno_map[j].1;
            self.max_reqno_map.insert(name, reqno);
            proof {
                let pairs = reqno_pairs(state.max_reqno_map@);
                assert(pairs.take(j + 1).drop_last() =~= pairs.take(j as int));
            }
            j += 1;
        }
        assert(reqno_pairs(state.max_reqno_map@).take(j as int) =~= reqno_pairs(
            state.max_reqno_map@,
        ));
        self.last_applied_index = index;
    }

    /// Hands `command`, the bytes of a client's command, to the consensus
    /// module `rf`, and notes that a client waits for the outcome at the
    /// index that the command got. Only a leader takes a command.
    pub fn replicate(&mut self, rf: &mut Raft, command: Vec<u8>) -> (out: (
        Result<u64, Error>,
        Effects,
    ))
        requires
            old(self).wf(),
            old(rf).wf(),
            old(rf)@.last_log_index() + 1 < u64::MAX,
        ensures
            final(self).wf(),
            final(rf).wf(),
            final(rf)@ == old(rf)@.start_step(command@).state,
            out.1@ == old(rf)@.start_step(command@).effects,
            match out.0 {
                Ok(index) => {
                    &&& old(rf)@.start_step(command@).reply == Ok::<(u64, u64), Error>(
                        (index, old(rf)@.term),
                    )
                    &&& final(self)@ == (KvView {
                        waiters: old(self)@.waiters.insert(index, old(rf)@.term),
                        ..old(self)@
                    })
                },
                Err(e) => {
                    &&& old(rf)@.start_step(command@).reply == Err::<(u64, u64), Error>(e)
                    &&& final(self)@ == old(self)@
                },
            },
    {
        let (started, effects) = rf.start(command);
        match started {
            Ok((index, term)) => {
                self.event_signal_map.insert(index, term);
                (Ok(index), effects)
            },
            Err(e) => (Err(e), effects),
        }
    }

    /// The contents of the service, to be stored as a snapshot.
    pub fn snapshot(&self) -> (state: KvSnapshot)
        requires
            self.wf(),
        ensures
            state.store() == self@.kv_store,
            state.reqnos()
                == self@.max_reqno_map,
    {
        let mut kv_store: Vec<(String, String)> = Vec::new();
        let mut i: usize = 0;
        while i < self.kv_store.len()
            invariant
                i <= self.kv_store.pairs().len(),
                kv_store.len() == i,
                forall|k: int|
                    0 <= k < i ==> (#[trigger] kv_store[k]).0@ == self.kv_store.pairs()[k].0
                        && kv_store[k].1@ == self.kv_store.pairs()[k].1,
            decreases self.kv_store.pairs().len() - i,
        {
            kv_store.push((self.kv_store.key_at(i).clone(), self.kv_store.value_at(i).clone()));
            i += 1;
        }
        assert(store_pairs(kv_store@) =~= self.kv_store.pairs());
        let mut max_reqno_map: Vec<(String, u64)> = Vec::new();
        let mut j: usize = 0;
        while j < self.max_reqno_map.len()
            invariant
                j <= self.max_reqno_map.pairs().len(),
                max_reqno_map.len() == j,
                forall|k: int|
                    0 <= k < j ==> (#[trigger] max_reqno_map[k]).0@
                        == self.max_reqno_map.pairs()[k].0 && max_reqno_map[k].1
                        == self.max_reqno_map.pairs()[k].1,
            decreases self.max_reqno_map.pairs().len() - j,
        {
            max_reqno_map.push(
                (self.max_reqno_map.key_at(j).clone(), *self.max_reqno_map.value_at(j)),
            );
            j += 1;
        }
        assert(reqno_pairs(max_reqno_map@) =~= self.max_reqno_map.pairs());
        KvSnapshot { kv_store, max_reqno_map }
    }

    /// Whether it is time for a snapshot, the stored consensus state
    /// having `raft_state_size` bytes: when a limit was set and the size
    /// is beyond it.
    pub fn should_snapshot(&self, raft_state_size: usize) -> (b: bool)
        ensures
            b == match self.maxraftstate() {
                Some(limit) => raft_state_size > limit,
                None => false,
            },
    {
        match self.maxraftstate {
            Some(limit) => raft_state_size > limit,
            None => false,
        }
    }

    /// The size of the stored consensus state beyond which the server asks
    /// for a snapshot, if there is a limit.
    pub closed spec fn maxraftstate(&self) -> Option<usize> {
        self.maxraftstate
    }

    /// The index of the peer that this server belongs to.
    pub closed spec fn me(&self) -> usize {
        self.me
    }

    /// The index of the peer that this server belongs to.
    pub fn peer(&self) -> (me: usize)
        ensures
            me == self.me(),
    {
        self.me
    }

    /// The log index of the last message applied; 0 before the first.
    pub fn last_applied_index(&self) -> (index: u64)
        ensures
            index == self@.last_applied_index,
    {
        self.last_applied_index
    }

    /// The highest request number applied for client `name`; 0 for a
    /// client not seen.
    pub fn max_reqno_of(&self, name: &String) -> (reqno: u64)
        requires
            self.wf(),
        ensures
            reqno == max_reqno(self@.max_reqno_map, name@),
    {
        match self.max_reqno_map.get(name) {
            Some(n) => *n,
            None => 0,
        }
    }

    /// The term in which the command of the client that waits at `index`
    /// went into the log, if a client waits there.
    pub fn waiter_at(&self, index: u64) -> (term: Option<u64>)
        ensures
            term == if self@.waiters.contains_key(index) {
                Some(self@.waiters[index])
            } else {
                None
            },
    {
        match self.event_signal_map.get(&index) {
            Some(t) => Some(*t),
            None => None,
        }
    }

    /// Applies one message of the consensus module while the peer is in
    /// `current_term`: a command as [`KvServer::apply_command`] does, a
    /// snapshot as [`KvServer::apply_snapshot`] does. Only a command has
    /// a client to answer.
    pub fn apply(&mut self, msg: Applied, current_term: u64) -> (delivery: Option<OpReply>)
        requires
            old(self).wf(),
        ensures
            final(self).wf(),
            match msg {
                Applied::Command { op, index } => {
                    &&& final(self)@ == old(self)@.command_applied(op@, index)
                    &&& match delivery {
                        Some(reply) => old(self)@.delivery(op@, index, current_term) == Some(
                            reply@,
                        ),
                        None => old(self)@.delivery(op@, index, current_term) is None,
                    }
                },
                Applied::Snapshot { state, term, index } => {
                    &&& final(self)@ == old(self)@.snapshot_installed(
                        state.store(),
                        state.reqnos(),
                        index,
                    )
                    &&& delivery is None
                },
            },
    {
        match msg {
            Applied::Command { op, index } => self.apply_command(op, index, current_term),
            Applied::Snapshot { state, term, index } => {
                self.apply_snapshot(state, index);
                None
            },
        }
    }
}

} // verus!
