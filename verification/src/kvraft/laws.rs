//! What holds of the key/value state machine whatever it is fed.

use crate::kvraft::server::{max_reqno, KvView};
use crate::proto::kvraftpb::OpView;
use vstd::prelude::*;

verus! {

/// The state after the commands `cmds`, each with its log index, were
/// applied in order.
pub open spec fn run(s: KvView, cmds: Seq<(OpView, u64)>) -> KvView
    decreases cmds.len(),
{
    if cmds.len() == 0 {
        s
    } else {
        run(s, cmds.drop_last()).command_applied(cmds.last().0, cmds.last().1)
    }
}

/// The command `op` at each of the log indices `indices`.
pub open spec fn replays(op: OpView, indices: Seq<u64>) -> Seq<(OpView, u64)> {
    indices.map_values(|index: u64| (op, index))
}

/// A client's request number on record never falls, and a client that is
/// on record stays there.
pub proof fn lemma_reqno_never_falls(s: KvView, cmds: Seq<(OpView, u64)>, name: Seq<char>)
    ensures
        max_reqno(run(s, cmds).max_reqno_map, name) >= max_reqno(s.max_reqno_map, name),
        s.max_reqno_map.contains_key(name) ==> run(s, cmds).max_reqno_map.contains_key(name),
    decreases cmds.len(),
{
    if cmds.len() > 0 {
        lemma_reqno_never_falls(s, cmds.drop_last(), name);
    }
}

/// A command that was applied once changes neither the store nor the
/// request numbers when it comes again, whatever was applied in between.
pub proof fn lemma_replay_changes_nothing(
    s: KvView,
    op: OpView,
    index: u64,
    between: Seq<(OpView, u64)>,
    again: u64,
)
    ensures
        ({
            let before = run(s.command_applied(op, index), between);
            let after = before.command_applied(op, again);
            &&& after.kv_store == before.kv_store
            &&& after.max_reqno_map == before.max_reqno_map
        }),
{
    let first = s.command_applied(op, index);
    let before = run(first, between);
    lemma_reqno_never_falls(first, between, op.name);
    assert(first.max_reqno_map.contains_key(op.name));
    assert(before.is_dup(op));
    assert(before.reqnos_after(op) =~= before.max_reqno_map);
}

/// Applying a command again any number of times after the first leaves the
/// store as the first application left it.
pub proof fn lemma_replays_are_idempotent(s: KvView, op: OpView, index: u64, indices: Seq<u64>)
    ensures
        run(s.command_applied(op, index), replays(op, indices)).kv_store == s.command_applied(
            op,
            index,
        ).kv_store,
        run(s.command_applied(op, index), replays(op, indices)).max_reqno_map
            == s.command_applied(op, index).max_reqno_map,
    decreases indices.len(),
{
    if indices.len() > 0 {
        let fewer = indices.drop_last();
        lemma_replays_are_idempotent(s, op, index, fewer);
        assert(replays(op, indices).drop_last() =~= replays(op, fewer));
        lemma_replay_changes_nothing(s, op, index, replays(op, fewer), indices.last());
    }
}

/// A snapshot brings back what it was taken of: a server that installs
/// the contents of `taken_of` has its store and its request numbers, and
/// goes on behind the snapshot's index.
pub proof fn lemma_snapshot_round_trip(taken_of: KvView, installed_on: KvView, index: u64)
    ensures
        ({
            let after = installed_on.snapshot_installed(
                taken_of.kv_store,
                taken_of.max_reqno_map,
                index,
            );
            &&& after.kv_store == taken_of.kv_store
            &&& after.max_reqno_map == taken_of.max_reqno_map
            &&& after.last_applied_index == index
            &&& after.waiters == installed_on.waiters
        }),
{
}

} // verus!
