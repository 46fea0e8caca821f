//! The two timers of a peer: what to do when one of them runs out.
//!
//! The heartbeat timer has a fixed period. The election timer is started
//! with a fresh random timeout every time, so that peers rarely time out
//! together.

use crate::raft::{Actions, HEARTBEAT_INTERVAL, TIMEOUT_MIN};
use rand::Rng;
use vstd::prelude::*;

verus! {

/// What wakes the timer task.
#[derive(PartialEq, Eq, Clone, Copy, Debug, Structural)]
pub enum TimerEvent {
    /// The peer asked for a restart of the election timer.
    Reset,
    /// The heartbeat timer ran out.
    HeartbeatElapsed,
    /// The election timer ran out.
    TimeoutElapsed,
}

/// What the timer task does next.
#[derive(PartialEq, Eq, Clone, Copy, Debug, Structural)]
pub enum TimerCommand {
    /// Start the election timer anew, to run out after so many
    /// milliseconds.
    RestartTimeout(u64),
    /// Hand the action to the peer, and go on with [`after_delivery`].
    Deliver(Actions),
}

/// A timer to start after an action was handed over.
#[derive(PartialEq, Eq, Clone, Copy, Debug, Structural)]
pub enum Rearm {
    /// The heartbeat timer, to run out after so many milliseconds.
    Heartbeat(u64),
    /// The election timer, to run out after so many milliseconds.
    Timeout(u64),
}

/// Whether `ms` is a timeout that the election timer may be started with:
/// not below [`TIMEOUT_MIN`] and below three times as much.
pub open spec fn is_election_timeout(ms: u64) -> bool {
    TIMEOUT_MIN <= ms < 3 * TIMEOUT_MIN
}

/// Draws a number from the range `low .. high` with `rand::Rng::gen_range`
/// on the generator of the running thread (`rand::thread_rng`). Which
/// number comes is left open; it is not below `low` and below `high`.
#[verifier::external_body]
fn gen_range(low: u64, high: u64) -> (n: u64)
    requires
        low < high,
    ensures
        low <= n < high,
{
    rand::thread_rng().gen_range(low, high)
}

/// The delay of the heartbeat timer, in milliseconds.
pub fn rebuild_heartbeat_timer() -> (ms: u64)
    ensures
        ms == HEARTBEAT_INTERVAL,
{
    HEARTBEAT_INTERVAL
}

/// A fresh random delay for the election timer, in milliseconds.
pub fn rebuild_timeout_timer() -> (ms: u64)
    ensures
        is_election_timeout(ms),
{
    gen_range(TIMEOUT_MIN, TIMEOUT_MIN * 3)
}

/// What `event` asks of the timer task, where `fresh_timeout` is the delay
/// for an election timer that is to be started.
pub open spec fn timer_command(event: TimerEvent, fresh_timeout: u64) -> TimerCommand {
    match event {
        TimerEvent::Reset => TimerCommand::RestartTimeout(fresh_timeout),
        TimerEvent::HeartbeatElapsed => TimerCommand::Deliver(Actions::SendHeartbeat),
        TimerEvent::TimeoutElapsed => TimerCommand::Deliver(Actions::StartElection),
    }
}

/// What `event` asks of the timer task, where `fresh_timeout` is the delay
/// for an election timer that is to be started: a reset starts the
/// election timer anew, and a timer that ran out has its action handed to
/// the peer.
pub fn timer_step(event: TimerEvent, fresh_timeout: u64) -> (command: TimerCommand)
    ensures
        command == timer_command(event, fresh_timeout),
{
    match event {
        TimerEvent::Reset => TimerCommand::RestartTimeout(fresh_timeout),
        TimerEvent::HeartbeatElapsed => TimerCommand::Deliver(Actions::SendHeartbeat),
        TimerEvent::TimeoutElapsed => TimerCommand::Deliver(Actions::StartElection),
    }
}

/// What `event` asks of the timer task; where the election timer is to be
/// started, the delay is drawn afresh.
pub fn timer(event: TimerEvent) -> (command: TimerCommand)
    ensures
        exists|ms: u64| is_election_timeout(ms) && command == timer_command(event, ms),
{
    let ms = rebuild_timeout_timer();
    timer_step(event, ms)
}

/// The timer to start after `action` was handed to the peer, where
/// `fresh_timeout` is the delay for an election timer; `None`, which ends
/// the timer task, when the peer did not take the action.
pub open spec fn rearm_after(action: Actions, delivered: bool, fresh_timeout: u64) -> Option<
    Rearm,
> {
    if !delivered {
        None
    } else {
        match action {
            Actions::SendHeartbeat => Some(Rearm::Heartbeat(HEARTBEAT_INTERVAL)),
            Actions::StartElection => Some(Rearm::Timeout(fresh_timeout)),
        }
    }
}

/// The timer to start after `action` was handed to the peer, where
/// `fresh_timeout` is the delay for an election timer: the one that ran
/// out. When the peer did not take the action, the timer task ends.
pub fn rearm_step(action: Actions, delivered: bool, fresh_timeout: u64) -> (rearm: Option<Rearm>)
    ensures
        rearm == rearm_after(action, delivered, fresh_timeout),
{
    if !delivered {
        return None;
    }
    match action {
        Actions::SendHeartbeat => Some(Rearm::Heartbeat(rebuild_heartbeat_timer())),
        Actions::StartElection => Some(Rearm::Timeout(fresh_timeout)),
    }
}

/// The timer to start after `action` was handed to the peer; an election
/// timer gets a delay drawn afresh.
pub fn after_delivery(action: Actions, delivered: bool) -> (rearm: Option<Rearm>)
    ensures
        exists|ms: u64| is_election_timeout(ms) && rearm == rearm_after(action, delivered, ms),
{
    let ms = rebuild_timeout_timer();
    rearm_step(action, delivered, ms)
}

} // verus!
