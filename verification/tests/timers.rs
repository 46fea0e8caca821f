use raft::raft::timer::{
    after_delivery, rearm_step, rebuild_heartbeat_timer, rebuild_timeout_timer, timer, timer_step,
    Rearm, TimerCommand, TimerEvent,
};
use raft::raft::{Actions, HEARTBEAT_INTERVAL, TIMEOUT_MIN};

#[test]
fn the_heartbeat_period_is_fifty_milliseconds() {
    assert_eq!(HEARTBEAT_INTERVAL, 50);
    assert_eq!(rebuild_heartbeat_timer(), 50);
}

#[test]
fn election_timeouts_lie_between_the_minimum_and_three_times_as_much() {
    assert_eq!(TIMEOUT_MIN, 350);
    for _ in 0..500 {
        let ms = rebuild_timeout_timer();
        assert!(ms >= 350);
        assert!(ms < 1050);
    }
}

#[test]
fn election_timeouts_are_drawn_afresh() {
    let draws: Vec<u64> = (0..64).map(|_| rebuild_timeout_timer()).collect();
    assert!(draws.iter().any(|ms| *ms != 350));
    assert!(draws.iter().any(|ms| *ms != draws[0]));
}

#[test]
fn a_reset_restarts_the_election_timer() {
    assert_eq!(timer_step(TimerEvent::Reset, 777), TimerCommand::RestartTimeout(777));
    match timer(TimerEvent::Reset) {
        TimerCommand::RestartTimeout(ms) => assert!((350..1050).contains(&ms)),
        other => panic!("unexpected command {:?}", other),
    }
}

#[test]
fn a_timer_that_ran_out_has_its_action_handed_over() {
    assert_eq!(
        timer_step(TimerEvent::HeartbeatElapsed, 400),
        TimerCommand::Deliver(Actions::SendHeartbeat)
    );
    assert_eq!(
        timer_step(TimerEvent::TimeoutElapsed, 400),
        TimerCommand::Deliver(Actions::StartElection)
    );
    assert_eq!(timer(TimerEvent::HeartbeatElapsed), TimerCommand::Deliver(Actions::SendHeartbeat));
    assert_eq!(timer(TimerEvent::TimeoutElapsed), TimerCommand::Deliver(Actions::StartElection));
}

#[test]
fn the_timer_that_ran_out_is_started_again() {
    assert_eq!(rearm_step(Actions::SendHeartbeat, true, 900), Some(Rearm::Heartbeat(50)));
    assert_eq!(rearm_step(Actions::StartElection, true, 900), Some(Rearm::Timeout(900)));
    assert_eq!(after_delivery(Actions::SendHeartbeat, true), Some(Rearm::Heartbeat(50)));
    match after_delivery(Actions::StartElection, true) {
        Some(Rearm::Timeout(ms)) => assert!((350..1050).contains(&ms)),
        other => panic!("unexpected timer {:?}", other),
    }
}

#[test]
fn the_timer_task_ends_when_the_peer_is_gone() {
    assert_eq!(rearm_step(Actions::SendHeartbeat, false, 900), None);
    assert_eq!(rearm_step(Actions::StartElection, false, 900), None);
    assert_eq!(after_delivery(Actions::SendHeartbeat, false), None);
    assert_eq!(after_delivery(Actions::StartElection, false), None);
}
