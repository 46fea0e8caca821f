use raft::raft::{Role, State};

#[test]
fn default_state_is_follower_in_term_zero() {
    let state = State::default();
    assert_eq!(state.term(), 0);
    assert!(state.is_follower());
    assert!(!state.is_candidate());
    assert!(!state.is_leader());
    assert_eq!(Role::default(), Role::Follower);
}

#[test]
fn state_reports_its_role() {
    let leader = State { term: 7, role: Role::Leader };
    assert_eq!(leader.term(), 7);
    assert!(leader.is_leader());
    assert!(!leader.is_follower());
    let candidate = State { term: 3, role: Role::Candidate };
    assert!(candidate.is_candidate());
    assert!(!candidate.is_leader());
}
