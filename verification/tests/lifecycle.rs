use stock_signals::lifecycle::StageEvent;
use stock_signals::lifecycle::StageState;

#[test]
fn a_stage_begins_by_starting() {
    assert_eq!(StageState::initial(), StageState::Starting);
    assert!(!StageState::initial().handles_messages());
}

#[test]
fn a_stage_runs_once_it_has_subscribed() {
    let state = StageState::initial().on(StageEvent::Subscribed);
    assert_eq!(state, StageState::Running);
    assert!(state.handles_messages());
}

#[test]
fn a_stage_that_exits_is_terminated() {
    assert_eq!(
        StageState::Starting.on(StageEvent::Exited),
        StageState::Terminated
    );
    assert_eq!(
        StageState::Running.on(StageEvent::Exited),
        StageState::Terminated
    );
    assert!(!StageState::Terminated.handles_messages());
}

#[test]
fn a_restart_takes_a_terminated_stage_back_to_starting() {
    let state = StageState::Terminated.on(StageEvent::Restarted);
    assert_eq!(state, StageState::Starting);
    assert_eq!(state.on(StageEvent::Subscribed), StageState::Running);
}

#[test]
fn other_events_leave_the_state_as_it_is() {
    assert_eq!(
        StageState::Starting.on(StageEvent::Restarted),
        StageState::Starting
    );
    assert_eq!(
        StageState::Running.on(StageEvent::Subscribed),
        StageState::Running
    );
    assert_eq!(
        StageState::Running.on(StageEvent::Restarted),
        StageState::Running
    );
    assert_eq!(
        StageState::Terminated.on(StageEvent::Subscribed),
        StageState::Terminated
    );
    assert_eq!(
        StageState::Terminated.on(StageEvent::Exited),
        StageState::Terminated
    );
}

#[test]
fn a_stage_lives_through_restarts() {
    let mut state = StageState::initial();
    for _ in 0..3 {
        state = state.on(StageEvent::Restarted);
        assert_eq!(state, StageState::Starting);
        state = state.on(StageEvent::Subscribed);
        assert!(state.handles_messages());
        state = state.on(StageEvent::Exited);
        assert_eq!(state, StageState::Terminated);
    }
}
