//! The life of a stage under its supervisor.

use vstd::prelude::*;

verus! {

/// Where a stage stands.
#[derive(Clone, Copy, Debug, PartialEq, Eq, Structural)]
pub enum StageState {
    /// Subscribing to the kind of message that it consumes.
    Starting,
    /// Handling messages.
    Running,
    /// Stopped, until the supervisor starts it again.
    Terminated,
}

/// What can happen to a stage.
#[derive(Clone, Copy, Debug, PartialEq, Eq, Structural)]
pub enum StageEvent {
    /// The subscription was made.
    Subscribed,
    /// The stage has stopped.
    Exited,
    /// The supervisor has started the stage again.
    Restarted,
}

impl StageState {
    /// The state after an event. A stage that is starting runs once it has
    /// subscribed; a stage that has not terminated terminates when it
    /// exits; a terminated stage starts over when it is restarted. Any other
    /// event leaves the state as it is.
    pub open spec fn after(self, event: StageEvent) -> StageState {
        match (self, event) {
            (StageState::Starting, StageEvent::Subscribed) => StageState::Running,
            (StageState::Starting, StageEvent::Exited) => StageState::Terminated,
            (StageState::Running, StageEvent::Exited) => StageState::Terminated,
            (StageState::Terminated, StageEvent::Restarted) => StageState::Starting,
            (state, _) => state,
        }
    }

    /// The state in which a stage is created.
    pub fn initial() -> (state: StageState)
        ensures
            state == StageState::Starting,
    {
        StageState::Starting
    }

    /// The state after `event`.
    pub fn on(self, event: StageEvent) -> (next: StageState)
        ensures
            next == self.after(event),
    {
        match self {
            StageState::Starting => match event {
                StageEvent::Subscribed => StageState::Running,
                StageEvent::Exited => StageState::Terminated,
                StageEvent::Restarted => StageState::Starting,
            },
            StageState::Running => match event {
                StageEvent::Exited => StageState::Terminated,
                _ => StageState::Running,
            },
            StageState::Terminated => match event {
                StageEvent::Restarted => StageState::Starting,
                _ => StageState::Terminated,
            },
        }
    }

    /// Whether a stage in this state handles the messages it is sent.
    pub fn handles_messages(self) -> (b: bool)
        ensures
            b == (self == StageState::Running),
    {
        match self {
            StageState::Running => true,
            _ => false,
        }
    }
}

/// A stage comes to run only by subscribing while it starts, and it comes to
/// start only by being restarted after it has terminated.
pub proof fn lemma_stage_entries(state: StageState, event: StageEvent)
    ensures
        state.after(event) == StageState::Running && state != StageState::Running ==> state
            == StageState::Starting && event == StageEvent::Subscribed,
        state.after(event) == StageState::Starting && state != StageState::Starting ==> state
            == StageState::Terminated && event == StageEvent::Restarted,
        state.after(event) == StageState::Terminated && state != StageState::Terminated ==> event
            == StageEvent::Exited,
{
}

/// A terminated stage stays terminated until it is restarted, and a restart
/// puts it back to starting.
pub proof fn lemma_restart_starts_over(event: StageEvent)
    ensures
        StageState::Terminated.after(StageEvent::Restarted) == StageState::Starting,
        event != StageEvent::Restarted ==> StageState::Terminated.after(event)
            == StageState::Terminated,
{
}

} // verus!
