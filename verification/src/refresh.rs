//! The periodic refresh of the price table, as a task that can be told to
//! stop.
//!
//! The task waits for one of two events, the end of an interval or a request
//! to shut down, and is told here what to do next. Whoever runs the task does
//! the waiting and the polling.

use vstd::prelude::*;

verus! {

/// Whether the refresh task is still at work.
#[derive(Clone, Copy, Debug, PartialEq, Eq, Hash, Structural)]
pub enum RefreshState {
    Running,
    Stopped,
}

/// What the refresh task has waited for.
#[derive(Clone, Copy, Debug, PartialEq, Eq, Hash, Structural)]
pub enum RefreshEvent {
    /// The interval between two refreshes has passed.
    IntervalElapsed,
    /// The task has been told to stop, or nobody is left to tell it.
    ShutdownRequested,
}

/// What the refresh task is to do next.
#[derive(Clone, Copy, Debug, PartialEq, Eq, Hash, Structural)]
pub enum RefreshAction {
    /// Poll the feed, write its prices into the table, and wait again.
    PollFeed,
    /// Leave the loop.
    Exit,
}

/// The state after `event` and what is to be done: a running task polls the
/// feed whenever an interval has passed; a request to shut down stops it, and
/// a stopped task does nothing but leave.
pub open spec fn refresh_next(state: RefreshState, event: RefreshEvent) -> (
    RefreshState,
    RefreshAction,
) {
    if state == RefreshState::Running && event == RefreshEvent::IntervalElapsed {
        (RefreshState::Running, RefreshAction::PollFeed)
    } else {
        (RefreshState::Stopped, RefreshAction::Exit)
    }
}

/// The state after `event`, and what the task is to do next.
pub fn refresh_step(state: RefreshState, event: RefreshEvent) -> (step: (
    RefreshState,
    RefreshAction,
))
    ensures
        step == refresh_next(state, event),
{
    match (state, event) {
        (RefreshState::Running, RefreshEvent::IntervalElapsed) => (
            RefreshState::Running,
            RefreshAction::PollFeed,
        ),
        _ => (RefreshState::Stopped, RefreshAction::Exit),
    }
}

/// The state of a task that started in `state` and has seen `events`.
pub open spec fn refresh_state_after(state: RefreshState, events: Seq<RefreshEvent>) -> RefreshState
    decreases events.len(),
{
    if events.len() == 0 {
        state
    } else {
        refresh_next(refresh_state_after(state, events.drop_last()), events.last()).0
    }
}

/// Shutting down is final: once a request to shut down is among the events
/// that a task has seen, the task is stopped, and whatever comes next it
/// polls the feed no more.
pub proof fn lemma_shutdown_is_final(
    state: RefreshState,
    events: Seq<RefreshEvent>,
    at: int,
    next: RefreshEvent,
)
    requires
        0 <= at < events.len(),
        events[at] == RefreshEvent::ShutdownRequested,
    ensures
        refresh_state_after(state, events) == RefreshState::Stopped,
        refresh_next(refresh_state_after(state, events), next) == (
            RefreshState::Stopped,
            RefreshAction::Exit,
        ),
    decreases events.len(),
{
    if at < events.len() - 1 {
        lemma_shutdown_is_final(state, events.drop_last(), at, next);
    }
}

} // verus!
