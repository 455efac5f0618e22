//! The decisions of the synchronization loop, as a state machine. The caller
//! performs each action and reports what came of it as the next event.

use vstd::prelude::*;

verus! {

/// Where the loop stands.
#[derive(PartialEq, Eq, Structural, Clone, Copy, Debug)]
pub enum LoopState {
    /// Logged in, before the first pass.
    Connected,
    /// A pass is running.
    Sorting,
    /// Waiting for the mailbox to change.
    Waiting,
    /// Stopped for good.
    Terminated,
}

/// What the caller saw.
#[derive(PartialEq, Eq, Structural, Clone, Copy, Debug)]
pub enum LoopEvent {
    /// The session is ready.
    Started,
    /// The pass finished.
    PassSucceeded,
    /// The pass failed.
    PassFailed,
    /// The wait ended without a change.
    TimedOut,
    /// The wait ended because the mailbox's message count changed.
    MailboxChanged,
    /// The wait ended with a protocol or transport error.
    WaitFailed,
}

/// What the caller does next.
#[derive(PartialEq, Eq, Structural, Clone, Copy, Debug)]
pub enum LoopAction {
    /// Run a sort pass.
    RunPass,
    /// Send the pass's notification without awaiting it, then wait.
    NotifyAndWait,
    /// Wait for a change, with a timeout.
    Wait,
    /// Log out and exit with a failure.
    Shutdown,
}

/// One kind of unsolicited message the session may report while waiting.
#[derive(PartialEq, Eq, Structural, Clone, Copy, Debug)]
pub enum Unsolicited {
    /// The number of messages in the mailbox changed.
    Exists,
    /// Anything else.
    Other,
}

/// How long one wait lasts, in seconds.
pub const WAIT_SECONDS: u64 = 300;

/// The next state of the loop, and what to do, after `event` in `state`. An
/// event that cannot come in a state ends the loop, as does any event once it
/// has ended.
pub fn step(state: LoopState, event: LoopEvent) -> (r: (LoopState, LoopAction))
    ensures
        state == LoopState::Connected && event == LoopEvent::Started ==> r == (
            LoopState::Sorting,
            LoopAction::RunPass,
        ),
        state == LoopState::Sorting && event == LoopEvent::PassSucceeded ==> r == (
            LoopState::Waiting,
            LoopAction::NotifyAndWait,
        ),
        state == LoopState::Waiting && event == LoopEvent::TimedOut ==> r == (
            LoopState::Waiting,
            LoopAction::Wait,
        ),
        state == LoopState::Waiting && event == LoopEvent::MailboxChanged ==> r == (
            LoopState::Sorting,
            LoopAction::RunPass,
        ),
        !(state == LoopState::Connected && event == LoopEvent::Started) && !(state
            == LoopState::Sorting && event == LoopEvent::PassSucceeded) && !(state
            == LoopState::Waiting && (event == LoopEvent::TimedOut || event
            == LoopEvent::MailboxChanged)) ==> r == (LoopState::Terminated, LoopAction::Shutdown),
{
    match (state, event) {
        (LoopState::Connected, LoopEvent::Started) => (LoopState::Sorting, LoopAction::RunPass),
        (LoopState::Sorting, LoopEvent::PassSucceeded) => (
            LoopState::Waiting,
            LoopAction::NotifyAndWait,
        ),
        (LoopState::Waiting, LoopEvent::TimedOut) => (LoopState::Waiting, LoopAction::Wait),
        (LoopState::Waiting, LoopEvent::MailboxChanged) => (LoopState::Sorting, LoopAction::RunPass),
        _ => (LoopState::Terminated, LoopAction::Shutdown),
    }
}

/// Whether to go on waiting after an unsolicited message: only a change in the
/// number of messages ends the wait.
pub fn keep_waiting(message: Unsolicited) -> (r: bool)
    ensures
        r == (message != Unsolicited::Exists),
{
    match message {
        Unsolicited::Exists => false,
        Unsolicited::Other => true,
    }
}

} // verus!
