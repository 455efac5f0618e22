use mail_sorter::sync::{keep_waiting, step, LoopAction, LoopEvent, LoopState, Unsolicited};

#[test]
fn loop_runs_pass_at_start_and_on_change() {
    assert_eq!(step(LoopState::Connected, LoopEvent::Started), (LoopState::Sorting, LoopAction::RunPass));
    assert_eq!(step(LoopState::Waiting, LoopEvent::MailboxChanged), (LoopState::Sorting, LoopAction::RunPass));
}

#[test]
fn loop_notifies_after_pass_and_waits_on_timeout() {
    assert_eq!(
        step(LoopState::Sorting, LoopEvent::PassSucceeded),
        (LoopState::Waiting, LoopAction::NotifyAndWait)
    );
    assert_eq!(step(LoopState::Waiting, LoopEvent::TimedOut), (LoopState::Waiting, LoopAction::Wait));
}

#[test]
fn loop_terminates_on_failures() {
    assert_eq!(step(LoopState::Sorting, LoopEvent::PassFailed), (LoopState::Terminated, LoopAction::Shutdown));
    assert_eq!(step(LoopState::Waiting, LoopEvent::WaitFailed), (LoopState::Terminated, LoopAction::Shutdown));
    assert_eq!(step(LoopState::Terminated, LoopEvent::TimedOut), (LoopState::Terminated, LoopAction::Shutdown));
}

#[test]
fn only_exists_ends_the_wait() {
    assert!(!keep_waiting(Unsolicited::Exists));
    assert!(keep_waiting(Unsolicited::Other));
}
