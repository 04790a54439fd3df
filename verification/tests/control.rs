use buffout::control::failure_event;
use buffout::control::Action;
use buffout::control::Event;
use buffout::control::Run;
use buffout::control::Stage;
use buffout::control::FAILURE_STATUS;
use buffout::error::ErrorKind;

fn after(events: &[Event]) -> Run {
    Run::replay(&events.to_vec())
}

#[test]
fn a_run_starts_in_init() {
    let run = Run::new();
    assert_eq!(run.stage, Stage::Init);
    assert!(!run.child);
    assert_eq!(run.action(), Action::Configure);
    assert_eq!(run.exit_status(), None);
    assert_eq!(run.failure(), None);
    assert!(!run.is_ended());
    assert_eq!(after(&[]), run);
}

#[test]
fn a_run_without_child_succeeds_after_finalize() {
    let mut run = Run::new();
    run = run.step(Event::Configured);
    assert_eq!((run.stage, run.action()), (Stage::Acquiring, Action::AcquireSource));
    run = run.step(Event::SourceAcquired { child: false });
    assert_eq!((run.stage, run.action()), (Stage::Streaming, Action::Forward));
    run = run.step(Event::Forwarded);
    assert_eq!((run.stage, run.action()), (Stage::Streaming, Action::Forward));
    run = run.step(Event::EndOfStream);
    assert_eq!((run.stage, run.action()), (Stage::Finalizing, Action::FinalizeSink));
    run = run.step(Event::Finalized);
    assert_eq!((run.stage, run.action()), (Stage::Done, Action::Exit { status: 0 }));
    assert!(run.is_ended());
    assert_eq!(run.exit_status(), Some(0));
}

#[test]
fn empty_input_still_succeeds() {
    let run = after(&[
        Event::Configured,
        Event::SourceAcquired { child: false },
        Event::EndOfStream,
        Event::Finalized,
    ]);
    assert_eq!(run.stage, Stage::Done);
    assert_eq!(run.exit_status(), Some(0));
}

#[test]
fn a_run_with_child_waits_for_it() {
    let run = after(&[
        Event::Configured,
        Event::SourceAcquired { child: true },
        Event::Forwarded,
        Event::EndOfStream,
        Event::Finalized,
    ]);
    assert_eq!(run.stage, Stage::AwaitingChild);
    assert!(run.child);
    assert_eq!(run.action(), Action::AwaitChild);
    assert_eq!(run.exit_status(), None);
    let done = run.step(Event::ChildExited { success: true });
    assert_eq!(done.stage, Stage::Done);
    assert_eq!(done.exit_status(), Some(0));
}

#[test]
fn a_failed_child_fails_the_run() {
    let run = after(&[
        Event::Configured,
        Event::SourceAcquired { child: true },
        Event::Forwarded,
        Event::EndOfStream,
        Event::Finalized,
        Event::ChildExited { success: false },
    ]);
    assert_eq!(run.stage, Stage::Failed(ErrorKind::ChildExit));
    assert_eq!(run.failure(), Some(ErrorKind::ChildExit));
    assert_eq!(run.exit_status(), Some(101));
    assert_eq!(run.action(), Action::Exit { status: 101 });
    assert_eq!(FAILURE_STATUS, 101);
}

#[test]
fn each_failure_is_reached_from_its_stage() {
    let init = Run::new();
    assert_eq!(
        init.step(Event::ConfigurationRejected).stage,
        Stage::Failed(ErrorKind::Configuration)
    );
    let acquiring = init.step(Event::Configured);
    assert_eq!(acquiring.step(Event::SpawnFailed).stage, Stage::Failed(ErrorKind::Spawn));
    let streaming = acquiring.step(Event::SourceAcquired { child: true });
    assert_eq!(streaming.step(Event::ReadFailed).stage, Stage::Failed(ErrorKind::IoRead));
    assert_eq!(streaming.step(Event::WriteFailed).stage, Stage::Failed(ErrorKind::IoWrite));
    let finalizing = streaming.step(Event::EndOfStream);
    assert_eq!(finalizing.step(Event::FinalizeFailed).stage, Stage::Failed(ErrorKind::Finalize));
    let waiting = finalizing.step(Event::Finalized);
    assert_eq!(
        waiting.step(Event::ChildExited { success: false }).stage,
        Stage::Failed(ErrorKind::ChildExit)
    );
}

#[test]
fn an_ended_run_stays_as_it_is() {
    let events = [
        Event::Configured,
        Event::ConfigurationRejected,
        Event::SourceAcquired { child: true },
        Event::SpawnFailed,
        Event::Forwarded,
        Event::ReadFailed,
        Event::WriteFailed,
        Event::EndOfStream,
        Event::Finalized,
        Event::FinalizeFailed,
        Event::ChildExited { success: true },
        Event::ChildExited { success: false },
    ];
    let failed = Run::new().step(Event::ConfigurationRejected);
    let done = after(&[
        Event::Configured,
        Event::SourceAcquired { child: false },
        Event::EndOfStream,
        Event::Finalized,
    ]);
    for event in events {
        assert_eq!(failed.step(event), failed);
        assert_eq!(done.step(event), done);
    }
}

#[test]
fn an_event_out_of_turn_changes_nothing() {
    let init = Run::new();
    assert_eq!(init.step(Event::Finalized), init);
    assert_eq!(init.step(Event::ChildExited { success: true }), init);
    let streaming = after(&[Event::Configured, Event::SourceAcquired { child: false }]);
    assert_eq!(streaming.step(Event::Finalized), streaming);
    assert_eq!(streaming.step(Event::Configured), streaming);
    let finalizing = streaming.step(Event::EndOfStream);
    assert_eq!(finalizing.step(Event::ChildExited { success: true }), finalizing);
    assert_eq!(finalizing.step(Event::WriteFailed), finalizing);
}

#[test]
fn failures_have_their_events() {
    assert_eq!(failure_event(ErrorKind::Configuration), Event::ConfigurationRejected);
    assert_eq!(failure_event(ErrorKind::Spawn), Event::SpawnFailed);
    assert_eq!(failure_event(ErrorKind::IoRead), Event::ReadFailed);
    assert_eq!(failure_event(ErrorKind::IoWrite), Event::WriteFailed);
    assert_eq!(failure_event(ErrorKind::Finalize), Event::FinalizeFailed);
    assert_eq!(failure_event(ErrorKind::ChildExit), Event::ChildExited { success: false });
}

#[test]
fn failures_have_their_texts() {
    assert_eq!(ErrorKind::Configuration.describe(), "invalid configuration");
    assert_eq!(ErrorKind::Spawn.describe(), "failed to execute command");
    assert_eq!(ErrorKind::IoRead.describe(), "failed to read from the source");
    assert_eq!(ErrorKind::IoWrite.describe(), "failed to write to the destination");
    assert_eq!(ErrorKind::Finalize.describe(), "failed to finish the destination");
    assert_eq!(ErrorKind::ChildExit.describe(), "the command did not exit successfully");
}
