//! The course of a run: which stage it is in, what there is to do next, and
//! how it ends.
//!
//! A run goes from `Init` through `Acquiring`, `Streaming` and `Finalizing`,
//! then, where a child process was started, through `AwaitingChild`, and
//! ends in `Done` or `Failed`. The caller does what a stage asks for and
//! reports what happened as an event; the event decides the next stage.

use vstd::prelude::*;
use crate::error::ErrorKind;

verus! {

/// The exit status of a run that failed.
pub const FAILURE_STATUS: i32 = 101;

/// Where a run stands.
#[derive(Clone, Copy, Debug, PartialEq, Eq, Structural)]
pub enum Stage {
    /// The configuration is being checked and the destination created.
    Init,
    /// The source is being set up: the child is started, or standard input
    /// taken.
    Acquiring,
    /// Lines go from the source to the sink.
    Streaming,
    /// The source has ended and the sink is being flushed and closed.
    Finalizing,
    /// The child's exit is waited for.
    AwaitingChild,
    /// The run has succeeded.
    Done,
    /// The run has failed.
    Failed(ErrorKind),
}

/// What happened while the caller did what the stage asked for.
#[derive(Clone, Copy, Debug, PartialEq, Eq, Structural)]
pub enum Event {
    /// The configuration is valid and the destination exists.
    Configured,
    /// The configuration is not valid, or the destination cannot be made.
    ConfigurationRejected,
    /// The source can be read; `child` says whether a process was started
    /// for it.
    SourceAcquired { child: bool },
    /// The command could not be started.
    SpawnFailed,
    /// A piece of the source went through to the sink.
    Forwarded,
    /// Reading the source failed.
    ReadFailed,
    /// The sink did not take a line, or the file did not take its bytes.
    WriteFailed,
    /// The source has ended.
    EndOfStream,
    /// The sink is flushed and closed.
    Finalized,
    /// Flushing or closing the sink failed.
    FinalizeFailed,
    /// The child has ended; `success` says whether with success.
    ChildExited { success: bool },
}

/// What the caller has to do next.
#[derive(Clone, Copy, Debug, PartialEq, Eq, Structural)]
pub enum Action {
    /// Check the configuration and create the destination.
    Configure,
    /// Start the child, or take standard input.
    AcquireSource,
    /// Read the next piece of the source and hand it to the sink.
    Forward,
    /// Flush and close the sink.
    FinalizeSink,
    /// Wait for the child to end.
    AwaitChild,
    /// Leave with this exit status.
    Exit { status: i32 },
}

/// A run: its stage, and whether it has a child process.
#[derive(Clone, Copy, Debug, PartialEq, Eq, Structural)]
pub struct Run {
    /// Where the run stands.
    pub stage: Stage,
    /// A child process was started for the source.
    pub child: bool,
}

impl Run {
    /// The run before anything has happened.
    pub open spec fn initial() -> Run {
        Run { stage: Stage::Init, child: false }
    }

    /// The run at `stage`, with the same child.
    pub open spec fn at(self, stage: Stage) -> Run {
        Run { stage, child: self.child }
    }

    /// The run after `event`. An event that the stage does not wait for
    /// changes nothing.
    pub open spec fn next(self, event: Event) -> Run {
        match (self.stage, event) {
            (Stage::Init, Event::Configured) => self.at(Stage::Acquiring),
            (Stage::Init, Event::ConfigurationRejected) => self.at(
                Stage::Failed(ErrorKind::Configuration),
            ),
            (Stage::Acquiring, Event::SourceAcquired { child }) => Run {
                stage: Stage::Streaming,
                child,
            },
            (Stage::Acquiring, Event::SpawnFailed) => self.at(Stage::Failed(ErrorKind::Spawn)),
            (Stage::Streaming, Event::Forwarded) => self,
            (Stage::Streaming, Event::ReadFailed) => self.at(Stage::Failed(ErrorKind::IoRead)),
            (Stage::Streaming, Event::WriteFailed) => self.at(Stage::Failed(ErrorKind::IoWrite)),
            (Stage::Streaming, Event::EndOfStream) => self.at(Stage::Finalizing),
            (Stage::Finalizing, Event::Finalized) => if self.child {
                self.at(Stage::AwaitingChild)
            } else {
                self.at(Stage::Done)
            },
            (Stage::Finalizing, Event::FinalizeFailed) => self.at(
                Stage::Failed(ErrorKind::Finalize),
            ),
            (Stage::AwaitingChild, Event::ChildExited { success }) => if success {
                self.at(Stage::Done)
            } else {
                self.at(Stage::Failed(ErrorKind::ChildExit))
            },
            _ => self,
        }
    }

    /// The run after all of `events`, in their order.
    pub open spec fn after(self, events: Seq<Event>) -> Run
        decreases events.len(),
    {
        if events.len() == 0 {
            self
        } else {
            self.after(events.drop_last()).next(events.last())
        }
    }

    /// The run has ended.
    pub open spec fn ended(self) -> bool {
        self.stage is Done || self.stage is Failed
    }

    /// What the stage asks for.
    pub open spec fn wanted(self) -> Action {
        match self.stage {
            Stage::Init => Action::Configure,
            Stage::Acquiring => Action::AcquireSource,
            Stage::Streaming => Action::Forward,
            Stage::Finalizing => Action::FinalizeSink,
            Stage::AwaitingChild => Action::AwaitChild,
            Stage::Done => Action::Exit { status: 0 },
            Stage::Failed(_) => Action::Exit { status: FAILURE_STATUS },
        }
    }

    /// A run at its start.
    pub fn new() -> (run: Run)
        ensures
            run == Run::initial(),
    {
        Run { stage: Stage::Init, child: false }
    }

    /// Takes an event and gives the run after it.
    pub fn step(self, event: Event) -> (run: Run)
        ensures
            run == self.next(event),
    {
        let stay = self;
        match (self.stage, event) {
            (Stage::Init, Event::Configured) => Run { stage: Stage::Acquiring, child: self.child },
            (Stage::Init, Event::ConfigurationRejected) => Run {
                stage: Stage::Failed(ErrorKind::Configuration),
                child: self.child,
            },
            (Stage::Acquiring, Event::SourceAcquired { child }) => Run {
                stage: Stage::Streaming,
                child,
            },
            (Stage::Acquiring, Event::SpawnFailed) => Run {
                stage: Stage::Failed(ErrorKind::Spawn),
                child: self.child,
            },
            (Stage::Streaming, Event::ReadFailed) => Run {
                stage: Stage::Failed(ErrorKind::IoRead),
                child: self.child,
            },
            (Stage::Streaming, Event::WriteFailed) => Run {
                stage: Stage::Failed(ErrorKind::IoWrite),
                child: self.child,
            },
            (Stage::Streaming, Event::EndOfStream) => Run {
                stage: Stage::Finalizing,
                child: self.child,
            },
            (Stage::Finalizing, Event::Finalized) => if self.child {
                Run { stage: Stage::AwaitingChild, child: self.child }
            } else {
                Run { stage: Stage::Done, child: self.child }
            },
            (Stage::Finalizing, Event::FinalizeFailed) => Run {
                stage: Stage::Failed(ErrorKind::Finalize),
                child: self.child,
            },
            (Stage::AwaitingChild, Event::ChildExited { success }) => if success {
                Run { stage: Stage::Done, child: self.child }
            } else {
                Run { stage: Stage::Failed(ErrorKind::ChildExit), child: self.child }
            },
            _ => stay,
        }
    }

    /// Takes events one after the other, from the start of a run.
    pub fn replay(events: &Vec<Event>) -> (run: Run)
        ensures
            run == Run::initial().after(events@),
    {
        let mut run = Run::new();
        let mut i: usize = 0;
        while i < events.len()
            invariant
                i <= events.len(),
                run == Run::initial().after(events@.take(i as int)),
            decreases events.len() - i,
        {
            proof {
                assert(events@.take(i + 1).drop_last() =~= events@.take(i as int));
            }
            run = run.step(events[i]);
            i += 1;
        }
        proof {
            assert(events@.take(events.len() as int) =~= events@);
        }
        run
    }

    /// What the caller has to do next.
    pub fn action(&self) -> (action: Action)
        ensures
            action == self.wanted(),
    {
        match self.stage {
            Stage::Init => Action::Configure,
            Stage::Acquiring => Action::AcquireSource,
            Stage::Streaming => Action::Forward,
            Stage::Finalizing => Action::FinalizeSink,
            Stage::AwaitingChild => Action::AwaitChild,
            Stage::Done => Action::Exit { status: 0 },
            Stage::Failed(_) => Action::Exit { status: FAILURE_STATUS },
        }
    }

    /// Whether the run has ended.
    pub fn is_ended(&self) -> (ended: bool)
        ensures
            ended == self.ended(),
    {
        match self.stage {
            Stage::Done => true,
            Stage::Failed(_) => true,
            _ => false,
        }
    }

    /// The exit status of a run that has ended: 0 for success and nothing
    /// else.
    pub fn exit_status(&self) -> (status: Option<i32>)
        ensures
            status is Some <==> self.ended(),
            status == Some(0i32) <==> self.stage is Done,
            self.stage is Failed ==> status == Some(FAILURE_STATUS),
    {
        match self.stage {
            Stage::Done => Some(0),
            Stage::Failed(_) => Some(FAILURE_STATUS),
            _ => None,
        }
    }

    /// Why the run failed, if it did.
    pub fn failure(&self) -> (kind: Option<ErrorKind>)
        ensures
            kind == match self.stage {
                Stage::Failed(e) => Some(e),
                _ => None::<ErrorKind>,
            },
    {
        match self.stage {
            Stage::Failed(e) => Some(e),
            _ => None,
        }
    }
}

/// The event by which a failure of kind `kind` is reported.
pub fn failure_event(kind: ErrorKind) -> (event: Event)
    ensures
        event == match kind {
            ErrorKind::Configuration => Event::ConfigurationRejected,
            ErrorKind::Spawn => Event::SpawnFailed,
            ErrorKind::IoRead => Event::ReadFailed,
            ErrorKind::IoWrite => Event::WriteFailed,
            ErrorKind::Finalize => Event::FinalizeFailed,
            ErrorKind::ChildExit => Event::ChildExited { success: false },
        },
{
    match kind {
        ErrorKind::Configuration => Event::ConfigurationRejected,
        ErrorKind::Spawn => Event::SpawnFailed,
        ErrorKind::IoRead => Event::ReadFailed,
        ErrorKind::IoWrite => Event::WriteFailed,
        ErrorKind::Finalize => Event::FinalizeFailed,
        ErrorKind::ChildExit => Event::ChildExited { success: false },
    }
}

/// A run that has ended stays as it is, whatever is reported afterwards.
pub proof fn lemma_ended_stays(run: Run, events: Seq<Event>)
    requires
        run.ended(),
    ensures
        run.after(events) == run,
    decreases events.len(),
{
    if events.len() > 0 {
        lemma_ended_stays(run, events.drop_last());
    }
}

/// Events taken in two parts give the same run as taken in one.
pub proof fn lemma_after_concat(run: Run, first: Seq<Event>, second: Seq<Event>)
    ensures
        run.after(first + second) == run.after(first).after(second),
    decreases second.len(),
{
    if second.len() == 0 {
        assert(first + second =~= first);
    } else {
        assert((first + second).drop_last() =~= first + second.drop_last());
        lemma_after_concat(run, first, second.drop_last());
    }
}

/// What a run has behind it. A run that has left `Init` and not failed was
/// configured; one that streams or has gone further has acquired its
/// source, and its child is as the source said; one that waits
/// for the child has one; one that waits or is done has seen its sink
/// finalized; one that is done and has a child has seen it end with success.
pub open spec fn accounted(run: Run, events: Seq<Event>) -> bool {
    &&& (run.stage is Init || run.stage is Acquiring) ==> !run.child
    &&& !(run.stage is Init || run.stage is Failed) ==> events.contains(Event::Configured)
    &&& (run.stage is Streaming || run.stage is Finalizing || run.stage is AwaitingChild
        || run.stage is Done) ==> events.contains(Event::SourceAcquired { child: run.child })
    &&& (run.stage is Finalizing || run.stage is AwaitingChild || run.stage is Done)
        ==> events.contains(Event::EndOfStream)
    &&& (run.stage is AwaitingChild || run.stage is Done) ==> events.contains(Event::Finalized)
    &&& run.stage is AwaitingChild ==> run.child
    &&& run.stage is Done && run.child ==> events.contains(Event::ChildExited { success: true })
}

/// Every run has behind it what its stage stands for.
pub proof fn lemma_accounted(events: Seq<Event>)
    ensures
        accounted(Run::initial().after(events), events),
    decreases events.len(),
{
    if events.len() > 0 {
        let front = events.drop_last();
        let last = events.last();
        lemma_accounted(front);
        let before = Run::initial().after(front);
        let run = before.next(last);
        assert(Run::initial().after(events) == run);
        assert(events[events.len() - 1] == last);
        assert(events.contains(last));
        assert forall|e: Event| front.contains(e) implies events.contains(e) by {
            let i = choose|i: int| 0 <= i < front.len() && front[i] == e;
            assert(events[i] == e);
        }
        match before.stage {
            Stage::Init => {},
            Stage::Acquiring => {},
            Stage::Streaming => {},
            Stage::Finalizing => {},
            Stage::AwaitingChild => {},
            Stage::Done => {},
            Stage::Failed(_) => {},
        }
    }
}

/// A run succeeds only if its sink was finalized and, where it has a child,
/// the child ended with success.
pub proof fn lemma_success(events: Seq<Event>)
    requires
        Run::initial().after(events).stage is Done,
    ensures
        events.contains(Event::Finalized),
        Run::initial().after(events).child ==> events.contains(
            Event::ChildExited { success: true },
        ),
{
    lemma_accounted(events);
}

/// A run whose child did not end with success fails: after the report of
/// that exit the run has failed with `ChildExit`, whatever went well before
/// and whatever is reported afterwards, and its exit status is not 0.
pub proof fn lemma_child_failure(before: Seq<Event>, later: Seq<Event>)
    requires
        Run::initial().after(before).stage is AwaitingChild,
    ensures
        Run::initial().after(before + seq![Event::ChildExited { success: false }] + later).stage
            == Stage::Failed(ErrorKind::ChildExit),
        Run::initial().after(
            before + seq![Event::ChildExited { success: false }] + later,
        ).wanted() == (Action::Exit { status: FAILURE_STATUS }),
{
    let waiting = Run::initial().after(before);
    let exit = seq![Event::ChildExited { success: false }];
    lemma_after_concat(Run::initial(), before, exit);
    assert(exit.drop_last() =~= Seq::<Event>::empty());
    assert(waiting.after(Seq::<Event>::empty()) == waiting);
    assert(waiting.after(exit) == waiting.next(Event::ChildExited { success: false }));
    let failed = waiting.after(exit);
    lemma_after_concat(Run::initial(), before + exit, later);
    lemma_ended_stays(failed, later);
}

/// A run with a child that never ended with success is not done.
pub proof fn lemma_no_success_without_child(events: Seq<Event>)
    requires
        Run::initial().after(events).child,
        !events.contains(Event::ChildExited { success: true }),
    ensures
        !(Run::initial().after(events).stage is Done),
{
    lemma_accounted(events);
}

} // verus!
