//! Carrying out a move plan, one rename at a time.
//!
//! The file system is not touched from here. [`Executor`] decides what is
//! to be done next and keeps count of what went wrong; whoever drives it
//! does what it says and tells it how that went.

use crate::text::{append_chars, chars_of, string_of};
use crate::types::{Move, Opts, RenameAction};
use vstd::prelude::*;

verus! {

/// What the driver is to do next.
#[derive(Debug, Clone, Copy, PartialEq, Eq, Structural)]
pub enum Command {
    /// Print the rename at this position of the plan as `source -> destination`.
    Announce(usize),
    /// Find out whether the destination of the rename at this position exists.
    Probe(usize),
    /// Say that the destination of the rename at this position exists.
    ReportCollision(usize),
    /// Carry out the rename at this position, and say so if it fails.
    Rename(usize),
    /// Nothing is left to do. So many renames were not carried out.
    Finish(usize),
}

/// What the driver has to tell.
#[derive(Debug, Clone, Copy, PartialEq, Eq, Structural)]
pub enum Event {
    /// Nothing yet: the run begins.
    Start,
    /// The rename was printed.
    Announced,
    /// The destination exists, or it does not.
    Probed(bool),
    /// The collision was reported.
    CollisionReported,
    /// The rename succeeded, or it failed.
    Renamed(bool),
}

/// What the executor is waiting to hear.
#[derive(Debug, Clone, Copy, PartialEq, Eq, Structural)]
pub enum Waiting {
    /// Nothing: the next rename has not been begun.
    Nothing,
    /// That the rename was printed.
    Announcement,
    /// Whether the destination exists.
    Probe,
    /// That the collision was reported.
    CollisionReport,
    /// How the rename went.
    Rename,
}

/// A run over a move plan: how long the plan is, how the run was asked to
/// behave, how far it has come and how many renames have failed.
#[derive(Debug, Clone, Copy, PartialEq, Eq, Structural)]
pub struct Executor {
    pub total: usize,
    pub noop: bool,
    pub verbose: bool,
    pub index: usize,
    pub failures: usize,
    pub waiting: Waiting,
}

/// Why a run did not succeed.
#[derive(Debug, Clone, Copy, PartialEq, Eq, Structural)]
pub enum ActionErrors {
    /// There was no plan, or so many of its renames were not carried out.
    Failed(usize),
}

/// The first thing to do for the rename at the current position, or the
/// end if the plan is done. In a dry run and in a verbose run the rename is
/// announced first; else its destination is probed at once.
pub open spec fn begin(state: Executor) -> (Executor, Command) {
    if state.index >= state.total {
        (Executor { waiting: Waiting::Nothing, ..state }, Command::Finish(state.failures))
    } else if state.noop || state.verbose {
        (Executor { waiting: Waiting::Announcement, ..state }, Command::Announce(state.index))
    } else {
        (Executor { waiting: Waiting::Probe, ..state }, Command::Probe(state.index))
    }
}

/// The command that the executor is waiting to hear about.
pub open spec fn pending_command(state: Executor) -> Command {
    match state.waiting {
        Waiting::Nothing => begin(state).1,
        Waiting::Announcement => Command::Announce(state.index),
        Waiting::Probe => Command::Probe(state.index),
        Waiting::CollisionReport => Command::ReportCollision(state.index),
        Waiting::Rename => Command::Rename(state.index),
    }
}

/// The run with the current rename behind it, `failed` saying whether it
/// counts as a failure.
pub open spec fn advance(state: Executor, failed: bool) -> Executor {
    Executor {
        index: (state.index + 1) as usize,
        failures: if failed {
            (state.failures + 1) as usize
        } else {
            state.failures
        },
        waiting: Waiting::Nothing,
        ..state
    }
}

/// One step of a run: the state after the event, and what to do next.
///
/// After the announcement a dry run goes on to the next rename, and any
/// other run probes the destination. If the destination exists the rename
/// is not attempted: the collision is reported and counted as a failure.
/// Otherwise the rename is attempted, and counted as a failure if it fails.
/// Either way the run goes on with the next rename. An event that was not
/// waited for changes nothing, and the pending command is given again.
pub open spec fn step_of(state: Executor, event: Event) -> (Executor, Command) {
    match (state.waiting, event) {
        (Waiting::Nothing, Event::Start) => begin(state),
        (Waiting::Announcement, Event::Announced) => if state.noop {
            begin(advance(state, false))
        } else {
            (Executor { waiting: Waiting::Probe, ..state }, Command::Probe(state.index))
        },
        (Waiting::Probe, Event::Probed(exists)) => if exists {
            (
                Executor { waiting: Waiting::CollisionReport, ..state },
                Command::ReportCollision(state.index),
            )
        } else {
            (Executor { waiting: Waiting::Rename, ..state }, Command::Rename(state.index))
        },
        (Waiting::CollisionReport, Event::CollisionReported) => begin(advance(state, true)),
        (Waiting::Rename, Event::Renamed(ok)) => begin(advance(state, !ok)),
        _ => (state, pending_command(state)),
    }
}

/// How one rename of a plan went in a run that was not a dry run: whether
/// its destination existed, and whether the rename, if attempted, succeeded.
pub struct Attempt {
    pub exists: bool,
    pub renamed: bool,
}

/// How many renames from position `from` on are not carried out in a run
/// that is no dry run: those that find their destination occupied, and
/// those that fail. In a dry run nothing is attempted and nothing fails.
pub open spec fn expected_failures(noop: bool, attempts: Seq<Attempt>, from: int) -> nat
    decreases attempts.len() - from,
{
    if from < 0 || from >= attempts.len() {
        0
    } else {
        let rest = expected_failures(noop, attempts, from + 1);
        if !noop && (attempts[from].exists || !attempts[from].renamed) {
            rest + 1
        } else {
            rest
        }
    }
}

/// What a driver tells after it has done what a command says, the file
/// system behaving as `attempts` describes.
pub open spec fn respond(command: Command, attempts: Seq<Attempt>) -> Event {
    match command {
        Command::Announce(_) => Event::Announced,
        Command::Probe(i) => Event::Probed(attempts[i as int].exists),
        Command::ReportCollision(_) => Event::CollisionReported,
        Command::Rename(i) => Event::Renamed(attempts[i as int].renamed),
        Command::Finish(_) => Event::Start,
    }
}

/// The command on which a run ends: the driver does what it is told, up to
/// `steps` times, until it is told to finish.
pub open spec fn drive(
    state: Executor,
    command: Command,
    attempts: Seq<Attempt>,
    steps: nat,
) -> Command
    decreases steps,
{
    if steps == 0 || command is Finish {
        command
    } else {
        let (next, then) = step_of(state, respond(command, attempts));
        drive(next, then, attempts, (steps - 1) as nat)
    }
}

/// A run goes through the whole plan and counts what went wrong.
///
/// Whatever happens to the single renames, a driver that does what it is
/// told is told to finish after at most three steps for each rename that is
/// left, and the count it is given is the failures so far and, of the
/// renames that were left, those that found their destination occupied or
/// failed. A dry run attempts nothing and adds no failure.
#[verifier::rlimit(40)]
pub proof fn lemma_run_counts_failures(state: Executor, attempts: Seq<Attempt>, steps: nat)
    requires
        state.wf(),
        state.waiting == Waiting::Nothing,
        attempts.len() == state.total,
        steps >= 3 * (state.total - state.index),
    ensures
        drive(begin(state).0, begin(state).1, attempts, steps) == Command::Finish(
            (state.failures + expected_failures(state.noop, attempts, state.index as int)) as usize,
        ),
        state.failures + expected_failures(state.noop, attempts, state.index as int)
            <= state.total,
    decreases state.total - state.index,
{
    if state.index >= state.total {
    } else {
        let attempt = attempts[state.index as int];
        let failed = !state.noop && (attempt.exists || !attempt.renamed);
        let after = advance(state, failed);
        lemma_run_counts_failures(after, attempts, (steps - 3) as nat);
        let (first_state, first) = begin(state);
        reveal_with_fuel(drive, 4);
        lemma_more_steps(begin(after).0, begin(after).1, attempts, (steps - 3) as nat, 2);
        lemma_more_steps(begin(after).0, begin(after).1, attempts, (steps - 3) as nat, 1);
    }
}

/// A run that has been told to finish is not changed by more steps.
pub proof fn lemma_more_steps(
    state: Executor,
    command: Command,
    attempts: Seq<Attempt>,
    steps: nat,
    more: nat,
)
    requires
        drive(state, command, attempts, steps) is Finish,
    ensures
        drive(state, command, attempts, steps + more) == drive(state, command, attempts, steps),
    decreases steps,
{
    if steps == 0 || command is Finish {
    } else {
        let (next, then) = step_of(state, respond(command, attempts));
        lemma_more_steps(next, then, attempts, (steps - 1) as nat, more);
    }
}

impl Executor {
    /// The counts are in step: no more failures than renames seen, and no
    /// more renames seen than the plan has.
    pub open spec fn wf(&self) -> bool {
        self.failures <= self.index && self.index <= self.total
    }

    /// The state is one in which a dry run can be: it waits for nothing but
    /// an announcement, and has counted no failure.
    pub open spec fn is_dry(&self) -> bool {
        &&& self.noop
        &&& self.failures == 0
        &&& self.waiting == Waiting::Nothing || self.waiting == Waiting::Announcement
    }

    /// A run over a plan of `total` renames, before its first step.
    pub fn new(total: usize, opts: &Opts) -> (run: Executor)
        ensures
            run == (Executor {
                total,
                noop: opts.noop,
                verbose: opts.verbose,
                index: 0,
                failures: 0,
                waiting: Waiting::Nothing,
            }),
            run.wf(),
    {
        Executor {
            total,
            noop: opts.noop,
            verbose: opts.verbose,
            index: 0,
            failures: 0,
            waiting: Waiting::Nothing,
        }
    }

    /// Begins the rename at the current position, or ends the run.
    fn begin(&mut self) -> (command: Command)
        requires
            old(self).wf(),
        ensures
            (*final(self), command) == begin(*old(self)),
            final(self).wf(),
    {
        if self.index >= self.total {
            self.waiting = Waiting::Nothing;
            Command::Finish(self.failures)
        } else if self.noop || self.verbose {
            self.waiting = Waiting::Announcement;
            Command::Announce(self.index)
        } else {
            self.waiting = Waiting::Probe;
            Command::Probe(self.index)
        }
    }

    /// Puts the current rename behind the run.
    fn advance(&mut self, failed: bool)
        requires
            old(self).wf(),
            old(self).index < old(self).total,
        ensures
            *final(self) == advance(*old(self), failed),
            final(self).wf(),
    {
        self.index = self.index + 1;
        if failed {
            self.failures = self.failures + 1;
        }
        self.waiting = Waiting::Nothing;
    }

    /// The command that is pending.
    fn pending(&self) -> (command: Command)
        requires
            self.wf(),
        ensures
            command == pending_command(*self),
    {
        match self.waiting {
            Waiting::Nothing => {
                if self.index >= self.total {
                    Command::Finish(self.failures)
                } else if self.noop || self.verbose {
                    Command::Announce(self.index)
                } else {
                    Command::Probe(self.index)
                }
            },
            Waiting::Announcement => Command::Announce(self.index),
            Waiting::Probe => Command::Probe(self.index),
            Waiting::CollisionReport => Command::ReportCollision(self.index),
            Waiting::Rename => Command::Rename(self.index),
        }
    }

    /// Takes what the driver tells and says what to do next.
    #[verifier::rlimit(40)]
    pub fn step(&mut self, event: Event) -> (command: Command)
        requires
            old(self).wf(),
            old(self).waiting != Waiting::Nothing ==> old(self).index < old(self).total,
        ensures
            (*final(self), command) == step_of(*old(self), event),
            final(self).wf(),
            final(self).waiting != Waiting::Nothing ==> final(self).index < final(self).total,
            old(self).is_dry() ==> final(self).is_dry() && (command is Announce
                || command is Finish),
    {
        match (self.waiting, event) {
            (Waiting::Nothing, Event::Start) => self.begin(),
            (Waiting::Announcement, Event::Announced) => {
                if self.noop {
                    self.advance(false);
                    self.begin()
                } else {
                    self.waiting = Waiting::Probe;
                    Command::Probe(self.index)
                }
            },
            (Waiting::Probe, Event::Probed(exists)) => {
                if exists {
                    self.waiting = Waiting::CollisionReport;
                    Command::ReportCollision(self.index)
                } else {
                    self.waiting = Waiting::Rename;
                    Command::Rename(self.index)
                }
            },
            (Waiting::CollisionReport, Event::CollisionReported) => {
                self.advance(true);
                self.begin()
            },
            (Waiting::Rename, Event::Renamed(ok)) => {
                self.advance(!ok);
                self.begin()
            },
            _ => self.pending(),
        }
    }

    /// The verdict on a run in this state: it succeeded if nothing failed.
    pub open spec fn verdict_of(&self) -> Result<(), ActionErrors> {
        if self.failures == 0 {
            Ok(())
        } else {
            Err(ActionErrors::Failed(self.failures))
        }
    }

    /// How the run is to be judged once it has finished: it succeeded if
    /// nothing failed.
    pub fn verdict(&self) -> (outcome: Result<(), ActionErrors>)
        ensures
            outcome == self.verdict_of(),
    {
        if self.failures > 0 {
            Err(ActionErrors::Failed(self.failures))
        } else {
            Ok(())
        }
    }
}

/// How a run begins. With a plan of so many renames it is at the first of
/// them, or at its end if there is none. Without a plan, because none could
/// be made, there is nothing to rename: the run is over at once, and counts
/// the one failure.
pub open spec fn start_of(planned: Option<usize>, opts: Opts) -> (Executor, Command) {
    match planned {
        Some(total) => step_of(
            Executor {
                total,
                noop: opts.noop,
                verbose: opts.verbose,
                index: 0,
                failures: 0,
                waiting: Waiting::Nothing,
            },
            Event::Start,
        ),
        None => (
            Executor {
                total: 1,
                noop: opts.noop,
                verbose: opts.verbose,
                index: 1,
                failures: 1,
                waiting: Waiting::Nothing,
            },
            Command::Finish(1),
        ),
    }
}

/// Begins to carry out a plan, given by the number of its renames, or by
/// nothing where no plan could be made: the run, and the first thing to
/// do.
pub fn take_actions(planned: Option<usize>, opts: &Opts) -> (started: (Executor, Command))
    ensures
        started == start_of(planned, *opts),
        started.0.wf(),
        started.0.waiting != Waiting::Nothing ==> started.0.index < started.0.total,
        planned is None ==> started.1 == Command::Finish(1) && started.0.verdict_of() == Err::<
            (),
            ActionErrors,
        >(ActionErrors::Failed(1)),
{
    match planned {
        Some(total) => {
            let mut run = Executor::new(total, opts);
            let command = run.step(Event::Start);
            (run, command)
        },
        None => (
            Executor {
                total: 1,
                noop: opts.noop,
                verbose: opts.verbose,
                index: 1,
                failures: 1,
                waiting: Waiting::Nothing,
            },
            Command::Finish(1),
        ),
    }
}


/// What is printed to announce a rename: `source -> destination`.
pub open spec fn announcement_of(m: Move) -> Seq<char> {
    m.0 + " -> "@ + m.1
}

/// What is printed where a destination exists: `ERROR: destination exists`.
pub open spec fn collision_report_of(m: Move) -> Seq<char> {
    "ERROR: "@ + m.1 + " exists"@
}

/// The line that announces a rename.
pub fn announcement(action: &RenameAction) -> (line: String)
    ensures
        line@ == announcement_of((action.0@, action.1@)),
{
    let mut line = chars_of(action.0.as_str());
    append_chars(&mut line, &chars_of(" -> "));
    append_chars(&mut line, &chars_of(action.1.as_str()));
    string_of(&line)
}

/// The line that reports that the destination of a rename exists.
pub fn collision_report(action: &RenameAction) -> (line: String)
    ensures
        line@ == collision_report_of((action.0@, action.1@)),
{
    let mut line = chars_of("ERROR: ");
    append_chars(&mut line, &chars_of(action.1.as_str()));
    append_chars(&mut line, &chars_of(" exists"));
    string_of(&line)
}

} // verus!
