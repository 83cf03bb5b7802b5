//! Driving a program under test: what is decided between the reads and
//! writes.
//!
//! The program is started once and then asked fixture by fixture. The
//! reads and writes themselves are the caller's; this module says what to
//! do next, when a failed read or write is tried again, when the run ends,
//! and what a failure is called.
use crate::base::tests_supply::Test;
use crate::slae::decimal::{decimal, push_decimal};
use std::path::PathBuf;
use vstd::prelude::*;
use vstd::string::*;

verus! {

/// `std::path::PathBuf`, carried through unread.
#[verifier::external_type_specification]
#[verifier::external_body]
pub struct ExPathBuf(PathBuf);

/// An answer that can be read from what a program wrote.
pub trait TryFromVerbal: Sized {
    /// The answer that `s` says, or why it says none.
    fn try_from(s: &str) -> Result<Self, String>;
}

/// Who is told each answer as it arrives.
pub trait Listener<Input, Output> {
    /// Takes the answer to `test`; `false` ends the run.
    fn heard(&mut self, test: &Test<Input, Output>, output: &Output) -> bool;
}

/// A way to get answers to fixtures.
pub trait Runner<Input, Output> {
    /// Asks for the answer to each fixture of `input` in order, and tells
    /// `listener` each answer, until it says stop.
    fn run<L: Listener<Input, Output>>(
        &self,
        input: &[Test<Input, Output>],
        listener: &mut L,
    ) -> Result<(), String>;
}

/// The program under test: an executable that reads fixtures from its
/// standard input and writes answers to its standard output.
pub struct BatchStdIORunner {
    file: PathBuf,
}

impl BatchStdIORunner {
    /// The path of the executable.
    pub closed spec fn path(&self) -> PathBuf {
        self.file
    }

    /// The program whose executable is `file`.
    pub fn new(file: PathBuf) -> (runner: Self)
        ensures
            runner.path() == file,
    {
        BatchStdIORunner { file }
    }

    /// The path of the executable.
    pub fn file(&self) -> (file: &PathBuf)
        ensures
            *file == self.path(),
    {
        &self.file
    }
}

/// Why a read or a write failed: whether it was only interrupted, and the
/// system's message.
pub struct IoFailure {
    pub interrupted: bool,
    pub message: String,
}

/// What follows a read or a write.
pub enum Attempt<T> {
    /// It gave `T`.
    Done(T),
    /// It was interrupted: the same read or write is made again.
    Again,
    /// It failed, with the system's message.
    Failed(String),
}

/// Decides what follows a read or a write: an interrupted one is tried
/// again, any other failure ends the run.
pub fn enforce_interruptable_io<T>(outcome: Result<T, IoFailure>) -> (next: Attempt<T>)
    ensures
        match outcome {
            Ok(v) => next == Attempt::Done(v),
            Err(f) => if f.interrupted {
                next is Again
            } else {
                next == Attempt::<T>::Failed(f.message)
            },
        },
{
    match outcome {
        Ok(v) => Attempt::Done(v),
        Err(f) => {
            if f.interrupted {
                Attempt::Again
            } else {
                Attempt::Failed(f.message)
            }
        },
    }
}

/// Where a run can fail.
#[derive(Clone, Copy, Debug)]
pub enum Stage {
    /// Writing a fixture to the program.
    Write,
    /// Flushing what was written.
    Flush,
    /// Reading the program's answer.
    Read,
    /// Taking the bytes read as text.
    Decode,
    /// Asking whether the program has exited.
    Probe,
    /// Ending a program that still runs.
    Kill,
}

/// What a failure at `stage` is called, before the system's message.
pub open spec fn stage_prefix(stage: Stage) -> Seq<char> {
    match stage {
        Stage::Write => "Cannot write to process: "@,
        Stage::Flush => "Cannot flush to process output: "@,
        Stage::Read => "Cannot read from process output: "@,
        Stage::Decode => "Cannot parse output to UTF string: "@,
        Stage::Probe => "Cannot check if process is died: "@,
        Stage::Kill => "Cannot kill process: "@,
    }
}

/// The report of a failure at `stage` with the system's message `detail`.
pub fn failure_message(stage: Stage, detail: &str) -> (message: String)
    ensures
        message@ == stage_prefix(stage) + detail@,
{
    let prefix: &str = match stage {
        Stage::Write => "Cannot write to process: ",
        Stage::Flush => "Cannot flush to process output: ",
        Stage::Read => "Cannot read from process output: ",
        Stage::Decode => "Cannot parse output to UTF string: ",
        Stage::Probe => "Cannot check if process is died: ",
        Stage::Kill => "Cannot kill process: ",
    };
    let mut message: String = prefix.to_owned();
    message.append(detail);
    message
}

/// The report of an answer that could not be read: the reader's message,
/// then the text that was read.
pub fn malformed_answer(reason: &str, output: &str) -> (message: String)
    ensures
        message@ == reason@ + ": "@ + output@,
{
    let mut message: String = reason.to_owned();
    message.append(": ");
    message.append(output);
    message
}

/// Where a run stands: how many fixtures were answered, of how many, and
/// whether the listener has said stop.
pub struct Session {
    answered: usize,
    total: usize,
    stopped: bool,
}

/// What the driver does next.
#[derive(Clone, Copy, Debug)]
pub enum Turn {
    /// Send the fixture of this index and read its answer.
    Send(usize),
    /// Send no more: see whether the program has exited.
    Close,
}

impl Session {
    /// The number of fixtures answered so far.
    pub closed spec fn answered(&self) -> nat {
        self.answered as nat
    }

    /// The number of fixtures to run.
    pub closed spec fn total(&self) -> nat {
        self.total as nat
    }

    /// The listener has said stop.
    pub closed spec fn stopped(&self) -> bool {
        self.stopped
    }

    /// No more fixtures can be answered than there are.
    pub closed spec fn wf(&self) -> bool {
        self.answered <= self.total
    }

    /// A run of `total` fixtures, none answered yet.
    pub fn new(total: usize) -> (session: Session)
        ensures
            session.wf(),
            session.answered() == 0,
            session.total() == total,
            !session.stopped(),
    {
        Session { answered: 0, total, stopped: false }
    }

    /// The next step: the fixtures go out in order, one at a time, until
    /// all were answered or the listener said stop.
    pub fn turn(&self) -> (turn: Turn)
        requires
            self.wf(),
        ensures
            turn == (if !self.stopped() && self.answered() < self.total() {
                Turn::Send(self.answered() as usize)
            } else {
                Turn::Close
            }),
    {
        if !self.stopped && self.answered < self.total {
            Turn::Send(self.answered)
        } else {
            Turn::Close
        }
    }

    /// Takes note that the fixture sent was answered, and of what the
    /// listener said: `false` stops the run.
    pub fn answered_with(&mut self, keep_going: bool)
        requires
            old(self).wf(),
            !old(self).stopped(),
            old(self).answered() < old(self).total(),
        ensures
            final(self).wf(),
            final(self).total() == old(self).total(),
            final(self).answered() == old(self).answered() + 1,
            final(self).stopped() == !keep_going,
    {
        self.answered = self.answered + 1;
        self.stopped = !keep_going;
    }
}

/// What the system says of the program once no more is sent.
#[derive(Clone, Copy, Debug)]
pub enum ExitProbe {
    /// It still runs.
    Running,
    /// It has exited, with or without success, and with this exit code if
    /// it has one.
    Exited { success: bool, code: Option<i32> },
}

/// How a run ends.
pub enum Closing {
    /// The program exited with success: the run is good.
    Finished,
    /// The program still runs and is to be ended; the run is good if that
    /// works.
    Kill,
    /// The program exited without success: the run failed, with this
    /// report.
    Failed(String),
}

/// What `Closing` holds.
pub enum ClosingView {
    Finished,
    Kill,
    Failed(Seq<char>),
}

impl View for Closing {
    type V = ClosingView;

    open spec fn view(&self) -> ClosingView {
        match self {
            Closing::Finished => ClosingView::Finished,
            Closing::Kill => ClosingView::Kill,
            Closing::Failed(m) => ClosingView::Failed(m@),
        }
    }
}

/// How the exit code of a program is written in a report: in decimal, or
/// the word `none` for a program that has none, as one that a signal
/// ended.
pub open spec fn exit_code_text(code: Option<i32>) -> Seq<char> {
    match code {
        Some(c) => decimal(c as int),
        None => "none"@,
    }
}

/// Decides how the run ends from what the system says of the program: one
/// that still runs is to be ended, one that exited with success is good,
/// and any other exit fails the run, with or without an exit code.
pub fn closing(probe: ExitProbe) -> (end: Closing)
    ensures
        end@ == (match probe {
            ExitProbe::Running => ClosingView::Kill,
            ExitProbe::Exited { success, code } => if success {
                ClosingView::Finished
            } else {
                ClosingView::Failed("Process exited with exit code: "@ + exit_code_text(code))
            },
        }),
{
    match probe {
        ExitProbe::Running => Closing::Kill,
        ExitProbe::Exited { success, code } => {
            if success {
                Closing::Finished
            } else {
                let mut message: String = "Process exited with exit code: ".to_owned();
                match code {
                    Some(c) => {
                        push_decimal(&mut message, c);
                    },
                    None => {
                        message.append("none");
                    },
                }
                Closing::Failed(message)
            }
        },
    }
}

} // verus!
