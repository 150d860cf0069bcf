//! Where a listing goes: to the console or into a file. A strategy says
//! what is to be written, step by step, and what is to be done where a step
//! fails; the caller does the writing.

use vstd::prelude::*;
use vstd::string::*;
use crate::occurrence::{line_of, views, Occurrence, OccurrenceView};

verus! {

/// The status with which the program ends after a failure.
pub const FAILURE_STATUS: i32 = 1;

/// One thing that the caller is to do.
#[derive(Clone, Debug, PartialEq, Eq)]
pub enum Step {
    /// Write the line to the standard output.
    Print(String),
    /// Create the file at this path, or empty it where it exists, and open
    /// it for writing.
    Create(String),
    /// Write the line to the file that was opened.
    Write(String),
}

/// The mathematical value of a [`Step`].
pub enum StepView {
    Print(Seq<char>),
    Create(Seq<char>),
    Write(Seq<char>),
}

impl View for Step {
    type V = StepView;

    open spec fn view(&self) -> StepView {
        match self {
            Step::Print(line) => StepView::Print(line@),
            Step::Create(path) => StepView::Create(path@),
            Step::Write(line) => StepView::Write(line@),
        }
    }
}

impl DeepView for Step {
    type V = StepView;

    open spec fn deep_view(&self) -> StepView {
        self@
    }
}

/// How the program ends where a step failed: it reports the message to the
/// standard error and exits with the status.
#[derive(Clone, Debug, PartialEq, Eq)]
pub struct Abort {
    pub message: String,
    pub status: i32,
}

/// The mathematical value of an [`Abort`].
pub struct AbortView {
    pub message: Seq<char>,
    pub status: int,
}

impl View for Abort {
    type V = AbortView;

    open spec fn view(&self) -> AbortView {
        AbortView { message: self.message@, status: self.status as int }
    }
}

/// What follows where `step` failed for the reason `cause`. A file that
/// cannot be created and a line that cannot be written end the program with
/// the status 1. For the standard output no measure is laid down.
pub open spec fn abort_of(step: StepView, cause: Seq<char>) -> Option<AbortView> {
    match step {
        StepView::Print(_) => None,
        StepView::Create(path) => Some(
            AbortView { message: "Error creating file "@ + path + ": "@ + cause, status: 1 },
        ),
        StepView::Write(_) => Some(
            AbortView { message: "Error writing to file: "@ + cause, status: 1 },
        ),
    }
}

/// The value of an end of the program that may be absent.
pub open spec fn abort_view(abort: Option<Abort>) -> Option<AbortView> {
    match abort {
        Some(abort) => Some(abort@),
        None => None,
    }
}

impl Step {
    /// What is to be done where the step failed for the reason `cause`.
    pub fn failed(&self, cause: &str) -> (abort: Option<Abort>)
        ensures
            abort_view(abort) == abort_of(self@, cause@),
    {
        match self {
            Step::Print(_) => None,
            Step::Create(path) => {
                let mut message = String::from_str("Error creating file ");
                message.append(path.as_str());
                message.append(": ");
                message.append(cause);
                Some(Abort { message, status: FAILURE_STATUS })
            },
            Step::Write(_) => {
                let mut message = String::from_str("Error writing to file: ");
                message.append(cause);
                Some(Abort { message, status: FAILURE_STATUS })
            },
        }
    }
}

/// The steps that print the entries, one line for each, in their order.
pub open spec fn console_steps(entries: Seq<OccurrenceView>) -> Seq<StepView> {
    entries.map_values(|entry: OccurrenceView| StepView::Print(line_of(entry)))
}

/// The steps that write the entries into the file at `path`: the file is
/// created first, then comes one line for each entry, in their order.
pub open spec fn file_steps(path: Seq<char>, entries: Seq<OccurrenceView>) -> Seq<StepView> {
    seq![StepView::Create(path)] + entries.map_values(
        |entry: OccurrenceView| StepView::Write(line_of(entry)),
    )
}

/// A way to put out a listing.
pub trait OutputStrategy {
    /// The steps by which the strategy puts out `entries`.
    spec fn steps(&self, entries: Seq<OccurrenceView>) -> Seq<StepView>;

    /// The steps that put out `occurrences`, to be done in their order. The
    /// caller stops at the first step that fails, and does what
    /// [`Step::failed`] lays down for it.
    fn output(&self, occurrences: &[Occurrence]) -> (steps: Vec<Step>)
        ensures
            steps.deep_view() == self.steps(views(occurrences@)),
    ;
}

/// Puts a listing out on the standard output.
pub struct ConsoleOutput;

impl OutputStrategy for ConsoleOutput {
    open spec fn steps(&self, entries: Seq<OccurrenceView>) -> Seq<StepView> {
        console_steps(entries)
    }

    fn output(&self, occurrences: &[Occurrence]) -> (steps: Vec<Step>) {
        let mut steps: Vec<Step> = Vec::new();
        let mut i: usize = 0;
        while i < occurrences.len()
            invariant
                i <= occurrences@.len(),
                steps@.len() == i,
                forall|k: int|
                    0 <= k < i ==> (#[trigger] steps@[k])@ == StepView::Print(
                        line_of(occurrences@[k]@),
                    ),
            decreases occurrences@.len() - i,
        {
            steps.push(Step::Print(occurrences[i].debug_string()));
            i += 1;
        }
        proof {
            assert(steps.deep_view() =~= console_steps(views(occurrences@)));
        }
        steps
    }
}

/// Puts a listing into a file.
pub struct FileOutput<'a> {
    file_name: &'a str,
}

impl<'a> FileOutput<'a> {
    /// The path of the file that the listing goes to.
    pub closed spec fn path(&self) -> Seq<char> {
        self.file_name@
    }

    /// A strategy that writes to the file at `file_name`.
    pub fn new(file_name: &'a str) -> (strategy: Self)
        ensures
            strategy.path() == file_name@,
    {
        FileOutput { file_name }
    }

    /// The path of the file that the listing goes to.
    pub fn file_name(&self) -> (name: &'a str)
        ensures
            name@ == self.path(),
    {
        self.file_name
    }
}

impl OutputStrategy for FileOutput<'_> {
    open spec fn steps(&self, entries: Seq<OccurrenceView>) -> Seq<StepView> {
        file_steps(self.path(), entries)
    }

    fn output(&self, occurrences: &[Occurrence]) -> (steps: Vec<Step>) {
        let mut steps: Vec<Step> = Vec::new();
        steps.push(Step::Create(String::from_str(self.file_name)));
        let mut i: usize = 0;
        while i < occurrences.len()
            invariant
                i <= occurrences@.len(),
                steps@.len() == i + 1,
                steps@[0]@ == StepView::Create(self.path()),
                forall|k: int|
                    1 <= k <= i ==> (#[trigger] steps@[k])@ == StepView::Write(
                        line_of(occurrences@[k - 1]@),
                    ),
            decreases occurrences@.len() - i,
        {
            steps.push(Step::Write(occurrences[i].debug_string()));
            i += 1;
        }
        proof {
            assert(steps.deep_view() =~= file_steps(self.path(), views(occurrences@)));
        }
        steps
    }
}

} // verus!
