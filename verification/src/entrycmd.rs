//! The interactive front end: what to make of the arguments it is started with and of
//! each line that is typed. Reading the terminal is left to the caller.

use crate::text::{same_text, split_words, words};
use vstd::prelude::*;

verus! {

/// How the front end is to run.
#[derive(Clone, Copy, Debug, PartialEq, Eq, Structural)]
pub enum EntryMode {
    /// Read commands from the terminal.
    Shell,
    /// Take the arguments as they are.
    NoShell,
}

/// Chooses how to run: as a shell when started with a single argument.
pub fn entrymod(args: &[String]) -> (mode: EntryMode)
    ensures
        mode == if args@.len() == 1 {
            EntryMode::Shell
        } else {
            EntryMode::NoShell
        },
{
    if args.len() == 1 {
        EntryMode::Shell
    } else {
        EntryMode::NoShell
    }
}

/// What the shell makes of one line.
#[derive(Debug)]
pub enum LineStep {
    /// The line holds no word: go on to the next.
    Skip,
    /// The line asks to leave.
    Exit,
    /// The line is a command: keep its words.
    Keep { command: Vec<String> },
}

/// What a line step is.
pub enum LineStepModel {
    Skip,
    Exit,
    Keep { command: Seq<Seq<char>> },
}

impl View for LineStep {
    type V = LineStepModel;

    open spec fn view(&self) -> LineStepModel {
        match self {
            LineStep::Skip => LineStepModel::Skip,
            LineStep::Exit => LineStepModel::Exit,
            LineStep::Keep { command } => LineStepModel::Keep { command: command.deep_view() },
        }
    }
}

/// What the shell makes of a line: nothing of a line without words, the end of a line
/// whose first word is `exit`, and of any other line a command made of its words.
pub open spec fn line_step(line: Seq<char>) -> LineStepModel {
    let command = words(line);
    if command.len() == 0 {
        LineStepModel::Skip
    } else if command[0] == "exit"@ {
        LineStepModel::Exit
    } else {
        LineStepModel::Keep { command }
    }
}

/// Reads one line that was typed.
pub fn read_line(line: &str) -> (step: LineStep)
    ensures
        step@ == line_step(line@),
{
    let command = split_words(line);
    if command.len() == 0 {
        LineStep::Skip
    } else if same_text(command[0].as_str(), "exit") {
        assert(command.deep_view()[0] == command@[0]@);
        LineStep::Exit
    } else {
        assert(command.deep_view()[0] == command@[0]@);
        LineStep::Keep { command }
    }
}

} // verus!
