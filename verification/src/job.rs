//! A job: one program with its arguments, and what running it came to.

use crate::text::{enclose, enclosed};
use vstd::prelude::*;

verus! {

/// One resolved command: a program and the arguments it is started with.
#[derive(Debug)]
pub struct Job {
    cmd: String,
    parameter: Vec<String>,
}

/// What a job is.
pub struct JobModel {
    pub program: Seq<char>,
    pub args: Seq<Seq<char>>,
}

impl JobModel {
    /// The job written as one line: the program, then each argument after a space.
    pub open spec fn line(self) -> Seq<char> {
        self.program + enclosed(self.args, seq![' '], Seq::empty())
    }
}

impl View for Job {
    type V = JobModel;

    closed spec fn view(&self) -> JobModel {
        JobModel { program: self.cmd@, args: self.parameter.deep_view() }
    }
}

impl Job {
    /// The job that runs `args[0]` with the rest of `args` as its arguments.
    pub fn new(args: Vec<String>) -> (job: Job)
        requires
            args@.len() > 0,
        ensures
            job@.program == args@[0]@,
            job@.args == args.deep_view().skip(1),
    {
        let cmd = args[0].clone();
        let mut parameter: Vec<String> = Vec::new();
        let n = args.len();
        let mut i: usize = 1;
        while i < n
            invariant
                n == args@.len(),
                1 <= i <= n,
                parameter.deep_view() == args.deep_view().subrange(1, i as int),
            decreases n - i,
        {
            let ghost before = parameter.deep_view();
            let arg = args[i].clone();
            parameter.push(arg);
            assert(parameter.deep_view() =~= before.push(args@[i as int]@));
            assert(parameter.deep_view() =~= args.deep_view().subrange(1, i + 1));
            i = i + 1;
        }
        assert(args.deep_view().subrange(1, n as int) =~= args.deep_view().skip(1));
        Job { cmd, parameter }
    }

    /// The program to start.
    pub fn program(&self) -> (program: &String)
        ensures
            program@ == self@.program,
    {
        &self.cmd
    }

    /// The arguments to start it with.
    pub fn arguments(&self) -> (arguments: &Vec<String>)
        ensures
            arguments.deep_view() == self@.args,
    {
        &self.parameter
    }

    /// The job written as one line, as a dry run shows it.
    pub fn command_line(&self) -> (line: String)
        ensures
            line@ == self@.line(),
    {
        proof {
            reveal_strlit(" ");
            reveal_strlit("");
            assert(" "@ =~= seq![' ']);
            assert(""@ =~= Seq::<char>::empty());
        }
        let rest = enclose(&self.parameter, " ", "");
        self.cmd.clone().concat(rest.as_str())
    }
}

/// How the run of a job ended.
#[derive(Debug)]
pub enum JobOutcome {
    /// The process ran to its end: whether its exit status says success, and what it
    /// wrote to its standard output and its standard error.
    Exited { success: bool, stdout: String, stderr: String },
    /// The process could not be started at all; the description of the failure.
    NotStarted(String),
}

impl JobOutcome {
    /// The text that stands for the outcome: the standard output of a success, the
    /// standard error of a failure, the description and a line end where nothing ran.
    pub open spec fn text(self) -> Seq<char> {
        match self {
            JobOutcome::Exited { success, stdout, stderr } => if success {
                stdout@
            } else {
                stderr@
            },
            JobOutcome::NotStarted(description) => description@.push('\n'),
        }
    }

    /// Turns the outcome into the text that is shown for the job. Every outcome has one.
    pub fn into_text(self) -> (text: String)
        ensures
            text@ == self.text(),
    {
        match self {
            JobOutcome::Exited { success, stdout, stderr } => if success {
                stdout
            } else {
                stderr
            },
            JobOutcome::NotStarted(description) => {
                proof {
                    reveal_strlit("\n");
                    assert("\n"@ =~= seq!['\n']);
                }
                let text = description.concat("\n");
                assert(text@ =~= description@.push('\n'));
                text
            },
        }
    }
}

} // verus!
