//! The entry point: one invocation, from its words to the plan that carries it out.

use crate::interpretor::{interpret, interpreted, token_models, InterpretError, Token};
use crate::jobmanager::{ConfigurationError, ExecPlan, JobManager, JobManagerModel, PlanModel};
use crate::text::{enclose, enclosed};
use vstd::prelude::*;

verus! {

/// One invocation: the command line as one text, and the manager that will hold its
/// jobs.
pub struct Parallel {
    job_manager: JobManager,
    command: String,
}

/// What an invocation is before it is started.
pub struct ParallelModel {
    /// The shell that jobs are started through.
    pub shell: Seq<char>,
    /// The words of the command line, each with a space after it.
    pub command: Seq<char>,
}

impl ParallelModel {
    /// The manager that the invocation starts from: no jobs, the command line as the
    /// request.
    pub open spec fn manager(self) -> JobManagerModel {
        JobManagerModel {
            shell: self.shell,
            jobs: Seq::empty(),
            workers: None,
            dry_run: false,
            keep_order: false,
            listen_port: None,
            remote: None,
            request: self.command,
        }
    }
}

impl View for Parallel {
    type V = ParallelModel;

    closed spec fn view(&self) -> ParallelModel {
        ParallelModel { shell: self.job_manager@.shell, command: self.command@ }
    }
}

impl Parallel {
    /// The manager inside is as it was made.
    #[verifier::type_invariant]
    spec fn unstarted(&self) -> bool {
        self.job_manager@ == (JobManagerModel { request: Seq::empty(), ..self@.manager() })
    }

    /// The invocation made of the words `args`, to be run through `shell`; `None` if
    /// there is no word at all, which calls for the usage.
    pub fn new(shell: String, args: Vec<String>) -> (out: Option<Parallel>)
        ensures
            match out {
                Some(parallel) => args@.len() > 0 && parallel@ == (ParallelModel {
                    shell: shell@,
                    command: enclosed(args.deep_view(), Seq::empty(), seq![' ']),
                }),
                None => args@.len() == 0,
            },
    {
        if args.len() == 0 {
            return None;
        }
        proof {
            reveal_strlit("");
            reveal_strlit(" ");
            assert(""@ =~= Seq::<char>::empty());
            assert(" "@ =~= seq![' ']);
        }
        let job_manager = JobManager::new(shell);
        let command = enclose(&args, "", " ");
        Some(Parallel { job_manager, command })
    }

    /// The command line as one text, which is what the parser is given.
    pub fn command(&self) -> (command: &String)
        ensures
            command@ == self@.command,
    {
        &self.command
    }

    /// Starts the invocation with the tokens that the parser made of its command line:
    /// the plan that carries it out, or why there is none.
    pub fn start(self, tokens: &Vec<Token>) -> (out: Result<ExecPlan, InterpretError>)
        ensures
            match interpreted(self@.manager(), token_models(tokens@)) {
                Ok(manager) => out is Ok && manager.plan() == Ok::<PlanModel, ConfigurationError>(
                    out->Ok_0@,
                ),
                Err(why) => out is Err && out->Err_0@ == why,
            },
    {
        proof {
            use_type_invariant(&self);
        }
        let mut job_manager = self.job_manager;
        job_manager.set_request(self.command);
        match interpret(&mut job_manager, tokens) {
            Ok(()) => match job_manager.plan() {
                Ok(plan) => Ok(plan),
                Err(why) => Err(InterpretError::BothSourceAndRemote(why.message())),
            },
            Err(why) => Err(why),
        }
    }
}

} // verus!
