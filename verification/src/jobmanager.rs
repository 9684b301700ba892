//! The dispatcher: the jobs that wait to be run, how they are to be run, and how their
//! results are put in order.

use crate::job::{Job, JobModel};
use crate::text::{
    decimal, decimal_of, enclose, enclosed, eq_ignoring_ascii_case, is_solid, lemma_position,
    lemma_position_is, lemma_words_are_solid, lemma_words_of_spaced, position,
    same_ignoring_ascii_case, split_words, words,
};
use vstd::prelude::*;

verus! {

/// The jobs of one invocation and the way they are to be run.
pub struct JobManager {
    shell: String,
    cmds: Vec<Job>,
    nb_thread: Option<usize>,
    dry_run: bool,
    keep_order: bool,
    local_port: Option<usize>,
    remote_addr: Option<(String, usize)>,
    request: String,
}

/// What a job manager is.
pub struct JobManagerModel {
    pub shell: Seq<char>,
    /// The pending jobs, in the order they were declared.
    pub jobs: Seq<JobModel>,
    /// How many jobs may run at once; `None` leaves it to the host.
    pub workers: Option<usize>,
    pub dry_run: bool,
    pub keep_order: bool,
    /// The port to listen on as a server.
    pub listen_port: Option<usize>,
    /// The host and port to hand the request to as a client.
    pub remote: Option<(Seq<char>, usize)>,
    /// The invocation as it was typed.
    pub request: Seq<char>,
}

/// What each job of `jobs` is.
pub open spec fn job_models(jobs: Seq<Job>) -> Seq<JobModel> {
    jobs.map_values(|job: Job| job@)
}

impl View for JobManager {
    type V = JobManagerModel;

    closed spec fn view(&self) -> JobManagerModel {
        JobManagerModel {
            shell: self.shell@,
            jobs: job_models(self.cmds@),
            workers: self.nb_thread,
            dry_run: self.dry_run,
            keep_order: self.keep_order,
            listen_port: self.local_port,
            remote: match self.remote_addr {
                Some((host, port)) => Some((host@, port)),
                None => None,
            },
            request: self.request@,
        }
    }
}

impl JobManager {
    /// A manager without jobs that runs things here, in any order, as many at once as
    /// the host likes.
    pub fn new(shell: String) -> (manager: JobManager)
        ensures
            manager@ == (JobManagerModel {
                shell: shell@,
                jobs: Seq::empty(),
                workers: None,
                dry_run: false,
                keep_order: false,
                listen_port: None,
                remote: None,
                request: Seq::empty(),
            }),
    {
        let manager = JobManager {
            shell,
            cmds: Vec::new(),
            nb_thread: None,
            dry_run: false,
            keep_order: false,
            local_port: None,
            remote_addr: None,
            request: String::new(),
        };
        assert(manager@.jobs =~= Seq::empty());
        manager
    }

    /// The shell that jobs are started through.
    pub fn shell(&self) -> (shell: &String)
        ensures
            shell@ == self@.shell,
    {
        &self.shell
    }

    /// Records the invocation as it was typed.
    pub fn set_request(&mut self, request: String)
        ensures
            final(self)@ == (JobManagerModel { request: request@, ..old(self)@ }),
    {
        self.request = request;
    }

    /// Appends a job after those already declared.
    pub fn add_job(&mut self, job: Job)
        ensures
            final(self)@ == (JobManagerModel { jobs: old(self)@.jobs.push(job@), ..old(self)@ }),
    {
        self.cmds.push(job);
        assert(job_models(self.cmds@) =~= job_models(old(self).cmds@).push(job@));
    }

    /// Sets how the jobs are to be run. A worker count of zero means no limit, as
    /// `None` does.
    pub fn set_exec_env(
        &mut self,
        nb: Option<usize>,
        d_r: bool,
        k_o: bool,
        src_port: Option<usize>,
        dst_addr: Option<(String, usize)>,
    )
        ensures
            final(self)@ == (JobManagerModel {
                workers: if nb == Some(0usize) {
                    None
                } else {
                    nb
                },
                dry_run: d_r,
                keep_order: k_o,
                listen_port: src_port,
                remote: match dst_addr {
                    Some((host, port)) => Some((host@, port)),
                    None => None,
                },
                ..old(self)@
            }),
    {
        self.nb_thread = match nb {
            None => None,
            Some(n) => if n == 0 {
                None
            } else {
                nb
            },
        };
        self.dry_run = d_r;
        self.keep_order = k_o;
        self.local_port = src_port;
        self.remote_addr = dst_addr;
    }
}

/// Whether `word` is the option that names the remote peer.
pub open spec fn is_client_option(word: Seq<char>) -> bool {
    same_ignoring_ascii_case(word, "--client"@)
}

/// The test for being the option that names the remote peer.
pub open spec fn client_option() -> spec_fn(Seq<char>) -> bool {
    |word: Seq<char>| is_client_option(word)
}

/// The request as a client forwards it: the words of `request` without the first
/// `--client` and the two words that follow it, each word with a space after it.
pub open spec fn forwarded_request(request: Seq<char>) -> Seq<char> {
    let all = words(request);
    let at = position(all, client_option());
    let end = if at + 3 <= all.len() {
        at + 3
    } else {
        all.len() as int
    };
    enclosed(all.take(at) + all.skip(end), Seq::empty(), seq![' '])
}

/// The server that is handed a forwarded request finds in it the words of the request
/// as it was typed, in their order, without the first `--client` and the two words
/// after it.
pub proof fn lemma_forwarded_request_keeps_the_words(request: Seq<char>)
    ensures
        ({
            let all = words(request);
            let at = position(all, client_option());
            let end = if at + 3 <= all.len() {
                at + 3
            } else {
                all.len() as int
            };
            words(forwarded_request(request)) == all.take(at) + all.skip(end)
        }),
{
    let all = words(request);
    let at = position(all, client_option());
    let end = if at + 3 <= all.len() {
        at + 3
    } else {
        all.len() as int
    };
    let kept = all.take(at) + all.skip(end);
    lemma_position(all, client_option());
    lemma_words_are_solid(request);
    assert forall|i: int| 0 <= i < kept.len() implies is_solid(#[trigger] kept[i]) by {
        if i < at {
            assert(kept[i] == all[i]);
        } else {
            assert(kept[i] == all[i - at + end]);
        }
    }
    lemma_words_of_spaced(kept);
}

/// The address `host:port`.
pub open spec fn address(host: Seq<char>, port: nat) -> Seq<char> {
    host + seq![':'] + decimal(port)
}

/// Writes the request as it is forwarded to the remote peer.
pub fn forward_request(request: &str) -> (out: String)
    ensures
        out@ == forwarded_request(request@),
{
    let all = split_words(request);
    let n = all.len();
    let mut at: usize = 0;
    let mut found = false;
    while at < n && !found
        invariant
            n == all@.len(),
            at <= n,
            forall|i: int| 0 <= i < at ==> !is_client_option(#[trigger] all.deep_view()[i]),
            found ==> at < n && is_client_option(all.deep_view()[at as int]),
        decreases n - at + (if found { 0int } else { 1int }),
    {
        assert(all.deep_view()[at as int] == all@[at as int]@);
        if eq_ignoring_ascii_case(all[at].as_str(), "--client") {
            found = true;
        } else {
            at = at + 1;
        }
    }
    proof {
        lemma_position_is(all.deep_view(), client_option(), at as int);
    }
    let end: usize = if n - at >= 3 {
        at + 3
    } else {
        n
    };
    let mut kept: Vec<String> = Vec::new();
    let mut i: usize = 0;
    while i < at
        invariant
            n == all@.len(),
            i <= at <= n,
            kept.deep_view() == all.deep_view().take(i as int),
        decreases at - i,
    {
        let ghost before = kept.deep_view();
        kept.push(all[i].clone());
        assert(kept.deep_view() =~= before.push(all@[i as int]@));
        assert(kept.deep_view() =~= all.deep_view().take(i + 1));
        i = i + 1;
    }
    i = end;
    assert(kept.deep_view() =~= all.deep_view().take(at as int) + all.deep_view().subrange(
        end as int,
        i as int,
    ));
    while i < n
        invariant
            n == all@.len(),
            at <= end <= i <= n,
            kept.deep_view() == all.deep_view().take(at as int) + all.deep_view().subrange(
                end as int,
                i as int,
            ),
        decreases n - i,
    {
        let ghost before = kept.deep_view();
        kept.push(all[i].clone());
        assert(kept.deep_view() =~= before.push(all@[i as int]@));
        assert(kept.deep_view() =~= all.deep_view().take(at as int) + all.deep_view().subrange(
            end as int,
            i + 1,
        ));
        i = i + 1;
    }
    assert(all.deep_view().subrange(end as int, n as int) =~= all.deep_view().skip(end as int));
    proof {
        reveal_strlit("");
        reveal_strlit(" ");
        assert(""@ =~= Seq::<char>::empty());
        assert(" "@ =~= seq![' ']);
    }
    enclose(&kept, "", " ")
}

/// Writes the address `host:port`.
pub fn address_of(host: &str, port: usize) -> (out: String)
    ensures
        out@ == address(host@, port as nat),
{
    proof {
        reveal_strlit(":");
        assert(":"@ =~= seq![':']);
    }
    let mut out = String::from_str(host);
    out.append(":");
    out.append(decimal_of(port).as_str());
    out
}

/// What is said when both roles are asked for.
pub const BOTH_ROLES_MESSAGE: &'static str =
    "You can't be the server and the client at the same time.";

/// Why a job manager cannot be started as it is set.
#[derive(Clone, Copy, Debug, PartialEq, Eq, Structural)]
pub enum ConfigurationError {
    /// It is set to listen as a server and to hand its request to a server.
    BothSourceAndRemote,
}

impl ConfigurationError {
    /// Says what is wrong.
    pub fn message(&self) -> (message: String)
        ensures
            message@ == BOTH_ROLES_MESSAGE@,
    {
        String::from_str(BOTH_ROLES_MESSAGE)
    }
}

/// What a job manager is to do when it is started.
#[derive(Debug)]
pub enum ExecPlan {
    /// Show these lines, one per job, and run nothing.
    DryRun { lines: Vec<String> },
    /// Hand the request to the server at the address and show what it answers.
    Client { address: String, request: String },
    /// Listen at the address and serve each connection.
    Server { address: String },
    /// Run the jobs here, at most `workers` at once where a number is given.
    Local { jobs: Vec<Job>, workers: Option<usize>, keep_order: bool },
}

/// What a plan is.
pub enum PlanModel {
    DryRun { lines: Seq<Seq<char>> },
    Client { address: Seq<char>, request: Seq<char> },
    Server { address: Seq<char> },
    Local { jobs: Seq<JobModel>, workers: Option<usize>, keep_order: bool },
}

impl View for ExecPlan {
    type V = PlanModel;

    open spec fn view(&self) -> PlanModel {
        match self {
            ExecPlan::DryRun { lines } => PlanModel::DryRun { lines: lines.deep_view() },
            ExecPlan::Client { address, request } => PlanModel::Client {
                address: address@,
                request: request@,
            },
            ExecPlan::Server { address } => PlanModel::Server { address: address@ },
            ExecPlan::Local { jobs, workers, keep_order } => PlanModel::Local {
                jobs: job_models(jobs@),
                workers: *workers,
                keep_order: *keep_order,
            },
        }
    }
}

impl JobManagerModel {
    /// Whether the settings can be carried out: a manager is the server or the client
    /// or neither, never both.
    pub open spec fn valid(self) -> bool {
        !(self.listen_port is Some && self.remote is Some)
    }

    /// What is to be done, if the settings are valid: a dry run comes before
    /// everything, then the client role or the server role; without any of them the
    /// jobs are run here.
    pub open spec fn plan(self) -> Result<PlanModel, ConfigurationError> {
        if !self.valid() {
            Err(ConfigurationError::BothSourceAndRemote)
        } else if self.dry_run {
            Ok(PlanModel::DryRun { lines: self.jobs.map_values(|job: JobModel| job.line()) })
        } else if let Some((host, port)) = self.remote {
            Ok(
                PlanModel::Client {
                    address: address(host, port as nat),
                    request: forwarded_request(self.request),
                },
            )
        } else if let Some(port) = self.listen_port {
            Ok(PlanModel::Server { address: address("127.0.0.1"@, port as nat) })
        } else {
            Ok(
                PlanModel::Local {
                    jobs: self.jobs,
                    workers: self.workers,
                    keep_order: self.keep_order,
                },
            )
        }
    }
}

/// A worker count as it is shown.
pub open spec fn workers_text(workers: Option<usize>) -> Seq<char> {
    match workers {
        Some(n) => "Some("@ + decimal(n as nat) + ")"@,
        None => "None"@,
    }
}

/// A switch as it is shown.
pub open spec fn switch_text(on: bool) -> Seq<char> {
    if on {
        "true"@
    } else {
        "false"@
    }
}

impl JobManagerModel {
    /// The manager written out: how it is set, then its jobs, one to a line.
    pub open spec fn described(self) -> Seq<char> {
        "JobManager with \n\t"@ + workers_text(self.workers) + " threads \n\tdry-run : "@
            + switch_text(self.dry_run) + " \n\tkeep-order : "@ + switch_text(self.keep_order)
            + enclosed(self.jobs.map_values(|job: JobModel| job.line()), "\n\t"@, Seq::empty())
    }
}

impl JobManager {
    /// Writes out how the manager is set and what jobs it holds.
    pub fn describe(&self) -> (text: String)
        ensures
            text@ == self@.described(),
    {
        let mut text = String::from_str("JobManager with \n\t");
        match self.nb_thread {
            Some(n) => {
                text.append("Some(");
                text.append(decimal_of(n).as_str());
                text.append(")");
            },
            None => {
                text.append("None");
            },
        }
        text.append(" threads \n\tdry-run : ");
        text.append(if self.dry_run {
            "true"
        } else {
            "false"
        });
        text.append(" \n\tkeep-order : ");
        text.append(if self.keep_order {
            "true"
        } else {
            "false"
        });
        let ghost head = text@;
        let n = self.cmds.len();
        let ghost lines = self@.jobs.map_values(|job: JobModel| job.line());
        let mut i: usize = 0;
        assert(lines.take(0) =~= Seq::empty());
        assert(text@ =~= head + enclosed(lines.take(0), "\n\t"@, Seq::empty()));
        while i < n
            invariant
                n == self.cmds@.len(),
                i <= n,
                lines == self@.jobs.map_values(|job: JobModel| job.line()),
                text@ == head + enclosed(lines.take(i as int), "\n\t"@, Seq::empty()),
            decreases n - i,
        {
            text.append("\n\t");
            text.append(self.cmds[i].command_line().as_str());
            proof {
                let upto = lines.take(i + 1);
                assert(upto.drop_last() =~= lines.take(i as int));
                assert(upto.last() == self.cmds@[i as int]@.line());
                assert(text@ =~= head + enclosed(upto, "\n\t"@, Seq::empty()));
            }
            i = i + 1;
        }
        assert(lines.take(n as int) =~= lines);
        text
    }

    /// Decides what starting the manager amounts to and hands over what it takes.
    /// Settings that ask for both roles are refused before anything is run or sent.
    pub fn plan(self) -> (plan: Result<ExecPlan, ConfigurationError>)
        ensures
            match plan {
                Ok(plan) => self@.plan() == Ok::<PlanModel, ConfigurationError>(plan@),
                Err(why) => self@.plan() == Err::<PlanModel, ConfigurationError>(why),
            },
    {
        if self.local_port.is_some() && self.remote_addr.is_some() {
            return Err(ConfigurationError::BothSourceAndRemote);
        }
        if self.dry_run {
            let n = self.cmds.len();
            let mut lines: Vec<String> = Vec::new();
            let mut i: usize = 0;
            while i < n
                invariant
                    n == self.cmds@.len(),
                    i <= n,
                    lines.deep_view() == self@.jobs.map_values(|job: JobModel| job.line()).take(
                        i as int,
                    ),
                decreases n - i,
            {
                let ghost before = lines.deep_view();
                let line = self.cmds[i].command_line();
                lines.push(line);
                assert(lines.deep_view() =~= before.push(self.cmds@[i as int]@.line()));
                assert(lines.deep_view() =~= self@.jobs.map_values(
                    |job: JobModel| job.line(),
                ).take(i + 1));
                i = i + 1;
            }
            assert(lines.deep_view() =~= self@.jobs.map_values(|job: JobModel| job.line()));
            Ok(ExecPlan::DryRun { lines })
        } else if let Some((host, port)) = &self.remote_addr {
            Ok(
                ExecPlan::Client {
                    address: address_of(host.as_str(), *port),
                    request: forward_request(self.request.as_str()),
                },
            )
        } else if let Some(port) = self.local_port {
            Ok(ExecPlan::Server { address: address_of("127.0.0.1", port) })
        } else {
            Ok(
                ExecPlan::Local {
                    jobs: self.cmds,
                    workers: self.nb_thread,
                    keep_order: self.keep_order,
                },
            )
        }
    }
}

/// The result of one job as it arrives: the index the job was declared at, and the
/// text that stands for how it ended.
#[derive(Debug)]
pub struct JobResult {
    pub declared_index: usize,
    pub text: String,
}

/// What a job result is.
pub struct JobResultModel {
    pub declared_index: nat,
    pub text: Seq<char>,
}

impl View for JobResult {
    type V = JobResultModel;

    open spec fn view(&self) -> JobResultModel {
        JobResultModel { declared_index: self.declared_index as nat, text: self.text@ }
    }
}

/// The single point where the results of a batch come together.
pub struct Collector {
    keep_order: bool,
    messages: Vec<String>,
    arrived: usize,
}

/// What a collector is: one slot per job, and how many results have come in.
pub struct CollectorModel {
    pub keep_order: bool,
    pub slots: Seq<Seq<char>>,
    pub arrived: nat,
}

impl CollectorModel {
    /// The collector of a batch of `total` jobs before any result: every slot empty.
    pub open spec fn fresh(total: nat, keep_order: bool) -> CollectorModel {
        CollectorModel {
            keep_order,
            slots: Seq::new(total, |i: int| Seq::<char>::empty()),
            arrived: 0,
        }
    }

    /// Whether every job has reported.
    pub open spec fn complete(self) -> bool {
        self.arrived >= self.slots.len()
    }

    /// Whether a result declared at `index` is taken: a result is still missing and,
    /// where the order is kept, there is a slot at `index`.
    pub open spec fn accepts(self, index: nat) -> bool {
        !self.complete() && (self.keep_order ==> index < self.slots.len())
    }

    /// The collector after a result came in. Where the order is kept the text goes to
    /// the slot of its declared index, else to the first slot not yet used by an
    /// arrival. A result that is not taken changes nothing.
    pub open spec fn record(self, result: JobResultModel) -> CollectorModel {
        if self.accepts(result.declared_index) {
            let slot = if self.keep_order {
                result.declared_index as int
            } else {
                self.arrived as int
            };
            CollectorModel {
                slots: self.slots.update(slot, result.text),
                arrived: self.arrived + 1,
                ..self
            }
        } else {
            self
        }
    }

    /// The collector after the results of `arrivals` came in, first to last.
    pub open spec fn record_all(self, arrivals: Seq<JobResultModel>) -> CollectorModel
        decreases arrivals.len(),
    {
        if arrivals.len() == 0 {
            self
        } else {
            self.record_all(arrivals.drop_last()).record(arrivals.last())
        }
    }
}

impl View for Collector {
    type V = CollectorModel;

    closed spec fn view(&self) -> CollectorModel {
        CollectorModel {
            keep_order: self.keep_order,
            slots: self.messages.deep_view(),
            arrived: self.arrived as nat,
        }
    }
}

impl Collector {
    /// A collector for a batch of `total` jobs.
    pub fn new(total: usize, keep_order: bool) -> (collector: Collector)
        ensures
            collector@ == CollectorModel::fresh(total as nat, keep_order),
    {
        let mut messages: Vec<String> = Vec::new();
        let mut i: usize = 0;
        while i < total
            invariant
                i <= total,
                messages@.len() == i,
                forall|k: int| 0 <= k < i ==> messages@[k]@ == Seq::<char>::empty(),
            decreases total - i,
        {
            messages.push(String::new());
            i = i + 1;
        }
        let collector = Collector { keep_order, messages, arrived: 0 };
        assert(collector@.slots =~= CollectorModel::fresh(total as nat, keep_order).slots);
        collector
    }

    /// Takes in one result and tells whether it was taken.
    pub fn record(&mut self, result: JobResult) -> (taken: bool)
        ensures
            taken == old(self)@.accepts(result@.declared_index),
            final(self)@ == old(self)@.record(result@),
    {
        let total = self.messages.len();
        if self.arrived >= total {
            return false;
        }
        let slot = if self.keep_order {
            result.declared_index
        } else {
            self.arrived
        };
        if slot >= total {
            return false;
        }
        let ghost before = self.messages.deep_view();
        self.messages.set(slot, result.text);
        self.arrived = self.arrived + 1;
        assert(self.messages.deep_view() =~= before.update(slot as int, result.text@));
        true
    }

    /// Whether every job has reported.
    pub fn is_complete(&self) -> (complete: bool)
        ensures
            complete == self@.complete(),
    {
        self.arrived >= self.messages.len()
    }

    /// Hands out the texts, slot by slot, once every job has reported; `None` before
    /// that, so that no partial set of results is ever shown.
    pub fn finish(self) -> (messages: Option<Vec<String>>)
        ensures
            match messages {
                Some(texts) => self@.complete() && texts.deep_view() == self@.slots,
                None => !self@.complete(),
            },
    {
        if self.arrived >= self.messages.len() {
            Some(self.messages)
        } else {
            None
        }
    }
}

/// What holds while the results of jobs with distinct declared indexes come in with
/// the order kept: every one is taken, and each text stands in the slot of its index.
proof fn lemma_kept_order_so_far(total: nat, arrivals: Seq<JobResultModel>)
    requires
        arrivals.len() <= total,
        forall|k: int| 0 <= k < arrivals.len() ==> (#[trigger] arrivals[k]).declared_index < total,
        forall|j: int, k: int|
            0 <= j < k < arrivals.len() ==> (#[trigger] arrivals[j]).declared_index != (
            #[trigger] arrivals[k]).declared_index,
    ensures
        ({
            let end = CollectorModel::fresh(total, true).record_all(arrivals);
            &&& end.keep_order
            &&& end.arrived == arrivals.len()
            &&& end.slots.len() == total
            &&& forall|k: int|
                0 <= k < arrivals.len() ==> end.slots[(#[trigger] arrivals[k]).declared_index as int]
                    == arrivals[k].text
        }),
    decreases arrivals.len(),
{
    if arrivals.len() > 0 {
        let earlier = arrivals.drop_last();
        assert forall|k: int| 0 <= k < earlier.len() implies (#[trigger] earlier[k]).declared_index
            < total by {
            assert(earlier[k] == arrivals[k]);
        }
        assert forall|j: int, k: int| 0 <= j < k < earlier.len() implies (
        #[trigger] earlier[j]).declared_index != (#[trigger] earlier[k]).declared_index by {
            assert(earlier[j] == arrivals[j]);
            assert(earlier[k] == arrivals[k]);
        }
        lemma_kept_order_so_far(total, earlier);
        let mid = CollectorModel::fresh(total, true).record_all(earlier);
        let end = mid.record(arrivals.last());
        let last = arrivals.len() - 1;
        assert(arrivals.last() == arrivals[last]);
        assert forall|k: int| 0 <= k < arrivals.len() implies end.slots[(
        #[trigger] arrivals[k]).declared_index as int] == arrivals[k].text by {
            if k < last {
                assert(earlier[k] == arrivals[k]);
                assert(arrivals[k].declared_index != arrivals[last].declared_index);
            }
        }
    }
}

/// With the order kept, the final order is the declared order whichever job ends
/// first: when each job of a batch has reported once, each text stands at the index its
/// job was declared at.
pub proof fn lemma_keep_order_is_declared_order(arrivals: Seq<JobResultModel>)
    requires
        forall|k: int|
            0 <= k < arrivals.len() ==> (#[trigger] arrivals[k]).declared_index < arrivals.len(),
        forall|j: int, k: int|
            0 <= j < k < arrivals.len() ==> (#[trigger] arrivals[j]).declared_index != (
            #[trigger] arrivals[k]).declared_index,
    ensures
        ({
            let end = CollectorModel::fresh(arrivals.len(), true).record_all(arrivals);
            &&& end.complete()
            &&& end.slots.len() == arrivals.len()
            &&& forall|k: int|
                0 <= k < arrivals.len() ==> end.slots[(#[trigger] arrivals[k]).declared_index as int]
                    == arrivals[k].text
        }),
{
    lemma_kept_order_so_far(arrivals.len(), arrivals);
}

/// What holds while results come in without the order kept: every one is taken, and
/// the texts stand in the order of arrival.
proof fn lemma_arrival_order_so_far(total: nat, arrivals: Seq<JobResultModel>)
    requires
        arrivals.len() <= total,
    ensures
        ({
            let end = CollectorModel::fresh(total, false).record_all(arrivals);
            &&& !end.keep_order
            &&& end.arrived == arrivals.len()
            &&& end.slots.len() == total
            &&& forall|k: int| 0 <= k < arrivals.len() ==> end.slots[k] == arrivals[k].text
        }),
    decreases arrivals.len(),
{
    if arrivals.len() > 0 {
        lemma_arrival_order_so_far(total, arrivals.drop_last());
    }
}

/// Without the order kept, the final order is the order of arrival, with exactly one
/// text for each result that came in.
pub proof fn lemma_unordered_is_arrival_order(arrivals: Seq<JobResultModel>)
    ensures
        ({
            let end = CollectorModel::fresh(arrivals.len(), false).record_all(arrivals);
            &&& end.complete()
            &&& end.slots == arrivals.map_values(|result: JobResultModel| result.text)
        }),
{
    lemma_arrival_order_so_far(arrivals.len(), arrivals);
    let end = CollectorModel::fresh(arrivals.len(), false).record_all(arrivals);
    assert(end.slots =~= arrivals.map_values(|result: JobResultModel| result.text));
}

} // verus!
