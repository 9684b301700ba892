use rust_parallel::entrycmd::{entrymod, read_line, EntryMode, LineStep};
use rust_parallel::interpretor::Token;
use rust_parallel::job::{Job, JobOutcome};
use rust_parallel::jobmanager::{
    address_of, forward_request, Collector, ConfigurationError, ExecPlan, JobManager, JobResult,
};
use rust_parallel::parallel::Parallel;
use rust_parallel::text::split_words;

static NB_THREAD: Option<usize> = Some(5);

fn strings(items: &[&str]) -> Vec<String> {
    items.iter().map(|item| item.to_string()).collect()
}

fn init_jm(nb: Option<usize>, d_r: bool, k_o: bool) -> JobManager {
    let mut jobmanager = JobManager::new(String::from("/bin/bash"));
    jobmanager.set_exec_env(nb, d_r, k_o, None, None);

    jobmanager
}

fn result(declared_index: usize, text: &str) -> JobResult {
    JobResult { declared_index, text: String::from(text) }
}

/// The jobs of a plan that runs here, with its settings.
fn local(plan: ExecPlan) -> (Vec<Job>, Option<usize>, bool) {
    match plan {
        ExecPlan::Local { jobs, workers, keep_order } => (jobs, workers, keep_order),
        other => panic!("expected a local run, got {:?}", other),
    }
}

#[test]
fn test_echo1() {
    let mut jobmanager = init_jm(NB_THREAD, false, false);

    let args: Vec<String> = vec![
        String::from("echo"),
        String::from("-e"),
        String::from("'Hello\nWorld'"),
    ];
    jobmanager.add_job(Job::new(args));

    let (jobs, workers, keep_order) = local(jobmanager.plan().unwrap());
    assert_eq!(jobs.len(), 1);
    assert_eq!(jobs[0].program(), "echo");
    assert_eq!(jobs[0].arguments(), &strings(&["-e", "'Hello\nWorld'"]));
    assert_eq!(workers, Some(5));
    assert!(!keep_order);
}

#[test]
fn test_echo2() {
    let mut jobmanager = init_jm(NB_THREAD, false, true);

    let args: Vec<String> = vec![String::from("sleep"), String::from("5")];
    jobmanager.add_job(Job::new(args));

    let args: Vec<String> = vec![
        String::from("echo"),
        String::from("Hello"),
        String::from("World"),
    ];
    jobmanager.add_job(Job::new(args));

    let args: Vec<String> = vec![
        String::from("echo"),
        String::from("-e"),
        String::from("'Hello\nWorld'"),
    ];
    jobmanager.add_job(Job::new(args));

    let (jobs, _, keep_order) = local(jobmanager.plan().unwrap());
    assert!(keep_order);
    assert_eq!(jobs.len(), 3);
    assert_eq!(jobs[0].command_line(), "sleep 5");
    assert_eq!(jobs[1].command_line(), "echo Hello World");

    // The sleeper is declared first and ends last.
    let mut collector = Collector::new(jobs.len(), keep_order);
    assert!(collector.record(result(1, "Hello World\n")));
    assert!(collector.record(result(2, "Hello\nWorld\n")));
    assert!(!collector.is_complete());
    assert!(collector.record(result(0, "")));
    assert_eq!(collector.finish(), Some(strings(&["", "Hello World\n", "Hello\nWorld\n"])));
}

#[test]
fn test_notpanick() {
    let mut jobmanager = init_jm(NB_THREAD, false, false);

    let args: Vec<String> = vec![
        String::from("echo"),
        String::from("-e"),
        String::from("'Hello\nWorld'"),
    ];
    jobmanager.add_job(Job::new(args));

    let args: Vec<String> = vec![String::from("unknown")];
    jobmanager.add_job(Job::new(args));

    let (jobs, _, keep_order) = local(jobmanager.plan().unwrap());
    assert_eq!(jobs.len(), 2);
    assert_eq!(jobs[1].program(), "unknown");
    assert!(jobs[1].arguments().is_empty());

    // The job that cannot be started takes its slot like any other.
    let mut collector = Collector::new(jobs.len(), keep_order);
    let failed = JobOutcome::NotStarted(String::from("No such file or directory (os error 2)"));
    let done = JobOutcome::Exited {
        success: true,
        stdout: String::from("Hello\nWorld\n"),
        stderr: String::new(),
    };
    assert!(collector.record(JobResult { declared_index: 1, text: failed.into_text() }));
    assert!(collector.record(JobResult { declared_index: 0, text: done.into_text() }));
    assert_eq!(
        collector.finish(),
        Some(strings(&["No such file or directory (os error 2)\n", "Hello\nWorld\n"]))
    );
}

#[test]
fn lib_test() {
    let args: Vec<String> = vec![
        String::from("echo"),
        String::from(":::"),
        String::from("Hello"),
        String::from("World"),
    ];

    let prg = Parallel::new(String::from("/bin/bash"), args).unwrap();
    assert_eq!(prg.command(), "echo ::: Hello World ");

    let tokens =
        vec![Token::Command(String::from("echo")), Token::Separator(strings(&["Hello", "World"]))];
    let (jobs, workers, keep_order) = local(prg.start(&tokens).unwrap());
    assert_eq!(jobs.len(), 2);
    assert_eq!(jobs[0].program(), "/bin/bash");
    assert_eq!(jobs[0].arguments(), &strings(&["-c", "echo Hello"]));
    assert_eq!(jobs[1].arguments(), &strings(&["-c", "echo World"]));
    assert_eq!(workers, None);
    assert!(!keep_order);
}

#[test]
fn parallel_needs_at_least_one_word() {
    assert!(Parallel::new(String::from("/bin/bash"), Vec::new()).is_none());
}

#[test]
fn parallel_start_reports_why_there_is_no_plan() {
    let prg = Parallel::new(String::from("sh"), strings(&["echo"])).unwrap();
    assert!(prg.start(&vec![Token::Command(String::from("echo"))]).is_err());
}

#[test]
fn parallel_start_forwards_its_command_line_as_a_client() {
    let words = strings(&["--client", "10.0.0.7", "4000", "echo", ":::", "a"]);
    let prg = Parallel::new(String::from("sh"), words).unwrap();
    let tokens = vec![
        Token::Client(String::from("10.0.0.7"), 4000),
        Token::Command(String::from("echo")),
        Token::Separator(strings(&["a"])),
    ];
    match prg.start(&tokens).unwrap() {
        ExecPlan::Client { address, request } => {
            assert_eq!(address, "10.0.0.7:4000");
            assert_eq!(request, "echo ::: a ");
        }
        other => panic!("expected a client, got {:?}", other),
    }
}

#[test]
fn job_command_line_puts_a_space_before_each_argument() {
    assert_eq!(Job::new(strings(&["ls"])).command_line(), "ls");
    assert_eq!(Job::new(strings(&["ls", "-l", "", "x y"])).command_line(), "ls -l  x y");
}

#[test]
fn outcome_text_is_stdout_on_success_and_stderr_on_failure() {
    let ok = JobOutcome::Exited {
        success: true,
        stdout: String::from("out"),
        stderr: String::from("err"),
    };
    let ko = JobOutcome::Exited {
        success: false,
        stdout: String::from("out"),
        stderr: String::from("err"),
    };
    assert_eq!(ok.into_text(), "out");
    assert_eq!(ko.into_text(), "err");
    assert_eq!(JobOutcome::NotStarted(String::from("not found")).into_text(), "not found\n");
}

#[test]
fn zero_workers_means_no_limit() {
    let (_, workers, _) = local(init_jm(Some(0), false, false).plan().unwrap());
    assert_eq!(workers, None);
    let (_, workers, _) = local(init_jm(Some(1), false, false).plan().unwrap());
    assert_eq!(workers, Some(1));
    let (_, workers, _) = local(init_jm(None, false, false).plan().unwrap());
    assert_eq!(workers, None);
}

#[test]
fn dry_run_comes_before_the_remote_roles() {
    let mut jm = JobManager::new(String::from("sh"));
    jm.add_job(Job::new(strings(&["echo", "a"])));
    jm.set_exec_env(None, true, false, None, Some((String::from("h"), 2)));
    match jm.plan().unwrap() {
        ExecPlan::DryRun { lines } => assert_eq!(lines, strings(&["echo a"])),
        other => panic!("expected a dry run, got {:?}", other),
    }

    let mut server = JobManager::new(String::from("sh"));
    server.set_exec_env(None, true, false, Some(1), None);
    assert!(matches!(server.plan(), Ok(ExecPlan::DryRun { lines }) if lines.is_empty()));
}

#[test]
fn a_manager_set_to_both_roles_has_no_plan() {
    let mut jm = JobManager::new(String::from("sh"));
    jm.add_job(Job::new(strings(&["echo", "a"])));
    jm.set_request(String::from("--server 1 --client h 2 echo ::: a"));
    jm.set_exec_env(None, false, false, Some(1), Some((String::from("h"), 2)));
    let refused = jm.plan().unwrap_err();
    assert_eq!(refused, ConfigurationError::BothSourceAndRemote);
    assert_eq!(refused.message(), "You can't be the server and the client at the same time.");

    let mut dry = JobManager::new(String::from("sh"));
    dry.set_exec_env(Some(2), true, true, Some(1), Some((String::from("h"), 2)));
    assert_eq!(dry.plan().unwrap_err(), ConfigurationError::BothSourceAndRemote);
}

#[test]
fn the_client_forwards_its_request_to_the_address_it_was_given() {
    let mut jm = JobManager::new(String::from("sh"));
    jm.set_request(String::from("--keep-order --client h 2 echo ::: a"));
    jm.set_exec_env(None, false, true, None, Some((String::from("h"), 2)));
    match jm.plan().unwrap() {
        ExecPlan::Client { address, request } => {
            assert_eq!(address, "h:2");
            assert_eq!(request, "--keep-order echo ::: a ");
        }
        other => panic!("expected a client, got {:?}", other),
    }
}

#[test]
fn forward_request_takes_out_the_first_client_option() {
    assert_eq!(forward_request("--client 127.0.0.1 2021 echo ::: 1"), "echo ::: 1 ");
    assert_eq!(forward_request("  -j 2\t--CLIENT h 1   echo {}\n::: a b"), "-j 2 echo {} ::: a b ");
    assert_eq!(forward_request("--client a 1 --client b 2 x"), "--client b 2 x ");
}

#[test]
fn forward_request_without_the_option_only_respaces() {
    assert_eq!(forward_request("echo  :::  1"), "echo ::: 1 ");
    assert_eq!(forward_request(""), "");
    assert_eq!(forward_request("   "), "");
}

#[test]
fn forward_request_with_a_cut_option_drops_what_is_there() {
    assert_eq!(forward_request("echo --client host"), "echo ");
    assert_eq!(forward_request("echo --client"), "echo ");
}

#[test]
fn address_of_writes_host_and_port() {
    assert_eq!(address_of("127.0.0.1", 8080), "127.0.0.1:8080");
    assert_eq!(address_of("", 0), ":0");
}

#[test]
fn keep_order_puts_each_result_at_its_declared_index() {
    // The later a job is declared, the sooner it ends.
    let n = 6;
    let mut collector = Collector::new(n, true);
    for index in (0..n).rev() {
        assert!(collector.record(result(index, &format!("job {}", index))));
    }
    assert!(collector.is_complete());
    let expected: Vec<String> = (0..n).map(|index| format!("job {}", index)).collect();
    assert_eq!(collector.finish(), Some(expected));
}

#[test]
fn without_keep_order_results_stand_in_arrival_order() {
    let mut collector = Collector::new(3, false);
    assert!(collector.record(result(2, "c")));
    assert!(collector.record(result(0, "a")));
    assert!(collector.record(result(1, "b")));
    assert_eq!(collector.finish(), Some(strings(&["c", "a", "b"])));
}

#[test]
fn nothing_is_handed_out_before_every_job_has_reported() {
    let mut collector = Collector::new(2, true);
    assert!(!collector.is_complete());
    assert!(collector.record(result(1, "b")));
    assert!(!collector.is_complete());
    assert_eq!(collector.finish(), None);
}

#[test]
fn an_empty_batch_is_complete_at_once() {
    let collector = Collector::new(0, true);
    assert!(collector.is_complete());
    assert_eq!(collector.finish(), Some(Vec::new()));
}

#[test]
fn a_result_without_a_slot_is_not_taken() {
    let mut collector = Collector::new(2, true);
    assert!(!collector.record(result(2, "x")));
    assert!(collector.record(result(0, "a")));
    assert!(collector.record(result(1, "b")));
    assert!(!collector.record(result(0, "late")));
    assert_eq!(collector.finish(), Some(strings(&["a", "b"])));

    let mut unordered = Collector::new(1, false);
    assert!(unordered.record(result(7, "x")));
    assert!(!unordered.record(result(0, "y")));
    assert_eq!(unordered.finish(), Some(strings(&["x"])));
}

#[test]
fn describe_writes_the_settings_and_the_jobs() {
    let mut jm = init_jm(Some(5), false, true);
    jm.add_job(Job::new(strings(&["echo", "a"])));
    jm.add_job(Job::new(strings(&["ls"])));
    assert_eq!(
        jm.describe(),
        format!(
            "JobManager with \n\t{:?} threads \n\tdry-run : {} \n\tkeep-order : {}\n\t{}\n\t{}",
            Some(5),
            false,
            true,
            "echo a",
            "ls"
        )
    );
    assert_eq!(
        JobManager::new(String::from("sh")).describe(),
        "JobManager with \n\tNone threads \n\tdry-run : false \n\tkeep-order : false"
    );
    assert_eq!(JobManager::new(String::from("/bin/zsh")).shell(), "/bin/zsh");
}

#[test]
fn the_forwarded_request_keeps_the_other_words() {
    let request = " --jobs 2  --client 10.0.0.7 4000 echo {}\t::: a  b ";
    assert_eq!(
        split_words(&forward_request(request)),
        strings(&["--jobs", "2", "echo", "{}", ":::", "a", "b"])
    );
}

#[test]
fn the_front_end_is_a_shell_when_given_one_argument() {
    assert_eq!(entrymod(&strings(&["parallel"])), EntryMode::Shell);
    assert_eq!(entrymod(&strings(&[])), EntryMode::NoShell);
    assert_eq!(entrymod(&strings(&["parallel", "echo"])), EntryMode::NoShell);
}

#[test]
fn the_shell_skips_blank_lines_and_leaves_on_exit() {
    assert!(matches!(read_line("\n"), LineStep::Skip));
    assert!(matches!(read_line("  \t \n"), LineStep::Skip));
    assert!(matches!(read_line("exit\n"), LineStep::Exit));
    assert!(matches!(read_line("  exit now\n"), LineStep::Exit));
    assert!(matches!(
        read_line("echo exit\n"),
        LineStep::Keep { command } if command == strings(&["echo", "exit"])
    ));
    assert!(matches!(read_line("Exit\n"), LineStep::Keep { command } if command == strings(&["Exit"])));
}
