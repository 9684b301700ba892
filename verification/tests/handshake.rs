use rust_parallel::remote::channel::{
    ByteOrder, Channel, ChannelListener, ChannelState, Interest, ReadOutcome, WriteOutcome,
};
use rust_parallel::remote::client::{ClientStep, ParallelClient};
use rust_parallel::remote::handshake::{
    NO_MORE_FILES, READY_FOR_NEXT_FILE, READY_FOR_REQUEST, SENDING_FILES, SENDING_REQUEST,
    WAITING_FOR_NEW_FILE,
};
use rust_parallel::remote::server::{candidate_path, ParallelWorker, WorkerState, WorkerStep};
use std::collections::BTreeMap;
use std::sync::{Arc, Mutex};

type Disk = Arc<Mutex<BTreeMap<String, Vec<u8>>>>;

fn strings(items: &[&str]) -> Vec<String> {
    items.iter().map(|item| item.to_string()).collect()
}

fn reply(step: WorkerStep) -> Vec<u8> {
    match step {
        WorkerStep::Reply { payload } => payload,
        other => panic!("expected a reply, got {:?}", other),
    }
}

/// The client with the files it can read, as the owner of a channel.
struct ClientEnd {
    client: ParallelClient,
    disk: Disk,
    violated: bool,
}

impl ChannelListener for ClientEnd {
    fn received(&mut self, buffer: Vec<u8>) -> Option<Vec<u8>> {
        match self.client.received(buffer) {
            ClientStep::Reply { payload } => Some(payload),
            ClientStep::SendFile { name } => Some(self.disk.lock().unwrap()[&name].clone()),
            ClientStep::Finished => None,
            ClientStep::Violation => {
                self.violated = true;
                None
            }
        }
    }

    fn sent(&mut self) -> Option<()> {
        self.client.sent()
    }
}

/// The worker with the scratch directory it stores into, as the owner of a channel.
struct WorkerEnd {
    worker: ParallelWorker,
    scratch: Disk,
    violated: bool,
}

impl ChannelListener for WorkerEnd {
    fn received(&mut self, buffer: Vec<u8>) -> Option<Vec<u8>> {
        match self.worker.received(buffer) {
            WorkerStep::Reply { payload } => Some(payload),
            WorkerStep::Store { path, data } => {
                let mut path = path;
                while self.scratch.lock().unwrap().contains_key(&path) {
                    path = self.worker.collided()?;
                }
                self.scratch.lock().unwrap().insert(path, data);
                self.worker.stored()
            }
            WorkerStep::Execute { request } => {
                let texts = vec![String::from("ran: "), request];
                self.worker.executed(&texts)
            }
            WorkerStep::Violation => {
                self.violated = true;
                None
            }
        }
    }

    fn sent(&mut self) -> Option<()> {
        self.worker.sent()
    }
}

/// Moves what `from` has to write over to `to`, a few bytes at a time.
fn pump<A: ChannelListener, B: ChannelListener>(
    from: &mut Channel<A>,
    to: &mut Channel<B>,
    step: usize,
) {
    while from.interest() == Some(Interest::Writable) {
        let offered = from.write_request();
        let taken = offered.len().min(step);
        let mut wire = offered[..taken].to_vec();
        from.on_write(WriteOutcome::Written(taken)).unwrap();
        while !wire.is_empty() {
            let want = to.read_request();
            assert!(want > 0, "the peer does not read");
            let rest = wire.split_off(want.min(wire.len()));
            to.on_read(ReadOutcome::Data(wire)).unwrap();
            wire = rest;
        }
    }
}

/// Runs one connection to its end and gives back both ends.
fn exchange(client: ParallelClient, local: Disk, scratch: Disk, step: usize) -> (ClientEnd, WorkerEnd) {
    let order = ByteOrder::native();
    let opening = client.opening();
    let mut near =
        Channel::with_order(ClientEnd { client, disk: local, violated: false }, order);
    let worker = ParallelWorker::new(String::from("tmp/"));
    let mut far = Channel::with_order(WorkerEnd { worker, scratch, violated: false }, order);

    near.send(opening);
    near.set_interest(Interest::Writable);
    far.set_interest(Interest::Readable);
    let mut rounds = 0;
    while near.state() != ChannelState::Closed {
        pump(&mut near, &mut far, step);
        pump(&mut far, &mut near, step);
        rounds += 1;
        assert!(rounds < 100, "the handshake does not end");
    }
    assert_eq!(far.state(), ChannelState::Closed);
    (near.into_listener(), far.into_listener())
}

fn disk(files: &[(&str, Vec<u8>)]) -> Disk {
    let mut map = BTreeMap::new();
    for (name, data) in files {
        map.insert(name.to_string(), data.clone());
    }
    Arc::new(Mutex::new(map))
}

#[test]
fn test_exchange() {
    let client = ParallelClient::new(String::from("127.0.0.1:8888"), "Hello World!".to_string());
    let scratch = disk(&[]);
    let (near, far) = exchange(client, disk(&[]), scratch.clone(), 5);

    assert!(!near.violated && !far.violated);
    assert_eq!(near.client.response(), "ran: Hello World!");
    assert_eq!(far.worker.request(), "Hello World!");
    assert_eq!(far.worker.result(), "ran: Hello World!");
    assert_eq!(far.worker.state(), WorkerState::SendingResult);
    assert!(scratch.lock().unwrap().is_empty());
}

#[test]
fn test_file_exchange() {
    let local =
        disk(&[("toto", b"Hello World !".to_vec()), ("toto2", b"Hello World 2 !".to_vec())]);
    let mut client =
        ParallelClient::new(String::from("127.0.0.1:8889"), "Hello World!".to_string());
    client.add_files(vec!["toto".to_string(), "toto2".to_string()]);
    let scratch = disk(&[]);
    let (near, far) = exchange(client, local, scratch.clone(), 64);

    assert!(!near.violated && !far.violated);
    assert_eq!(near.client.response(), "ran: Hello World!");
    assert_eq!(scratch.lock().unwrap()["tmp/toto"], b"Hello World !".to_vec());
    assert_eq!(scratch.lock().unwrap()["tmp/toto2"], b"Hello World 2 !".to_vec());
    assert_eq!(
        far.worker.files(),
        &vec![
            (String::from("toto"), String::from("tmp/toto")),
            (String::from("toto2"), String::from("tmp/toto2")),
        ]
    );
}

#[test]
fn test_duplicate_file_exchange() {
    let local = disk(&[("titi", b"Hello World !".to_vec())]);
    let mut client =
        ParallelClient::new(String::from("127.0.0.1:8890"), "Hello World!".to_string());
    client.add_files(vec!["titi".to_string(), "titi".to_string()]);
    let scratch = disk(&[]);
    let (near, far) = exchange(client, local, scratch.clone(), 7);

    assert!(!near.violated && !far.violated);
    assert_eq!(near.client.response(), "ran: Hello World!");
    let stored: Vec<String> = scratch.lock().unwrap().keys().cloned().collect();
    assert_eq!(stored, strings(&["tmp/titi", "tmp/titi(1)"]));
    assert_eq!(
        far.worker.files(),
        &vec![
            (String::from("titi"), String::from("tmp/titi")),
            (String::from("titi"), String::from("tmp/titi(1)")),
        ]
    );
}

#[test]
fn test_big_file() {
    let local = disk(&[("tata", vec![1; 1000000])]);
    let mut client =
        ParallelClient::new(String::from("127.0.0.1:8891"), "Hello World!".to_string());
    client.add_files(vec!["tata".to_string()]);
    let scratch = disk(&[]);
    let (near, far) = exchange(client, local, scratch.clone(), 65536);

    assert!(!near.violated && !far.violated);
    assert_eq!(near.client.response(), "ran: Hello World!");
    assert_eq!(scratch.lock().unwrap()["tmp/tata"].len(), 1000000);
    assert_eq!(scratch.lock().unwrap()["tmp/tata"], vec![1; 1000000]);
}

#[test]
fn a_file_that_is_no_text_is_stored_byte_for_byte() {
    let content = vec![0xff, 0x00, 0xc3, 0x28, 0x80];
    let local = disk(&[("raw", content.clone())]);
    let mut client = ParallelClient::new(String::from("h:1"), String::from("r"));
    client.add_files(strings(&["raw"]));
    let scratch = disk(&[]);
    let (near, far) = exchange(client, local, scratch.clone(), 3);
    assert!(!near.violated && !far.violated);
    assert_eq!(scratch.lock().unwrap()["tmp/raw"], content);
}

#[test]
fn a_third_collision_gets_the_next_number() {
    let scratch = disk(&[("tmp/a", vec![]), ("tmp/a(1)", vec![]), ("tmp/a(2)", vec![])]);
    let local = disk(&[("a", b"new".to_vec())]);
    let mut client = ParallelClient::new(String::from("h:1"), String::from("r"));
    client.add_files(strings(&["a"]));
    let (_, far) = exchange(client, local, scratch.clone(), 16);
    assert_eq!(scratch.lock().unwrap()["tmp/a(3)"], b"new".to_vec());
    assert_eq!(far.worker.files(), &vec![(String::from("a"), String::from("tmp/a(3)"))]);
}

#[test]
fn candidate_paths_carry_the_attempt_in_brackets() {
    assert_eq!(candidate_path("tmp/", "name", 0), "tmp/name");
    assert_eq!(candidate_path("tmp/", "name", 1), "tmp/name(1)");
    assert_eq!(candidate_path("tmp/", "name.txt", 10), "tmp/name.txt(10)");
    assert_eq!(candidate_path("", "", 205), "(205)");
}

#[test]
fn the_worker_walks_through_its_states() {
    let mut worker = ParallelWorker::new(String::from("tmp/"));
    assert_eq!(worker.state(), WorkerState::Idle);
    assert_eq!(worker.sent(), Some(()));

    assert_eq!(reply(worker.received(SENDING_FILES.as_bytes().to_vec())), WAITING_FOR_NEW_FILE.as_bytes());
    assert_eq!(worker.state(), WorkerState::WaitingFileName);

    assert_eq!(reply(worker.received(b"data.csv".to_vec())), READY_FOR_NEXT_FILE.as_bytes());
    assert_eq!(worker.state(), WorkerState::WaitingFileData);

    match worker.received(vec![1, 2, 3]) {
        WorkerStep::Store { path, data } => {
            assert_eq!(path, "tmp/data.csv");
            assert_eq!(data, vec![1, 2, 3]);
        }
        other => panic!("expected a file to store, got {:?}", other),
    }
    assert_eq!(worker.state(), WorkerState::WaitingFileData);
    assert_eq!(worker.collided(), Some(String::from("tmp/data.csv(1)")));
    assert_eq!(worker.collided(), Some(String::from("tmp/data.csv(2)")));
    assert_eq!(worker.stored(), Some(WAITING_FOR_NEW_FILE.as_bytes().to_vec()));
    assert_eq!(worker.state(), WorkerState::WaitingFileName);
    assert_eq!(worker.files(), &vec![(String::from("data.csv"), String::from("tmp/data.csv(2)"))]);

    assert_eq!(reply(worker.received(NO_MORE_FILES.as_bytes().to_vec())), READY_FOR_REQUEST.as_bytes());
    assert_eq!(worker.state(), WorkerState::WaitingRequest);

    match worker.received(b"echo ::: a b".to_vec()) {
        WorkerStep::Execute { request } => assert_eq!(request, "echo ::: a b"),
        other => panic!("expected a request to run, got {:?}", other),
    }
    assert_eq!(worker.request(), "echo ::: a b");
    assert_eq!(worker.executed(&strings(&["a\n", "b\n"])), Some(b"a\nb\n".to_vec()));
    assert_eq!(worker.state(), WorkerState::SendingResult);
    assert_eq!(worker.result(), "a\nb\n");
    assert_eq!(worker.sent(), None);
}

#[test]
fn the_worker_takes_the_request_at_once_without_files() {
    let mut worker = ParallelWorker::new(String::from("tmp/"));
    assert_eq!(reply(worker.received(SENDING_REQUEST.as_bytes().to_vec())), READY_FOR_REQUEST.as_bytes());
    assert_eq!(worker.state(), WorkerState::WaitingRequest);
    assert!(matches!(worker.received(b"--dry-run echo ::: a".to_vec()), WorkerStep::Execute { .. }));
    assert_eq!(worker.executed(&Vec::new()), Some(Vec::new()));
    assert_eq!(worker.result(), "");
    assert_eq!(worker.state(), WorkerState::SendingResult);
}

#[test]
fn the_worker_takes_no_report_it_did_not_ask_for() {
    let mut worker = ParallelWorker::new(String::from("tmp/"));
    worker.received(SENDING_FILES.as_bytes().to_vec());
    worker.received(b"a".to_vec());
    assert_eq!(worker.state(), WorkerState::WaitingFileData);
    // The content has not come in yet: there is nothing to store.
    assert_eq!(worker.stored(), None);
    assert_eq!(worker.collided(), None);
    assert!(worker.files().is_empty());
    assert!(matches!(worker.received(vec![1]), WorkerStep::Store { .. }));
    // The file is neither stored nor refused yet: no further payload is due.
    assert!(matches!(worker.received(vec![2]), WorkerStep::Violation));
    assert_eq!(worker.executed(&strings(&["x"])), None);
    assert_eq!(worker.stored(), Some(WAITING_FOR_NEW_FILE.as_bytes().to_vec()));
    // One report for one step.
    assert_eq!(worker.stored(), None);
    assert_eq!(worker.files().len(), 1);

    worker.received(NO_MORE_FILES.as_bytes().to_vec());
    assert_eq!(worker.executed(&strings(&["x"])), None);
    assert!(matches!(worker.received(b"r".to_vec()), WorkerStep::Execute { .. }));
    assert!(matches!(worker.received(b"r".to_vec()), WorkerStep::Violation));
    assert_eq!(worker.stored(), None);
    assert_eq!(worker.executed(&strings(&["x"])), Some(b"x".to_vec()));
    assert_eq!(worker.executed(&strings(&["x"])), None);
}

#[test]
fn the_worker_refuses_what_has_no_place_in_its_state() {
    let mut idle = ParallelWorker::new(String::from("tmp/"));
    assert!(matches!(idle.received(b"Hello".to_vec()), WorkerStep::Violation));
    assert!(matches!(idle.received(NO_MORE_FILES.as_bytes().to_vec()), WorkerStep::Violation));
    assert_eq!(idle.state(), WorkerState::Idle);
    assert_eq!(idle.stored(), None);
    assert_eq!(idle.collided(), None);
    assert_eq!(idle.executed(&strings(&["x"])), None);
    assert_eq!(idle.state(), WorkerState::Idle);

    let mut naming = ParallelWorker::new(String::from("tmp/"));
    naming.received(SENDING_FILES.as_bytes().to_vec());
    assert!(matches!(naming.received(vec![0xff, 0xfe]), WorkerStep::Violation));
    assert_eq!(naming.state(), WorkerState::WaitingFileName);

    let mut asking = ParallelWorker::new(String::from("tmp/"));
    asking.received(SENDING_REQUEST.as_bytes().to_vec());
    assert!(matches!(asking.received(vec![0xc3, 0x28]), WorkerStep::Violation));
    assert_eq!(asking.state(), WorkerState::WaitingRequest);

    let mut done = ParallelWorker::new(String::from("tmp/"));
    done.received(SENDING_REQUEST.as_bytes().to_vec());
    done.received(b"echo ::: a".to_vec());
    done.executed(&Vec::new());
    assert!(matches!(done.received(b"more".to_vec()), WorkerStep::Violation));
    assert_eq!(done.state(), WorkerState::SendingResult);
}

#[test]
fn the_worker_reads_names_and_requests_as_utf8() {
    let mut worker = ParallelWorker::new(String::from("tmp/"));
    worker.received(SENDING_FILES.as_bytes().to_vec());
    worker.received("données.txt".as_bytes().to_vec());
    match worker.received(Vec::new()) {
        WorkerStep::Store { path, data } => {
            assert_eq!(path, "tmp/données.txt");
            assert!(data.is_empty());
        }
        other => panic!("expected a file to store, got {:?}", other),
    }
}

#[test]
fn the_client_opens_with_files_only_if_it_has_some() {
    let mut client = ParallelClient::new(String::from("h:1"), String::from("r"));
    assert_eq!(client.server_address(), "h:1");
    assert_eq!(client.opening(), SENDING_REQUEST.as_bytes());
    client.add_files(strings(&["a"]));
    assert_eq!(client.opening(), SENDING_FILES.as_bytes());
}

#[test]
fn the_client_answers_each_question_of_the_server() {
    let mut client = ParallelClient::new(String::from("h:1"), String::from("echo ::: 1"));
    client.add_files(strings(&["a", "b"]));
    let ask_name = WAITING_FOR_NEW_FILE.as_bytes().to_vec();
    let ask_data = READY_FOR_NEXT_FILE.as_bytes().to_vec();

    assert!(matches!(client.received(ask_name.clone()), ClientStep::Reply { payload } if payload == b"a"));
    assert!(matches!(client.received(ask_name.clone()), ClientStep::Reply { payload } if payload == b"a"));
    assert!(matches!(client.received(ask_data.clone()), ClientStep::SendFile { name } if name == "a"));
    assert!(matches!(client.received(ask_name.clone()), ClientStep::Reply { payload } if payload == b"b"));
    assert!(matches!(client.received(ask_data.clone()), ClientStep::SendFile { name } if name == "b"));
    assert!(matches!(client.received(ask_name), ClientStep::Reply { payload } if payload == NO_MORE_FILES.as_bytes()));
    assert!(matches!(client.received(ask_data), ClientStep::Violation));
    assert!(matches!(
        client.received(READY_FOR_REQUEST.as_bytes().to_vec()),
        ClientStep::Reply { payload } if payload == b"echo ::: 1"
    ));
    assert_eq!(client.sent(), Some(()));
    assert_eq!(client.response(), "");
    assert!(matches!(client.received(b"1\n".to_vec()), ClientStep::Finished));
    assert_eq!(client.response(), "1\n");
}

#[test]
fn the_client_refuses_a_result_that_is_no_text() {
    let mut client = ParallelClient::new(String::from("h:1"), String::from("r"));
    assert!(matches!(client.received(vec![0xff]), ClientStep::Violation));
    assert_eq!(client.response(), "");
    assert!(matches!(client.received(Vec::new()), ClientStep::Finished));
    assert_eq!(client.response(), "");
}
