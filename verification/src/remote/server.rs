//! The responder of the handshake: the worker that serves one connection.
//!
//! A worker decides; it touches neither the file system nor any process. Where a step
//! needs a file stored or the request run, it says so, and is told how that went.

use crate::remote::handshake::{
    NO_MORE_FILES, READY_FOR_NEXT_FILE, READY_FOR_REQUEST, SENDING_FILES, SENDING_REQUEST,
    WAITING_FOR_NEW_FILE,
};
use crate::text::{
    bytes_of, decimal, decimal_of, enclose, enclosed, is_text, lemma_decimal_tells_apart, text_of,
    utf8_bytes, utf8_text,
};
use vstd::prelude::*;

verus! {

/// Where a worker stands in the handshake.
#[derive(Clone, Copy, Debug, PartialEq, Eq, Structural)]
pub enum WorkerState {
    Idle,
    WaitingFileName,
    WaitingFileData,
    WaitingRequest,
    SendingResult,
}

/// The path tried for a received file: the scratch directory and the name the client
/// gave, and from the first collision on the number of the attempt in brackets.
pub open spec fn stored_path(tmp_dir: Seq<char>, name: Seq<char>, attempt: nat) -> Seq<char> {
    if attempt == 0 {
        tmp_dir + name
    } else {
        tmp_dir + name + seq!['('] + decimal(attempt) + seq![')']
    }
}

/// Writes the path tried for a received file at the given attempt.
pub fn candidate_path(tmp_dir: &str, name: &str, attempt: usize) -> (path: String)
    ensures
        path@ == stored_path(tmp_dir@, name@, attempt as nat),
{
    proof {
        reveal_strlit("(");
        reveal_strlit(")");
        assert("("@ =~= seq!['(']);
        assert(")"@ =~= seq![')']);
    }
    let mut path = String::from_str(tmp_dir);
    path.append(name);
    if attempt > 0 {
        path.append("(");
        path.append(decimal_of(attempt).as_str());
        path.append(")");
    }
    path
}

/// No two attempts for one file try the same path: a path found taken is never tried
/// again.
pub proof fn lemma_attempts_differ(tmp_dir: Seq<char>, name: Seq<char>, a: nat, b: nat)
    requires
        a != b,
    ensures
        stored_path(tmp_dir, name, a) != stored_path(tmp_dir, name, b),
{
    let base = tmp_dir + name;
    let x = stored_path(tmp_dir, name, a);
    let y = stored_path(tmp_dir, name, b);
    if a != 0 && b != 0 {
        if x == y {
            let tail_a = seq!['('] + decimal(a) + seq![')'];
            let tail_b = seq!['('] + decimal(b) + seq![')'];
            assert(x =~= base + tail_a);
            assert(y =~= base + tail_b);
            assert(tail_a =~= x.skip(base.len() as int));
            assert(tail_b =~= y.skip(base.len() as int));
            assert(decimal(a) =~= tail_a.subrange(1, tail_a.len() - 1));
            assert(decimal(b) =~= tail_b.subrange(1, tail_b.len() - 1));
            lemma_decimal_tells_apart(a, b);
        }
    } else {
        assert(x.len() != y.len());
    }
}

/// A file that a worker has received: the name the client gave and where it was put.
pub struct FileRecordModel {
    pub given_name: Seq<char>,
    pub stored_path: Seq<char>,
}

/// What a worker is.
pub struct WorkerModel {
    pub state: WorkerState,
    /// The scratch directory, as a prefix of every stored path.
    pub tmp_dir: Seq<char>,
    /// The files received so far, in order.
    pub files: Seq<FileRecordModel>,
    /// The name of the file whose content is awaited or being stored.
    pub current_file: Seq<char>,
    /// How many paths for that file were found taken.
    pub attempt: nat,
    /// Whether a step was handed out whose outcome has not been reported yet.
    pub busy: bool,
    pub request: Seq<char>,
    pub result: Seq<char>,
}

/// What a worker asks for after a payload came in.
pub enum StepModel {
    Reply { payload: Seq<u8> },
    Store { path: Seq<char>, data: Seq<u8> },
    Execute { request: Seq<char> },
    Violation,
}

impl WorkerModel {
    /// A worker that has seen nothing yet.
    pub open spec fn fresh(tmp_dir: Seq<char>) -> WorkerModel {
        WorkerModel {
            state: WorkerState::Idle,
            tmp_dir,
            files: Seq::empty(),
            current_file: Seq::empty(),
            attempt: 0,
            busy: false,
            request: Seq::empty(),
            result: Seq::empty(),
        }
    }

    /// The path that the file being stored is tried at now.
    pub open spec fn candidate(self) -> Seq<char> {
        stored_path(self.tmp_dir, self.current_file, self.attempt)
    }

    /// The step taken on an inbound payload: the worker afterwards and what it asks
    /// for. A payload that the state has no use for is a violation and leaves the
    /// worker as it was; so does any payload that comes in while the outcome of the
    /// last step is still to be reported.
    pub open spec fn received(self, payload: Seq<u8>) -> (WorkerModel, StepModel) {
        if self.busy {
            (self, StepModel::Violation)
        } else {
            self.taken(payload)
        }
    }

    /// The step that a payload calls for in the state the worker is in.
    pub open spec fn taken(self, payload: Seq<u8>) -> (WorkerModel, StepModel) {
        match self.state {
            WorkerState::Idle => if payload == bytes_of(SENDING_FILES@) {
                (
                    WorkerModel { state: WorkerState::WaitingFileName, ..self },
                    StepModel::Reply { payload: bytes_of(WAITING_FOR_NEW_FILE@) },
                )
            } else if payload == bytes_of(SENDING_REQUEST@) {
                (
                    WorkerModel { state: WorkerState::WaitingRequest, ..self },
                    StepModel::Reply { payload: bytes_of(READY_FOR_REQUEST@) },
                )
            } else {
                (self, StepModel::Violation)
            },
            WorkerState::WaitingFileName => if payload == bytes_of(NO_MORE_FILES@) {
                (
                    WorkerModel { state: WorkerState::WaitingRequest, ..self },
                    StepModel::Reply { payload: bytes_of(READY_FOR_REQUEST@) },
                )
            } else {
                match text_of(payload) {
                    Some(name) => (
                        WorkerModel {
                            state: WorkerState::WaitingFileData,
                            current_file: name,
                            attempt: 0,
                            ..self
                        },
                        StepModel::Reply { payload: bytes_of(READY_FOR_NEXT_FILE@) },
                    ),
                    None => (self, StepModel::Violation),
                }
            },
            WorkerState::WaitingFileData => {
                let next = WorkerModel { attempt: 0, busy: true, ..self };
                (next, StepModel::Store { path: next.candidate(), data: payload })
            },
            WorkerState::WaitingRequest => match text_of(payload) {
                Some(request) => (
                    WorkerModel { request, busy: true, ..self },
                    StepModel::Execute { request },
                ),
                None => (self, StepModel::Violation),
            },
            WorkerState::SendingResult => (self, StepModel::Violation),
        }
    }

    /// Whether the worker has handed out a file to store and awaits the outcome.
    pub open spec fn storing(self) -> bool {
        self.state == WorkerState::WaitingFileData && self.busy
    }

    /// Whether the worker has handed out the request to run and awaits the outcome.
    pub open spec fn executing(self) -> bool {
        self.state == WorkerState::WaitingRequest && self.busy
    }

    /// The step taken when the path just tried turned out to be taken: the next path
    /// to try, with the next number. Outside the storing of a file, and when the
    /// numbers have run out, there is none and nothing changes.
    pub open spec fn collided(self) -> (WorkerModel, Option<Seq<char>>) {
        if self.storing() && self.attempt < usize::MAX {
            let next = WorkerModel { attempt: self.attempt + 1, ..self };
            (next, Some(next.candidate()))
        } else {
            (self, None)
        }
    }

    /// The step taken when the file was created at the path just tried: the file is
    /// recorded and the next name asked for. Outside the storing of a file it is a
    /// violation.
    pub open spec fn stored(self) -> (WorkerModel, Option<Seq<u8>>) {
        if self.storing() {
            (
                WorkerModel {
                    state: WorkerState::WaitingFileName,
                    busy: false,
                    files: self.files.push(
                        FileRecordModel {
                            given_name: self.current_file,
                            stored_path: self.candidate(),
                        },
                    ),
                    ..self
                },
                Some(bytes_of(WAITING_FOR_NEW_FILE@)),
            )
        } else {
            (self, None)
        }
    }

    /// The step taken when the request has been run: the texts of its jobs, one after
    /// another, are the result, which is sent back. Outside the wait for the request it
    /// is a violation.
    pub open spec fn executed(self, texts: Seq<Seq<char>>) -> (WorkerModel, Option<Seq<u8>>) {
        if self.executing() {
            let result = enclosed(texts, Seq::empty(), Seq::empty());
            (
                WorkerModel { state: WorkerState::SendingResult, busy: false, result, ..self },
                Some(bytes_of(result)),
            )
        } else {
            (self, None)
        }
    }

    /// Whether the connection goes on after a payload was written in full: it ends
    /// with the result.
    pub open spec fn sent(self) -> Option<()> {
        if self.state == WorkerState::SendingResult {
            None
        } else {
            Some(())
        }
    }
}

/// What a worker asks of its owner after a payload came in.
#[derive(Debug)]
pub enum WorkerStep {
    /// Send this payload back.
    Reply { payload: Vec<u8> },
    /// Create the file at `path`, failing if it exists, and write `data` to it; then
    /// report through [`ParallelWorker::stored`] or [`ParallelWorker::collided`].
    Store { path: String, data: Vec<u8> },
    /// Run the request and report through [`ParallelWorker::executed`].
    Execute { request: String },
    /// The payload has no place in the handshake: give the connection up.
    Violation,
}

impl View for WorkerStep {
    type V = StepModel;

    open spec fn view(&self) -> StepModel {
        match self {
            WorkerStep::Reply { payload } => StepModel::Reply { payload: payload@ },
            WorkerStep::Store { path, data } => StepModel::Store { path: path@, data: data@ },
            WorkerStep::Execute { request } => StepModel::Execute { request: request@ },
            WorkerStep::Violation => StepModel::Violation,
        }
    }
}

/// The responder of one connection.
pub struct ParallelWorker {
    request_result: String,
    request: String,
    tmp_dir: String,
    files: Vec<(String, String)>,
    state: WorkerState,
    current_file: String,
    attempt: usize,
    busy: bool,
}

/// What each pair of a name and a path records.
pub open spec fn file_records(files: Seq<(String, String)>) -> Seq<FileRecordModel> {
    files.map_values(
        |file: (String, String)|
            FileRecordModel { given_name: file.0@, stored_path: file.1@ },
    )
}

impl View for ParallelWorker {
    type V = WorkerModel;

    closed spec fn view(&self) -> WorkerModel {
        WorkerModel {
            state: self.state,
            tmp_dir: self.tmp_dir@,
            files: file_records(self.files@),
            current_file: self.current_file@,
            attempt: self.attempt as nat,
            busy: self.busy,
            request: self.request@,
            result: self.request_result@,
        }
    }
}

impl ParallelWorker {
    /// A worker that stores what it receives under `tmp_dir`, which is put in front of
    /// each file name as it is.
    pub fn new(tmp_dir: String) -> (worker: ParallelWorker)
        ensures
            worker@ == WorkerModel::fresh(tmp_dir@),
    {
        let worker = ParallelWorker {
            request_result: String::new(),
            request: String::new(),
            tmp_dir,
            files: Vec::new(),
            state: WorkerState::Idle,
            current_file: String::new(),
            attempt: 0,
            busy: false,
        };
        assert(worker@.files =~= Seq::empty());
        worker
    }

    /// The state of the handshake.
    pub fn state(&self) -> (state: WorkerState)
        ensures
            state == self@.state,
    {
        self.state
    }

    /// The files received so far, each with the name the client gave and the path it
    /// was stored at.
    pub fn files(&self) -> (files: &Vec<(String, String)>)
        ensures
            file_records(files@) == self@.files,
    {
        &self.files
    }

    /// The request, once it has come in.
    pub fn request(&self) -> (request: &String)
        ensures
            request@ == self@.request,
    {
        &self.request
    }

    /// The result, once the request has been run.
    pub fn result(&self) -> (result: &String)
        ensures
            result@ == self@.result,
    {
        &self.request_result
    }

    /// Takes the step that an inbound payload calls for.
    pub fn received(&mut self, buffer: Vec<u8>) -> (step: WorkerStep)
        ensures
            final(self)@ == old(self)@.received(buffer@).0,
            step@ == old(self)@.received(buffer@).1,
    {
        if self.busy {
            return WorkerStep::Violation;
        }
        match self.state {
            WorkerState::Idle => {
                if is_text(&buffer, SENDING_FILES) {
                    self.state = WorkerState::WaitingFileName;
                    WorkerStep::Reply { payload: utf8_bytes(WAITING_FOR_NEW_FILE) }
                } else if is_text(&buffer, SENDING_REQUEST) {
                    self.state = WorkerState::WaitingRequest;
                    WorkerStep::Reply { payload: utf8_bytes(READY_FOR_REQUEST) }
                } else {
                    WorkerStep::Violation
                }
            },
            WorkerState::WaitingFileName => {
                if is_text(&buffer, NO_MORE_FILES) {
                    self.state = WorkerState::WaitingRequest;
                    WorkerStep::Reply { payload: utf8_bytes(READY_FOR_REQUEST) }
                } else {
                    match utf8_text(buffer) {
                        Some(name) => {
                            self.current_file = name;
                            self.attempt = 0;
                            self.state = WorkerState::WaitingFileData;
                            WorkerStep::Reply { payload: utf8_bytes(READY_FOR_NEXT_FILE) }
                        },
                        None => WorkerStep::Violation,
                    }
                }
            },
            WorkerState::WaitingFileData => {
                self.attempt = 0;
                self.busy = true;
                WorkerStep::Store {
                    path: candidate_path(self.tmp_dir.as_str(), self.current_file.as_str(), 0),
                    data: buffer,
                }
            },
            WorkerState::WaitingRequest => {
                match utf8_text(buffer) {
                    Some(request) => {
                        self.request = request.clone();
                        self.busy = true;
                        WorkerStep::Execute { request }
                    },
                    None => WorkerStep::Violation,
                }
            },
            WorkerState::SendingResult => WorkerStep::Violation,
        }
    }

    /// Takes note that the path just tried is taken and names the next one to try.
    pub fn collided(&mut self) -> (path: Option<String>)
        ensures
            final(self)@ == old(self)@.collided().0,
            match path {
                Some(next) => old(self)@.collided().1 == Some(next@),
                None => old(self)@.collided().1 is None,
            },
    {
        if !self.busy {
            return None;
        }
        match self.state {
            WorkerState::WaitingFileData => {
                if self.attempt < usize::MAX {
                    self.attempt = self.attempt + 1;
                    Some(
                        candidate_path(
                            self.tmp_dir.as_str(),
                            self.current_file.as_str(),
                            self.attempt,
                        ),
                    )
                } else {
                    None
                }
            },
            _ => None,
        }
    }

    /// Takes note that the file was created at the path just tried, records it, and
    /// hands out the payload that asks for the next name.
    pub fn stored(&mut self) -> (reply: Option<Vec<u8>>)
        ensures
            final(self)@ == old(self)@.stored().0,
            match reply {
                Some(payload) => old(self)@.stored().1 == Some(payload@),
                None => old(self)@.stored().1 is None,
            },
    {
        if !self.busy {
            return None;
        }
        match self.state {
            WorkerState::WaitingFileData => {
                let path = candidate_path(
                    self.tmp_dir.as_str(),
                    self.current_file.as_str(),
                    self.attempt,
                );
                let name = self.current_file.clone();
                self.files.push((name, path));
                assert(file_records(self.files@) =~= file_records(old(self).files@).push(
                    FileRecordModel {
                        given_name: old(self)@.current_file,
                        stored_path: old(self)@.candidate(),
                    },
                ));
                self.state = WorkerState::WaitingFileName;
                self.busy = false;
                Some(utf8_bytes(WAITING_FOR_NEW_FILE))
            },
            _ => None,
        }
    }

    /// Takes note of the texts that running the request gave, one per job, and hands
    /// out the result to send back: the texts one after another.
    pub fn executed(&mut self, texts: &Vec<String>) -> (reply: Option<Vec<u8>>)
        ensures
            final(self)@ == old(self)@.executed(texts.deep_view()).0,
            match reply {
                Some(payload) => old(self)@.executed(texts.deep_view()).1 == Some(payload@),
                None => old(self)@.executed(texts.deep_view()).1 is None,
            },
    {
        if !self.busy {
            return None;
        }
        match self.state {
            WorkerState::WaitingRequest => {
                proof {
                    reveal_strlit("");
                    assert(""@ =~= Seq::<char>::empty());
                }
                let result = enclose(texts, "", "");
                let payload = utf8_bytes(result.as_str());
                self.request_result = result;
                self.state = WorkerState::SendingResult;
                self.busy = false;
                Some(payload)
            },
            _ => None,
        }
    }

    /// Tells whether the connection goes on after a payload was written in full.
    pub fn sent(&mut self) -> (more: Option<()>)
        ensures
            final(self)@ == old(self)@,
            more == old(self)@.sent(),
    {
        match self.state {
            WorkerState::SendingResult => None,
            _ => Some(()),
        }
    }
}

/// Whether the handshake lets a worker go from one state to another in one step.
/// Names and contents of files alternate; everything else only moves forward, and
/// nothing follows the sending of the result.
pub open spec fn may_follow(from: WorkerState, to: WorkerState) -> bool {
    from == to || match from {
        WorkerState::Idle => to == WorkerState::WaitingFileName || to
            == WorkerState::WaitingRequest,
        WorkerState::WaitingFileName => to == WorkerState::WaitingFileData || to
            == WorkerState::WaitingRequest,
        WorkerState::WaitingFileData => to == WorkerState::WaitingFileName,
        WorkerState::WaitingRequest => to == WorkerState::SendingResult,
        WorkerState::SendingResult => false,
    }
}

/// Whatever comes in and whatever is reported, a worker moves only as the handshake
/// allows, never loses a file it has recorded, and once it sends the result takes no
/// further payload.
pub proof fn lemma_worker_follows_the_handshake(
    worker: WorkerModel,
    payload: Seq<u8>,
    texts: Seq<Seq<char>>,
)
    ensures
        may_follow(worker.state, worker.received(payload).0.state),
        may_follow(worker.state, worker.collided().0.state),
        may_follow(worker.state, worker.stored().0.state),
        may_follow(worker.state, worker.executed(texts).0.state),
        worker.received(payload).0.files == worker.files,
        worker.collided().0.files == worker.files,
        worker.stored().0.files.len() >= worker.files.len(),
        worker.stored().0.files.take(worker.files.len() as int) == worker.files,
        worker.executed(texts).0.files == worker.files,
        worker.state == WorkerState::SendingResult ==> worker.received(payload) == (
            worker,
            StepModel::Violation,
        ),
        worker.received(payload).0.busy ==> worker.busy || worker.received(payload).1 is Store
            || worker.received(payload).1 is Execute,
{
    assert(worker.stored().0.files.take(worker.files.len() as int) =~= worker.files);
}

/// A file is recorded under the path of the attempt that succeeded: after the content
/// came in and `collisions` paths were found taken, the path is the one with that
/// number.
pub proof fn lemma_collisions_count_up(worker: WorkerModel, data: Seq<u8>, collisions: nat)
    requires
        worker.state == WorkerState::WaitingFileData,
        !worker.busy,
        collisions <= usize::MAX,
    ensures
        after_collisions(worker.received(data).0, collisions) == (WorkerModel {
            attempt: collisions,
            busy: true,
            ..worker
        }),
        after_collisions(worker.received(data).0, collisions).candidate() == stored_path(
            worker.tmp_dir,
            worker.current_file,
            collisions,
        ),
        after_collisions(worker.received(data).0, collisions).stored().0.files
            == worker.files.push(
            FileRecordModel {
                given_name: worker.current_file,
                stored_path: stored_path(worker.tmp_dir, worker.current_file, collisions),
            },
        ),
    decreases collisions,
{
    if collisions > 0 {
        lemma_collisions_count_up(worker, data, (collisions - 1) as nat);
    }
}

/// The worker after the given number of paths in a row were found taken.
pub open spec fn after_collisions(worker: WorkerModel, collisions: nat) -> WorkerModel
    decreases collisions,
{
    if collisions == 0 {
        worker
    } else {
        after_collisions(worker, (collisions - 1) as nat).collided().0
    }
}

} // verus!
