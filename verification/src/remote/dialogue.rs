//! How the two roles answer each other: what one of them sends is what the other
//! expects, from the opening to the result.

use crate::remote::client::{ClientModel, ClientStepModel};
use crate::remote::handshake::{
    lemma_fixed_payloads_differ, NO_MORE_FILES, READY_FOR_NEXT_FILE, READY_FOR_REQUEST,
    WAITING_FOR_NEW_FILE,
};
use crate::remote::server::{
    after_collisions, lemma_collisions_count_up, stored_path, FileRecordModel, StepModel,
    WorkerModel, WorkerState,
};
use crate::text::{bytes_of, enclosed, lemma_text_roundtrip};
use vstd::prelude::*;

verus! {

/// The opening of a client takes an idle worker where the client wants it: to the wait
/// for a file name if the client has files to send, to the wait for the request if it
/// has none. The worker answers with the question that comes next.
pub proof fn lemma_opening_is_understood(client: ClientModel, worker: WorkerModel)
    requires
        worker.state == WorkerState::Idle,
        !worker.busy,
    ensures
        worker.received(client.opening()) == if client.files.len() > 0 {
            (
                WorkerModel { state: WorkerState::WaitingFileName, ..worker },
                StepModel::Reply { payload: bytes_of(WAITING_FOR_NEW_FILE@) },
            )
        } else {
            (
                WorkerModel { state: WorkerState::WaitingRequest, ..worker },
                StepModel::Reply { payload: bytes_of(READY_FOR_REQUEST@) },
            )
        },
{
    lemma_fixed_payloads_differ();
}

/// One file goes over in two questions and two answers. Asked for a name, the client
/// gives that of its next file, which the worker notes; asked for the content, the
/// client has it sent and goes on to the file after it; the worker has the content
/// stored, and once that is done, after any number of paths found taken, has recorded
/// the file under the path with that number and asks for the next name.
///
/// This holds of every file but one named like the payload that ends the files.
pub proof fn lemma_file_is_handed_over(
    client: ClientModel,
    worker: WorkerModel,
    data: Seq<u8>,
    collisions: nat,
)
    requires
        worker.state == WorkerState::WaitingFileName,
        !worker.busy,
        client.files.len() > 0,
        client.files[0] != NO_MORE_FILES@,
        collisions <= usize::MAX,
    ensures
        ({
            let name = client.files[0];
            let named = WorkerModel {
                state: WorkerState::WaitingFileData,
                current_file: name,
                attempt: 0,
                ..worker
            };
            let path = stored_path(worker.tmp_dir, name, collisions);
            &&& client.received(bytes_of(WAITING_FOR_NEW_FILE@)) == (
                client,
                ClientStepModel::Reply { payload: bytes_of(name) },
            )
            &&& worker.received(bytes_of(name)) == (
                named,
                StepModel::Reply { payload: bytes_of(READY_FOR_NEXT_FILE@) },
            )
            &&& client.received(bytes_of(READY_FOR_NEXT_FILE@)) == (
                ClientModel { files: client.files.drop_first(), ..client },
                ClientStepModel::SendFile { name },
            )
            &&& named.received(data) == (
                WorkerModel { busy: true, ..named },
                StepModel::Store { path: stored_path(worker.tmp_dir, name, 0), data },
            )
            &&& after_collisions(named.received(data).0, collisions).stored() == (
                WorkerModel {
                    state: WorkerState::WaitingFileName,
                    files: worker.files.push(FileRecordModel { given_name: name, stored_path: path }),
                    current_file: name,
                    attempt: collisions,
                    ..worker
                },
                Some(bytes_of(WAITING_FOR_NEW_FILE@)),
            )
        }),
{
    let name = client.files[0];
    let named = WorkerModel {
        state: WorkerState::WaitingFileData,
        current_file: name,
        attempt: 0,
        ..worker
    };
    lemma_fixed_payloads_differ();
    lemma_text_roundtrip(name);
    lemma_text_roundtrip(NO_MORE_FILES@);
    lemma_collisions_count_up(named, data, collisions);
}

/// When the client has no file left, the worker learns so and asks for the request.
pub proof fn lemma_files_come_to_an_end(client: ClientModel, worker: WorkerModel)
    requires
        worker.state == WorkerState::WaitingFileName,
        !worker.busy,
        client.files.len() == 0,
    ensures
        client.received(bytes_of(WAITING_FOR_NEW_FILE@)) == (
            client,
            ClientStepModel::Reply { payload: bytes_of(NO_MORE_FILES@) },
        ),
        worker.received(bytes_of(NO_MORE_FILES@)) == (
            WorkerModel { state: WorkerState::WaitingRequest, ..worker },
            StepModel::Reply { payload: bytes_of(READY_FOR_REQUEST@) },
        ),
{
    lemma_fixed_payloads_differ();
}

/// Whether `payload` is one of the questions that a client answers.
pub open spec fn is_question(payload: Seq<u8>) -> bool {
    ||| payload == bytes_of(WAITING_FOR_NEW_FILE@)
    ||| payload == bytes_of(READY_FOR_NEXT_FILE@)
    ||| payload == bytes_of(READY_FOR_REQUEST@)
}

/// Asked for the request, the client sends it, and the worker has exactly that request
/// run. What the jobs gave, one text after another, goes back as the result, which
/// the client keeps as the answer of the server; with that the exchange is over on
/// both sides.
///
/// This holds of every result but one that reads like a question of the server.
pub proof fn lemma_request_is_answered(
    client: ClientModel,
    worker: WorkerModel,
    texts: Seq<Seq<char>>,
)
    requires
        worker.state == WorkerState::WaitingRequest,
        !worker.busy,
        !is_question(bytes_of(enclosed(texts, Seq::empty(), Seq::empty()))),
    ensures
        ({
            let result = enclosed(texts, Seq::empty(), Seq::empty());
            let asked = WorkerModel { request: client.request, busy: true, ..worker };
            let done = WorkerModel {
                state: WorkerState::SendingResult,
                busy: false,
                result,
                ..asked
            };
            &&& client.received(bytes_of(READY_FOR_REQUEST@)) == (
                client,
                ClientStepModel::Reply { payload: bytes_of(client.request) },
            )
            &&& worker.received(bytes_of(client.request)) == (
                asked,
                StepModel::Execute { request: client.request },
            )
            &&& asked.executed(texts) == (done, Some(bytes_of(result)))
            &&& client.received(bytes_of(result)) == (
                ClientModel { response: result, ..client },
                ClientStepModel::Finished,
            )
            &&& done.sent() is None
        }),
{
    lemma_fixed_payloads_differ();
    lemma_text_roundtrip(client.request);
    lemma_text_roundtrip(enclosed(texts, Seq::empty(), Seq::empty()));
}

} // verus!
