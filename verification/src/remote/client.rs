//! The initiator of the handshake: the client that hands a request to a server.
//!
//! A client decides; it reads no file. Where a step needs the content of a file, it
//! names the file, and its owner sends the content.

use crate::remote::handshake::{
    NO_MORE_FILES, READY_FOR_NEXT_FILE, READY_FOR_REQUEST, SENDING_FILES, SENDING_REQUEST,
    WAITING_FOR_NEW_FILE,
};
use crate::text::{bytes_of, is_text, text_of, utf8_bytes, utf8_text};
use vstd::prelude::*;

verus! {

/// The initiator of one connection.
pub struct ParallelClient {
    request: String,
    files: Vec<String>,
    request_response: String,
    server_address: String,
}

/// What a client is.
pub struct ClientModel {
    /// The request to hand over.
    pub request: Seq<char>,
    /// The names of the files still to send, in order.
    pub files: Seq<Seq<char>>,
    /// What the server answered in the end.
    pub response: Seq<char>,
    /// The server, as `host:port`.
    pub server_address: Seq<char>,
}

/// What a client asks for after a payload came in.
pub enum ClientStepModel {
    Reply { payload: Seq<u8> },
    SendFile { name: Seq<char> },
    Finished,
    Violation,
}

impl ClientModel {
    /// The payload that opens the handshake: it announces files if there are any to
    /// send, and the request if not.
    pub open spec fn opening(self) -> Seq<u8> {
        if self.files.len() == 0 {
            bytes_of(SENDING_REQUEST@)
        } else {
            bytes_of(SENDING_FILES@)
        }
    }

    /// The step taken on an inbound payload: the client afterwards and what it asks
    /// for.
    ///
    /// Asked for a file name, the client names the next file, or says that there is
    /// none left. Asked for the content, it has that file sent and goes on to the
    /// next; being asked without a file left is a violation. Asked for the request, it
    /// sends it. Any other payload is the result: it is kept, and the exchange is
    /// over. A result that is no text is a violation.
    pub open spec fn received(self, payload: Seq<u8>) -> (ClientModel, ClientStepModel) {
        if payload == bytes_of(READY_FOR_NEXT_FILE@) {
            if self.files.len() > 0 {
                (
                    ClientModel { files: self.files.drop_first(), ..self },
                    ClientStepModel::SendFile { name: self.files[0] },
                )
            } else {
                (self, ClientStepModel::Violation)
            }
        } else if payload == bytes_of(WAITING_FOR_NEW_FILE@) {
            if self.files.len() > 0 {
                (self, ClientStepModel::Reply { payload: bytes_of(self.files[0]) })
            } else {
                (self, ClientStepModel::Reply { payload: bytes_of(NO_MORE_FILES@) })
            }
        } else if payload == bytes_of(READY_FOR_REQUEST@) {
            (self, ClientStepModel::Reply { payload: bytes_of(self.request) })
        } else {
            match text_of(payload) {
                Some(response) => (ClientModel { response, ..self }, ClientStepModel::Finished),
                None => (self, ClientStepModel::Violation),
            }
        }
    }
}

/// What a client asks of its owner after a payload came in.
#[derive(Debug)]
pub enum ClientStep {
    /// Send this payload.
    Reply { payload: Vec<u8> },
    /// Send the whole content of the file of this name.
    SendFile { name: String },
    /// The result has come in: close the connection.
    Finished,
    /// The payload has no place in the handshake: give the connection up.
    Violation,
}

impl View for ClientStep {
    type V = ClientStepModel;

    open spec fn view(&self) -> ClientStepModel {
        match self {
            ClientStep::Reply { payload } => ClientStepModel::Reply { payload: payload@ },
            ClientStep::SendFile { name } => ClientStepModel::SendFile { name: name@ },
            ClientStep::Finished => ClientStepModel::Finished,
            ClientStep::Violation => ClientStepModel::Violation,
        }
    }
}

impl View for ParallelClient {
    type V = ClientModel;

    closed spec fn view(&self) -> ClientModel {
        ClientModel {
            request: self.request@,
            files: self.files.deep_view(),
            response: self.request_response@,
            server_address: self.server_address@,
        }
    }
}

impl ParallelClient {
    /// A client that will hand `request` to the server at `server_address`, without
    /// any file.
    pub fn new(server_address: String, request: String) -> (client: ParallelClient)
        ensures
            client@ == (ClientModel {
                request: request@,
                files: Seq::empty(),
                response: Seq::empty(),
                server_address: server_address@,
            }),
    {
        let client = ParallelClient {
            request,
            files: Vec::new(),
            request_response: String::new(),
            server_address,
        };
        assert(client@.files =~= Seq::empty());
        client
    }

    /// Sets the files that the server needs, in the order they are to be sent.
    pub fn add_files(&mut self, f: Vec<String>)
        ensures
            final(self)@ == (ClientModel { files: f.deep_view(), ..old(self)@ }),
    {
        self.files = f;
    }

    /// The address of the server.
    pub fn server_address(&self) -> (address: &String)
        ensures
            address@ == self@.server_address,
    {
        &self.server_address
    }

    /// What the server answered, once it has.
    pub fn response(&self) -> (response: &String)
        ensures
            response@ == self@.response,
    {
        &self.request_response
    }

    /// The payload that opens the handshake.
    pub fn opening(&self) -> (payload: Vec<u8>)
        ensures
            payload@ == self@.opening(),
    {
        if self.files.len() == 0 {
            utf8_bytes(SENDING_REQUEST)
        } else {
            utf8_bytes(SENDING_FILES)
        }
    }

    /// Takes the step that an inbound payload calls for.
    pub fn received(&mut self, buffer: Vec<u8>) -> (step: ClientStep)
        ensures
            final(self)@ == old(self)@.received(buffer@).0,
            step@ == old(self)@.received(buffer@).1,
    {
        if is_text(&buffer, READY_FOR_NEXT_FILE) {
            if self.files.len() > 0 {
                let ghost before = self.files.deep_view();
                let name = self.files.remove(0);
                assert(self.files.deep_view() =~= before.drop_first());
                ClientStep::SendFile { name }
            } else {
                ClientStep::Violation
            }
        } else if is_text(&buffer, WAITING_FOR_NEW_FILE) {
            if self.files.len() > 0 {
                ClientStep::Reply { payload: utf8_bytes(self.files[0].as_str()) }
            } else {
                ClientStep::Reply { payload: utf8_bytes(NO_MORE_FILES) }
            }
        } else if is_text(&buffer, READY_FOR_REQUEST) {
            ClientStep::Reply { payload: utf8_bytes(self.request.as_str()) }
        } else {
            match utf8_text(buffer) {
                Some(response) => {
                    self.request_response = response;
                    ClientStep::Finished
                },
                None => ClientStep::Violation,
            }
        }
    }

    /// Tells whether the connection goes on after a payload was written in full: for
    /// a client it always does, since the server has the last word.
    pub fn sent(&mut self) -> (more: Option<()>)
        ensures
            final(self)@ == old(self)@,
            more == Some(()),
    {
        Some(())
    }
}

} // verus!
