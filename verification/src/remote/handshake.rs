//! The fixed payloads of the handshake. Every other payload carries data: a file name,
//! the content of a file, the request or the result.

use crate::text::{bytes_of, lemma_text_roundtrip};
use vstd::prelude::*;

verus! {

/// Announces that files come before the request.
pub const SENDING_FILES: &'static str = "Sending files";

/// Announces that the request comes at once.
pub const SENDING_REQUEST: &'static str = "Sending request";

/// Asks for the name of the next file.
pub const WAITING_FOR_NEW_FILE: &'static str = "Waiting for new file";

/// Says that the last file has been sent.
pub const NO_MORE_FILES: &'static str = "No more files";

/// Asks for the content of the file just named.
pub const READY_FOR_NEXT_FILE: &'static str = "Ready for next file";

/// Asks for the request.
pub const READY_FOR_REQUEST: &'static str = "Ready for request";


/// No two of the fixed payloads are the same.
pub proof fn lemma_fixed_payloads_differ()
    ensures
        bytes_of(SENDING_FILES@) != bytes_of(SENDING_REQUEST@),
        bytes_of(SENDING_FILES@) != bytes_of(WAITING_FOR_NEW_FILE@),
        bytes_of(SENDING_FILES@) != bytes_of(NO_MORE_FILES@),
        bytes_of(SENDING_FILES@) != bytes_of(READY_FOR_NEXT_FILE@),
        bytes_of(SENDING_FILES@) != bytes_of(READY_FOR_REQUEST@),
        bytes_of(SENDING_REQUEST@) != bytes_of(WAITING_FOR_NEW_FILE@),
        bytes_of(SENDING_REQUEST@) != bytes_of(NO_MORE_FILES@),
        bytes_of(SENDING_REQUEST@) != bytes_of(READY_FOR_NEXT_FILE@),
        bytes_of(SENDING_REQUEST@) != bytes_of(READY_FOR_REQUEST@),
        bytes_of(WAITING_FOR_NEW_FILE@) != bytes_of(NO_MORE_FILES@),
        bytes_of(WAITING_FOR_NEW_FILE@) != bytes_of(READY_FOR_NEXT_FILE@),
        bytes_of(WAITING_FOR_NEW_FILE@) != bytes_of(READY_FOR_REQUEST@),
        bytes_of(NO_MORE_FILES@) != bytes_of(READY_FOR_NEXT_FILE@),
        bytes_of(NO_MORE_FILES@) != bytes_of(READY_FOR_REQUEST@),
        bytes_of(READY_FOR_NEXT_FILE@) != bytes_of(READY_FOR_REQUEST@),
{
    reveal_strlit("Sending files");
    reveal_strlit("Sending request");
    reveal_strlit("Waiting for new file");
    reveal_strlit("No more files");
    reveal_strlit("Ready for next file");
    reveal_strlit("Ready for request");
    lemma_text_roundtrip(SENDING_FILES@);
    lemma_text_roundtrip(SENDING_REQUEST@);
    lemma_text_roundtrip(WAITING_FOR_NEW_FILE@);
    lemma_text_roundtrip(NO_MORE_FILES@);
    lemma_text_roundtrip(READY_FOR_NEXT_FILE@);
    lemma_text_roundtrip(READY_FOR_REQUEST@);
    assert(SENDING_FILES@[0] != NO_MORE_FILES@[0]);
}

} // verus!
