//! Failures in words. A failed request is named by its method and its
//! identifier and, where it asked about a place in a document, by that
//! place, so that it can be found again.

use crate::builder::BuildError;
use crate::decimal::{integer_text, render_integer};
use crate::jsonrpc::WireError;
use crate::lsp::ClientError;
use crate::symbols::Position;
use vstd::prelude::*;
use vstd::string::StringExecFns;

verus! {

/// A place in a document as text: the document, the line and the character,
/// the last two counted from one.
pub open spec fn place_text(document: Seq<char>, position: Position) -> Seq<char> {
    document + ":"@ + integer_text(position.line + 1) + ":"@ + integer_text(
        position.character + 1,
    )
}

/// Where a request asked, as a piece of a report: nothing where it asked
/// about no place.
pub open spec fn place_part(place: Option<(Seq<char>, Position)>) -> Seq<char> {
    match place {
        Some((document, position)) => " at "@ + place_text(document, position),
        None => Seq::empty(),
    }
}

/// The report of a failed request: the method, the identifier, the place
/// where there is one, and the reason.
pub open spec fn failure_text(
    method: Seq<char>,
    id: int,
    place: Option<(Seq<char>, Position)>,
    reason: Seq<char>,
) -> Seq<char> {
    method + " (request "@ + integer_text(id) + ")"@ + place_part(place) + ": "@ + reason
}

/// Writes the report of a failed request.
pub fn describe_failure(method: &str, id: i64, place: Option<(&str, Position)>, reason: &str) -> (out:
    String)
    ensures
        out@ == failure_text(
            method@,
            id as int,
            match place {
                Some((document, position)) => Some((document@, position)),
                None => None,
            },
            reason@,
        ),
{
    let mut out = String::new();
    out.append(method);
    out.append(" (request ");
    let number = render_integer(id);
    out.append(number.as_str());
    out.append(")");
    let ghost front = out@;
    assert(front =~= method@ + " (request "@ + integer_text(id as int) + ")"@);
    match place {
        Some((document, position)) => {
            out.append(" at ");
            out.append(document);
            out.append(":");
            let line = render_integer(position.line as i64 + 1);
            out.append(line.as_str());
            out.append(":");
            let character = render_integer(position.character as i64 + 1);
            out.append(character.as_str());
            assert(out@ =~= front + (" at "@ + place_text(document@, position)));
        },
        None => {
            assert(out@ =~= front + Seq::<char>::empty());
        },
    }
    out.append(": ");
    out.append(reason);
    out
}

/// Why a call on a session failed, in words.
pub open spec fn client_reason(error: ClientError) -> Seq<char> {
    match error {
        ClientError::Transport(e) => "the transport failed: "@ + e.reason@,
        ClientError::Wire(WireError::Unwritable) => "the message could not be written"@,
        ClientError::Wire(WireError::Unreadable) => "the message is not JSON"@,
        ClientError::Wire(WireError::Malformed) => "the message is not a JSON-RPC message"@,
        ClientError::Exhausted => "every identifier has been used"@,
        ClientError::NotPending => "no request is waiting under this identifier"@,
        ClientError::Unanswered => "no response came"@,
    }
}

/// Why a run was given up, in words.
pub open spec fn build_reason(error: BuildError) -> Seq<char> {
    match error {
        BuildError::NoDocumentSymbols => "Server is not 'documentSymbol' provider"@,
        BuildError::NoReferences => "Server does not support 'references' provider"@,
        BuildError::Unexpected => "an event came that answers no action of the run"@,
    }
}

/// Writes why a call on a session failed.
pub fn describe_client_error(error: &ClientError) -> (out: String)
    ensures
        out@ == client_reason(*error),
{
    match error {
        ClientError::Transport(e) => {
            let mut out = "the transport failed: ".to_owned();
            out.append(e.reason.as_str());
            out
        },
        ClientError::Wire(WireError::Unwritable) => "the message could not be written".to_owned(),
        ClientError::Wire(WireError::Unreadable) => "the message is not JSON".to_owned(),
        ClientError::Wire(WireError::Malformed) => "the message is not a JSON-RPC message".to_owned(),
        ClientError::Exhausted => "every identifier has been used".to_owned(),
        ClientError::NotPending => "no request is waiting under this identifier".to_owned(),
        ClientError::Unanswered => "no response came".to_owned(),
    }
}

/// Writes why a run was given up.
pub fn describe_build_error(error: BuildError) -> (out: String)
    ensures
        out@ == build_reason(error),
{
    match error {
        BuildError::NoDocumentSymbols => "Server is not 'documentSymbol' provider".to_owned(),
        BuildError::NoReferences => "Server does not support 'references' provider".to_owned(),
        BuildError::Unexpected => "an event came that answers no action of the run".to_owned(),
    }
}

} // verus!
