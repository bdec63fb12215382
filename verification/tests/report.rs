use lsp_client::builder::BuildError;
use lsp_client::jsonrpc::WireError;
use lsp_client::lsp::{ClientError, TransportError};
use lsp_client::report::{describe_build_error, describe_client_error, describe_failure};
use lsp_client::symbols::Position;

#[test]
fn a_failure_names_method_and_request() {
    assert_eq!(
        describe_failure("initialize", 0, None, "no response came"),
        "initialize (request 0): no response came"
    );
}

#[test]
fn a_failure_names_the_place_counted_from_one() {
    let place = Some(("file:///p/a.rs", Position { line: 0, character: 4 }));
    assert_eq!(
        describe_failure("textDocument/references", 12, place, "Error -32603: boom"),
        "textDocument/references (request 12) at file:///p/a.rs:1:5: Error -32603: boom"
    );
    let far = Some(("b", Position { line: u32::MAX, character: u32::MAX }));
    assert_eq!(describe_failure("m", -1, far, ""), "m (request -1) at b:4294967296:4294967296: ");
}

#[test]
fn client_errors_in_words() {
    let transport = ClientError::Transport(TransportError { reason: "pipe closed".to_string() });
    assert_eq!(describe_client_error(&transport), "the transport failed: pipe closed");
    assert_eq!(
        describe_client_error(&ClientError::Wire(WireError::Unwritable)),
        "the message could not be written"
    );
    assert_eq!(
        describe_client_error(&ClientError::Wire(WireError::Unreadable)),
        "the message is not JSON"
    );
    assert_eq!(
        describe_client_error(&ClientError::Wire(WireError::Malformed)),
        "the message is not a JSON-RPC message"
    );
    assert_eq!(describe_client_error(&ClientError::Exhausted), "every identifier has been used");
    assert_eq!(
        describe_client_error(&ClientError::NotPending),
        "no request is waiting under this identifier"
    );
    assert_eq!(describe_client_error(&ClientError::Unanswered), "no response came");
}

#[test]
fn build_errors_in_words() {
    assert_eq!(
        describe_build_error(BuildError::NoDocumentSymbols),
        "Server is not 'documentSymbol' provider"
    );
    assert_eq!(
        describe_build_error(BuildError::NoReferences),
        "Server does not support 'references' provider"
    );
    assert_eq!(
        describe_build_error(BuildError::Unexpected),
        "an event came that answers no action of the run"
    );
}
