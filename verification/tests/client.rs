use lsp_client::frame::{decode_frame, frame_text, Decoded};
use lsp_client::jsonrpc::{JsonRpcResult, WireError};
use lsp_client::lsp::{
    notification_frame, request_frame, Arrival, Client, ClientError, StringIO, TransportError,
};
use serde_json::Value;
use std::collections::VecDeque;

/// A transport that plays back a script and keeps what was sent.
struct Script {
    inbound: VecDeque<Result<String, TransportError>>,
    sent: Vec<String>,
    refuse_sends: bool,
}

impl Script {
    fn new(inbound: &[&str]) -> Self {
        Script {
            inbound: inbound.iter().map(|m| Ok(m.to_string())).collect(),
            sent: Vec::new(),
            refuse_sends: false,
        }
    }
}

impl StringIO for Script {
    fn send(&mut self, msg: &str) -> Result<(), TransportError> {
        if self.refuse_sends {
            return Err(TransportError { reason: "closed".to_string() });
        }
        self.sent.push(msg.to_string());
        Ok(())
    }

    fn recv(&mut self) -> Result<String, TransportError> {
        match self.inbound.pop_front() {
            Some(message) => message,
            None => Err(TransportError { reason: "end of script".to_string() }),
        }
    }
}

/// A transport that shares its log with the test.
struct Shared {
    inbound: VecDeque<String>,
    sent: std::rc::Rc<std::cell::RefCell<Vec<String>>>,
}

impl StringIO for Shared {
    fn send(&mut self, msg: &str) -> Result<(), TransportError> {
        self.sent.borrow_mut().push(msg.to_string());
        Ok(())
    }

    fn recv(&mut self) -> Result<String, TransportError> {
        self.inbound.pop_front().ok_or(TransportError { reason: "end of script".to_string() })
    }
}

fn body_of(frame: &str) -> Value {
    match decode_frame(frame.as_bytes()) {
        Ok(Decoded::Message { frame: decoded, consumed }) => {
            assert_eq!(consumed, frame.len());
            serde_json::from_slice(&decoded.body).unwrap()
        }
        other => panic!("not a frame: {:?}", other),
    }
}

fn result_of(outcome: Result<JsonRpcResult<Value>, ClientError>) -> Value {
    match outcome {
        Ok(JsonRpcResult::Result(v)) => v,
        other => panic!("expected a result, got {:?}", other),
    }
}

#[test]
fn frame_text_prefixes_the_byte_length() {
    assert_eq!(frame_text("{}"), "Content-Length: 2\r\n\r\n{}");
    // The length counts bytes, not characters.
    assert_eq!(frame_text("\"\u{00e9}\""), "Content-Length: 4\r\n\r\n\"\u{00e9}\"");
}

#[test]
fn request_frame_is_the_framed_request() {
    let frame = request_frame("initialize", Some(Value::from(5)), 0).unwrap();
    assert_eq!(
        frame,
        "Content-Length: 57\r\n\r\n{\"jsonrpc\":\"2.0\",\"method\":\"initialize\",\"params\":5,\"id\":0}"
    );
    let frame = notification_frame("initialized", None).unwrap();
    assert_eq!(frame, "Content-Length: 40\r\n\r\n{\"jsonrpc\":\"2.0\",\"method\":\"initialized\"}");
}

#[test]
fn ids_start_at_zero_and_rise_by_one() {
    let sent = std::rc::Rc::new(std::cell::RefCell::new(Vec::new()));
    let io = Shared {
        inbound: VecDeque::from(vec![
            r#"{"jsonrpc":"2.0","result":"a","id":0}"#.to_string(),
            r#"{"jsonrpc":"2.0","result":"b","id":1}"#.to_string(),
            r#"{"jsonrpc":"2.0","result":"c","id":2}"#.to_string(),
        ]),
        sent: sent.clone(),
    };
    let mut client = Client::new(io);
    assert_eq!(client.next_request_id(), 0);
    assert_eq!(result_of(client.request("one", None)), Value::from("a"));
    assert_eq!(client.next_request_id(), 1);
    assert_eq!(result_of(client.request("two", None)), Value::from("b"));
    client.notify("note", None).unwrap();
    assert_eq!(client.next_request_id(), 2);
    assert_eq!(result_of(client.request("three", None)), Value::from("c"));
    assert_eq!(client.next_request_id(), 3);

    let sent = sent.borrow();
    assert_eq!(sent.len(), 4);
    assert_eq!(body_of(&sent[0])["id"], Value::from(0));
    assert_eq!(body_of(&sent[0])["method"], Value::from("one"));
    assert_eq!(body_of(&sent[1])["id"], Value::from(1));
    assert_eq!(body_of(&sent[2])["method"], Value::from("note"));
    assert!(body_of(&sent[2]).get("id").is_none());
    assert_eq!(body_of(&sent[3])["id"], Value::from(2));
}

#[test]
fn request_skips_what_is_not_its_response() {
    let mut client = Client::new(Script::new(&[
        r#"{"jsonrpc":"2.0","method":"window/logMessage","params":{"message":"hi"}}"#,
        r#"{"jsonrpc":"2.0","method":"workspace/configuration","params":{},"id":0}"#,
        r#"{"jsonrpc":"2.0","result":"stale","id":17}"#,
        r#"{"jsonrpc":"2.0","result":"no id"}"#,
        r#"{"jsonrpc":"2.0","result":"text id","id":"0"}"#,
        r#"{"jsonrpc":"2.0","result":"mine","id":0}"#,
    ]));
    assert_eq!(result_of(client.request("m", None)), Value::from("mine"));
    assert!(!client.is_pending(0));
}

#[test]
fn a_server_request_with_a_matching_id_is_not_a_response() {
    // It has a `method`, so it is the server's own request, whatever its id.
    let mut client = Client::new(Script::new(&[
        r#"{"jsonrpc":"2.0","method":"client/registerCapability","params":{},"result":"trap","id":0}"#,
        r#"{"jsonrpc":"2.0","result":"real","id":0}"#,
    ]));
    assert_eq!(result_of(client.request("m", None)), Value::from("real"));
}

#[test]
fn out_of_order_responses_reach_their_own_callers() {
    let mut client = Client::new(Script::new(&[
        r#"{"jsonrpc":"2.0","method":"$/progress","params":{}}"#,
        r#"{"jsonrpc":"2.0","result":"third","id":2}"#,
        r#"{"jsonrpc":"2.0","method":"workspace/applyEdit","params":{},"id":1}"#,
        r#"{"jsonrpc":"2.0","result":"first","id":0}"#,
        r#"{"jsonrpc":"2.0","result":"second","id":1}"#,
    ]));
    let a = client.send_request("a", None).unwrap();
    let b = client.send_request("b", None).unwrap();
    let c = client.send_request("c", None).unwrap();
    assert_eq!((a, b, c), (0, 1, 2));
    assert!(client.is_pending(0) && client.is_pending(1) && client.is_pending(2));

    // Waiting for the second request keeps the answers to the others.
    assert_eq!(result_of(client.wait(b)), Value::from("second"));
    assert!(!client.is_pending(0) && !client.is_pending(1) && !client.is_pending(2));
    assert_eq!(result_of(client.wait(c)), Value::from("third"));
    assert_eq!(result_of(client.wait(a)), Value::from("first"));
    // Each answer is handed out once.
    assert!(matches!(client.wait(a), Err(ClientError::NotPending)));
}

#[test]
fn receive_reports_each_message_as_it_comes() {
    let mut client = Client::new(Script::new(&[
        r#"{"jsonrpc":"2.0","method":"note"}"#,
        r#"{"jsonrpc":"2.0","result":1,"id":1}"#,
        r#"{"jsonrpc":"2.0","result":1,"id":1}"#,
        r#"{"jsonrpc":"2.0","error":{"code":-32601,"message":"Method not found"},"id":0}"#,
    ]));
    client.send_request("a", None).unwrap();
    client.send_request("b", None).unwrap();
    assert!(matches!(client.receive(), Ok(Arrival::Ignored)));
    assert!(matches!(client.receive(), Ok(Arrival::Response { id: 1, .. })));
    // The same response a second time answers nothing.
    assert!(matches!(client.receive(), Ok(Arrival::Ignored)));
    match client.receive() {
        Ok(Arrival::Response { id, result: JsonRpcResult::Error { code, message, data } }) => {
            assert_eq!(id, 0);
            assert_eq!(code, -32601);
            assert_eq!(message, "Method not found");
            assert_eq!(data, None);
        }
        other => panic!("expected the error response, got {:?}", other),
    }
}

#[test]
fn accept_routes_a_message_without_the_transport() {
    let mut client = Client::new(Script::new(&[]));
    let id = client.send_request("a", None).unwrap();
    assert!(matches!(
        client.accept(r#"{"jsonrpc":"2.0","result":1,"id":5}"#),
        Ok(Arrival::Ignored)
    ));
    assert!(client.is_pending(id));
    assert!(matches!(
        client.accept(r#"{"jsonrpc":"2.0","result":1,"id":0}"#),
        Ok(Arrival::Response { id: 0, .. })
    ));
    assert!(!client.is_pending(id));
}

#[test]
fn a_response_is_never_matched_to_an_id_that_was_not_issued() {
    let mut client = Client::new(Script::new(&[]));
    for id in [0, 1, -1, 99] {
        let text = format!("{{\"jsonrpc\":\"2.0\",\"result\":1,\"id\":{}}}", id);
        assert!(matches!(client.accept(&text), Ok(Arrival::Ignored)));
    }
    assert!(matches!(client.wait(0), Err(ClientError::NotPending)));
    assert!(matches!(client.take_ready(0), None));
}

#[test]
fn unreadable_and_malformed_messages_break_the_session() {
    let mut client = Client::new(Script::new(&["not json", r#"{"jsonrpc":"2.0","id":0}"#]));
    client.send_request("a", None).unwrap();
    assert!(matches!(client.receive(), Err(ClientError::Wire(WireError::Unreadable))));
    assert!(matches!(client.receive(), Err(ClientError::Wire(WireError::Malformed))));
    assert!(client.is_pending(0));
}

#[test]
fn transport_failures_come_back_as_they_are() {
    let mut client = Client::new(Script::new(&[]));
    match client.request("a", None) {
        Err(ClientError::Transport(e)) => assert_eq!(e.reason, "end of script"),
        other => panic!("expected a transport error, got {:?}", other),
    }
    let mut script = Script::new(&[]);
    script.refuse_sends = true;
    let mut client = Client::new(script);
    assert!(matches!(client.send_request("a", None), Err(ClientError::Transport(_))));
    // The identifier is spent all the same, and nothing waits under it.
    assert_eq!(client.next_request_id(), 1);
    assert!(!client.is_pending(0));
    assert!(matches!(client.notify("n", None), Err(ClientError::Transport(_))));
    assert_eq!(client.next_request_id(), 1);
}

#[test]
fn patience_bounds_the_wait() {
    let mut client = Client::new(Script::new(&[
        r#"{"jsonrpc":"2.0","method":"a"}"#,
        r#"{"jsonrpc":"2.0","method":"b"}"#,
        r#"{"jsonrpc":"2.0","result":1,"id":0}"#,
    ]));
    client.set_patience(2);
    assert!(matches!(client.request("m", None), Err(ClientError::Unanswered)));
    // The request still waits; with more patience its answer is found.
    assert!(client.is_pending(0));
    client.set_patience(1);
    assert_eq!(result_of(client.wait(0)), Value::from(1));
}

#[test]
fn application_errors_are_the_inner_layer() {
    let mut client = Client::new(Script::new(&[
        r#"{"jsonrpc":"2.0","error":{"code":-32602,"message":"Invalid params","data":{"at":3}},"id":0}"#,
    ]));
    match client.request("m", Some(Value::from(1))) {
        Ok(JsonRpcResult::Error { code, message, data }) => {
            assert_eq!(code, -32602);
            assert_eq!(message, "Invalid params");
            assert_eq!(data, Some(serde_json::from_str(r#"{"at":3}"#).unwrap()));
        }
        other => panic!("expected the server's error, got {:?}", other),
    }
}

/// A transport whose two queues the test keeps a hold of.
struct Watched {
    inbound: std::rc::Rc<std::cell::RefCell<VecDeque<String>>>,
    sent: std::rc::Rc<std::cell::RefCell<Vec<String>>>,
}

impl StringIO for Watched {
    fn send(&mut self, msg: &str) -> Result<(), TransportError> {
        self.sent.borrow_mut().push(msg.to_string());
        Ok(())
    }

    fn recv(&mut self) -> Result<String, TransportError> {
        self.inbound
            .borrow_mut()
            .pop_front()
            .ok_or(TransportError { reason: "end of script".to_string() })
    }
}

#[test]
fn request_sends_once_and_reads_no_further_than_its_answer() {
    let inbound = std::rc::Rc::new(std::cell::RefCell::new(VecDeque::from(vec![
        r#"{"jsonrpc":"2.0","result":"x","id":5}"#.to_string(),
        r#"{"jsonrpc":"2.0","method":"window/logMessage","params":{"x":1}}"#.to_string(),
        r#"{"jsonrpc":"2.0","result":"y","id":0}"#.to_string(),
        r#"{"jsonrpc":"2.0","result":"late","id":0}"#.to_string(),
        r#"{"jsonrpc":"2.0","method":"later"}"#.to_string(),
    ])));
    let sent = std::rc::Rc::new(std::cell::RefCell::new(Vec::new()));
    let mut client = Client::new(Watched { inbound: inbound.clone(), sent: sent.clone() });
    assert_eq!(result_of(client.request("method", Some(Value::from(vec![42, 23])))), Value::from("y"));
    // The first message that answers is the answer; what follows is unread.
    assert_eq!(inbound.borrow().len(), 2);
    assert_eq!(sent.borrow().len(), 1);
    let frame = sent.borrow()[0].clone();
    let body = r#"{"jsonrpc":"2.0","method":"method","params":[42,23],"id":0}"#;
    assert_eq!(frame, format!("Content-Length: {}\r\n\r\n{}", body.len(), body));
    assert_eq!(body.len(), 59);
}

#[test]
fn a_result_and_an_error_come_back_as_the_inner_layer() {
    let mut client = Client::new(Script::new(&[
        r#"{"jsonrpc": "2.0", "result": 19, "id": 0}"#,
        r#"{"jsonrpc":"2.0","error":{"code":-32601,"message":"Method not found","data":["Some","data"]},"id":1}"#,
    ]));
    assert_eq!(result_of(client.request("a", None)), Value::from(19));
    match client.request("b", None) {
        Ok(JsonRpcResult::Error { code, message, data }) => {
            assert_eq!(code, -32601);
            assert_eq!(message, "Method not found");
            assert_eq!(data, Some(Value::from(vec!["Some", "data"])));
        }
        other => panic!("expected the server's error, got {:?}", other),
    }
}

#[test]
fn notify_sends_its_frame_once() {
    let inbound = std::rc::Rc::new(std::cell::RefCell::new(VecDeque::new()));
    let sent = std::rc::Rc::new(std::cell::RefCell::new(Vec::new()));
    let mut client = Client::new(Watched { inbound, sent: sent.clone() });
    assert!(client.notify("initialized", None).is_ok());
    assert_eq!(
        *sent.borrow(),
        vec!["Content-Length: 40\r\n\r\n{\"jsonrpc\":\"2.0\",\"method\":\"initialized\"}".to_string()]
    );
}
