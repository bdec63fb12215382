use lsp_client::jsonrpc::{
    compose_notification, compose_request, compose_response, decode_message, decode_response,
    parse_message, Error, JsonRpcResult, Message, Notification, Request, Response, WireError,
};
use serde_json::Value;

fn value(text: &str) -> Value {
    serde_json::from_str(text).unwrap()
}

fn numbers(list: &[i64]) -> Value {
    Value::Array(list.iter().map(|n| Value::from(*n)).collect())
}

#[test]
fn test_request_serialization() {
    let with_params = Request {
        jsonrpc: "2.0".to_string(),
        method: "method".to_string(),
        params: Some(numbers(&[42, 23])),
        id: 1,
    };
    assert_eq!(
        value(&with_params.to_text().unwrap()),
        value(r###"{"jsonrpc": "2.0", "method": "method", "params": [42, 23], "id": 1}"###)
    );

    let with_null = Request {
        jsonrpc: "2.0".to_string(),
        method: "method".to_string(),
        params: Some(Value::Null),
        id: 1,
    };
    assert_eq!(
        value(&with_null.to_text().unwrap()),
        value(r###"{"jsonrpc": "2.0", "method": "method", "params": null, "id": 1}"###)
    );
    assert!(with_null.to_text().unwrap().contains("\"params\":null"));

    let without = Request::<Value> {
        jsonrpc: "2.0".to_string(),
        method: "method".to_string(),
        params: None,
        id: 1,
    };
    assert_eq!(
        value(&without.to_text().unwrap()),
        value(r#"{"jsonrpc": "2.0", "method": "method", "id": 1}"#)
    );
    assert!(!without.to_text().unwrap().contains("params"));
}

#[test]
fn test_request_deserialization() {
    let message =
        parse_message(r#"{"jsonrpc": "2.0", "method": "method", "params": [42, 23], "id": 1}"#);
    match message {
        Ok(Message::Request(request)) => {
            assert_eq!(request.jsonrpc, "2.0");
            assert_eq!(request.method, "method");
            assert_eq!(request.params, Some(numbers(&[42, 23])));
            assert_eq!(request.id, 1);
        }
        other => panic!("expected a request, got {:?}", other),
    }
}

#[test]
fn test_notification_serialization() {
    let notification = Notification {
        jsonrpc: "2.0".to_string(),
        method: "method".to_string(),
        params: Some(numbers(&[42, 23])),
    };
    assert_eq!(
        value(&notification.to_text().unwrap()),
        value(r###"{"jsonrpc": "2.0", "method": "method", "params": [42, 23]}"###)
    );
}

#[test]
fn test_notification_deserialization() {
    let message = parse_message(r#"{"jsonrpc": "2.0", "method": "method", "params": [42, 23]}"#);
    match message {
        Ok(Message::Notification(notification)) => {
            assert_eq!(notification.jsonrpc, "2.0");
            assert_eq!(notification.method, "method");
            assert_eq!(notification.params, Some(numbers(&[42, 23])));
        }
        other => panic!("expected a notification, got {:?}", other),
    }
}

#[test]
fn test_response_serialization() {
    let with_result = Response {
        jsonrpc: "2.0".to_string(),
        result: JsonRpcResult::Result(Value::from(19)),
        id: Some(1),
    };
    assert_eq!(
        value(&with_result.to_text().unwrap()),
        value(r###"{"jsonrpc": "2.0", "result": 19, "id": 1}"###)
    );

    let with_error = Response::<Value> {
        jsonrpc: "2.0".to_string(),
        result: JsonRpcResult::Error {
            code: -32601,
            message: "Method not found".to_string(),
            data: Some(Value::Array(vec![Value::from("Some"), Value::from("data")])),
        },
        id: None,
    };
    assert_eq!(
        value(&with_error.to_text().unwrap()),
        value(
            r###"{"jsonrpc": "2.0", "error": {"code": -32601, "message": "Method not found", "data": ["Some", "data"]}, "id": null}"###
        )
    );
}

#[test]
fn test_response_deserialization() {
    let response = decode_response(&value(r#"{"jsonrpc": "2.0", "result": 19, "id": 1}"#)).unwrap();
    assert_eq!(response.jsonrpc, "2.0");
    assert!(matches!(response.result, JsonRpcResult::Result(ref v) if *v == Value::from(19)));
    assert_eq!(response.id, Some(1));

    let response = decode_response(&value(
        r#"{"jsonrpc": "2.0", "error": {"code": -32601, "message": "Method not found", "data": ["Some", "data"]}, "id": null}"#,
    ))
    .unwrap();
    assert_eq!(response.jsonrpc, "2.0");
    match response.result {
        JsonRpcResult::Error { code, message, data } => {
            assert_eq!(code, -32601);
            assert_eq!(message, "Method not found");
            assert_eq!(data, Some(Value::Array(vec![Value::from("Some"), Value::from("data")])));
        }
        other => panic!("expected an error, got {:?}", other),
    }
    assert_eq!(response.id, None);
}

#[test]
fn request_text_is_compact_and_ordered() {
    let request = Request {
        jsonrpc: "2.0".to_string(),
        method: "textDocument/references".to_string(),
        params: Some(value(r#"{"b": [1, 2], "a": "x"}"#)),
        id: 7,
    };
    assert_eq!(
        request.to_text().unwrap(),
        r#"{"jsonrpc":"2.0","method":"textDocument/references","params":{"a":"x","b":[1,2]},"id":7}"#
    );
}

#[test]
fn method_names_are_escaped_as_json_strings() {
    let notification = Notification::<Value> {
        jsonrpc: "2.0".to_string(),
        method: "we\"ird\\name\n".to_string(),
        params: None,
    };
    let text = notification.to_text().unwrap();
    assert_eq!(text, r#"{"jsonrpc":"2.0","method":"we\"ird\\name\n"}"#);
    match parse_message(&text) {
        Ok(Message::Notification(back)) => assert_eq!(back.method, "we\"ird\\name\n"),
        other => panic!("expected a notification, got {:?}", other),
    }
}

#[test]
fn compose_puts_the_parts_together() {
    assert_eq!(
        compose_request("\"2.0\"", "\"m\"", Some("[1]"), -5),
        r#"{"jsonrpc":"2.0","method":"m","params":[1],"id":-5}"#
    );
    assert_eq!(compose_request("\"2.0\"", "\"m\"", None, 0), r#"{"jsonrpc":"2.0","method":"m","id":0}"#);
    assert_eq!(
        compose_notification("\"2.0\"", "\"m\"", Some("{}")),
        r#"{"jsonrpc":"2.0","method":"m","params":{}}"#
    );
    assert_eq!(compose_notification("\"2.0\"", "\"m\"", None), r#"{"jsonrpc":"2.0","method":"m"}"#);
    assert_eq!(
        compose_response("\"2.0\"", Ok("19"), Some(1)),
        r#"{"jsonrpc":"2.0","result":19,"id":1}"#
    );
    assert_eq!(
        compose_response("\"2.0\"", Err((-1, "\"no\"", None)), None),
        r#"{"jsonrpc":"2.0","error":{"code":-1,"message":"no"},"id":null}"#
    );
    assert_eq!(
        compose_response("\"2.0\"", Err((3, "\"no\"", Some("[]"))), Some(2)),
        r#"{"jsonrpc":"2.0","error":{"code":3,"message":"no","data":[]},"id":2}"#
    );
}

#[test]
fn response_round_trips_through_text() {
    let response = Response::<Value> {
        jsonrpc: "2.0".to_string(),
        result: JsonRpcResult::Error { code: 5, message: "bad \"thing\"".to_string(), data: None },
        id: Some(12),
    };
    let text = response.to_text().unwrap();
    match parse_message(&text) {
        Ok(Message::Response(back)) => {
            assert_eq!(back.id, Some(12));
            match back.result {
                JsonRpcResult::Error { code, message, data } => {
                    assert_eq!(code, 5);
                    assert_eq!(message, "bad \"thing\"");
                    assert_eq!(data, None);
                }
                other => panic!("expected an error, got {:?}", other),
            }
        }
        other => panic!("expected a response, got {:?}", other),
    }
}

#[test]
fn messages_are_told_apart_by_method_and_id() {
    assert!(matches!(
        parse_message(r#"{"jsonrpc":"2.0","method":"m","id":3}"#),
        Ok(Message::Request(_))
    ));
    assert!(matches!(
        parse_message(r#"{"jsonrpc":"2.0","method":"m"}"#),
        Ok(Message::Notification(_))
    ));
    assert!(matches!(
        parse_message(r#"{"jsonrpc":"2.0","method":"m","id":null}"#),
        Ok(Message::Notification(_))
    ));
    assert!(matches!(
        parse_message(r#"{"jsonrpc":"2.0","result":null,"id":3}"#),
        Ok(Message::Response(_))
    ));
}

#[test]
fn a_null_result_is_a_result() {
    let response = decode_response(&value(r#"{"jsonrpc":"2.0","result":null,"id":3}"#)).unwrap();
    assert!(matches!(response.result, JsonRpcResult::Result(Value::Null)));
}

#[test]
fn data_and_params_that_are_null_read_as_nothing() {
    let response = decode_response(&value(
        r#"{"jsonrpc":"2.0","error":{"code":1,"message":"m","data":null},"id":3}"#,
    ))
    .unwrap();
    assert!(matches!(response.result, JsonRpcResult::Error { data: None, .. }));
    match parse_message(r#"{"jsonrpc":"2.0","method":"m","params":null}"#) {
        Ok(Message::Notification(n)) => assert_eq!(n.params, None),
        other => panic!("expected a notification, got {:?}", other),
    }
}

#[test]
fn malformed_documents_are_refused() {
    for text in [
        r#"{"result":19,"id":1}"#,
        r#"{"jsonrpc":2,"result":19,"id":1}"#,
        r#"{"jsonrpc":"2.0","id":1}"#,
        r#"{"jsonrpc":"2.0","result":1,"error":{"code":1,"message":"m"},"id":1}"#,
        r#"{"jsonrpc":"2.0","result":1,"id":"one"}"#,
        r#"{"jsonrpc":"2.0","result":1,"id":1.5}"#,
        r#"{"jsonrpc":"2.0","error":{"message":"m"},"id":1}"#,
        r#"{"jsonrpc":"2.0","error":{"code":"1","message":"m"},"id":1}"#,
        r#"{"jsonrpc":"2.0","error":{"code":1},"id":1}"#,
        r#"{"jsonrpc":"2.0","error":"oops","id":1}"#,
        r#"[1,2,3]"#,
        r#"19"#,
    ] {
        assert!(
            matches!(decode_response(&value(text)), Err(WireError::Malformed)),
            "accepted {}",
            text
        );
    }
    assert!(matches!(
        decode_message(&value(r#"{"jsonrpc":"2.0","method":5}"#)),
        Err(WireError::Malformed)
    ));
    assert!(matches!(
        decode_message(&value(r#"{"method":"m"}"#)),
        Err(WireError::Malformed)
    ));
    assert!(matches!(
        decode_message(&value(r#"{"jsonrpc":"2.0","method":"m","id":"x"}"#)),
        Err(WireError::Malformed)
    ));
}

#[test]
fn text_that_is_no_json_is_unreadable() {
    assert!(matches!(parse_message("{"), Err(WireError::Unreadable)));
    assert!(matches!(parse_message(""), Err(WireError::Unreadable)));
    assert!(matches!(parse_message("{\"a\":1} trailing"), Err(WireError::Unreadable)));
}

#[test]
fn into_result_splits_result_from_error() {
    let ok: Result<i32, Error> = JsonRpcResult::Result(19).into_result();
    assert_eq!(ok.unwrap(), 19);
    let err: Result<i32, Error> = JsonRpcResult::Error {
        code: -32601,
        message: "Method not found".to_string(),
        data: Some(Value::from(1)),
    }
    .into_result();
    let err = err.unwrap_err();
    assert_eq!(err.code, -32601);
    assert_eq!(err.message, "Method not found");
    assert_eq!(err.data, Some(Value::from(1)));
}

#[test]
fn error_describes_itself_with_code_and_message() {
    let error = Error { code: -32601, message: "Method not found".to_string(), data: None };
    assert_eq!(error.describe(), "Error -32601: Method not found");
    let error = Error { code: 0, message: String::new(), data: None };
    assert_eq!(error.describe(), "Error 0: ");
}

#[test]
fn settle_tells_result_no_result_and_error_apart() {
    assert_eq!(JsonRpcResult::Result(Value::from(3)).settle().unwrap(), Some(Value::from(3)));
    assert_eq!(JsonRpcResult::Result(Value::Null).settle().unwrap(), None);
    assert_eq!(
        JsonRpcResult::Result(Value::Array(vec![])).settle().unwrap(),
        Some(Value::Array(vec![]))
    );
    let error = JsonRpcResult::<Value>::Error {
        code: -32603,
        message: "Internal error".to_string(),
        data: None,
    }
    .settle()
    .unwrap_err();
    assert_eq!(error.code, -32603);
    assert_eq!(error.message, "Internal error");
}
