//! JSON-RPC 2.0 messages: requests, notifications and responses, how the
//! first two are written and how the third is read.

use crate::decimal::{integer_text, render_integer};
use crate::json::{
    json_get, json_integer, json_member, json_null, json_parsed, json_quoted, json_string,
    json_string_value, json_text, parse_json, write_json,
};
use serde_json::Value;
use vstd::prelude::*;
use vstd::string::StringExecFns;

verus! {

/// A call that expects an answer under the same `id`.
#[derive(Debug)]
pub struct Request<Params> {
    pub jsonrpc: String,
    pub method: String,
    pub params: Option<Params>,
    pub id: i64,
}

/// A call that expects no answer.
#[derive(Debug)]
pub struct Notification<Params> {
    pub jsonrpc: String,
    pub method: String,
    pub params: Option<Params>,
}

/// The answer to the request with the same `id`.
#[derive(Debug)]
pub struct Response<T> {
    pub jsonrpc: String,
    pub result: JsonRpcResult<T>,
    pub id: Option<i64>,
}

/// What a response carries: the result, or the server's error.
#[derive(Debug)]
pub enum JsonRpcResult<T> {
    Result(T),
    Error { code: i64, message: String, data: Option<Value> },
}

/// The error object of a response.
#[derive(Debug)]
pub struct Error {
    pub code: i64,
    pub message: String,
    pub data: Option<Value>,
}

/// Why a message could not be written or read.
#[derive(Clone, Copy, Debug, PartialEq, Eq, Structural)]
pub enum WireError {
    /// A document could not be written as text. `serde_json` writes every
    /// document, so this does not come.
    Unwritable,
    /// The text is not JSON.
    Unreadable,
    /// The document is JSON, but not a response.
    Malformed,
}

/// The compact text of an optional document.
pub open spec fn text_of(v: Option<Value>) -> Option<Seq<char>> {
    match v {
        Some(d) => Some(json_text(d)),
        None => None,
    }
}

/// The member `params` of a message, where the message has parameters.
pub open spec fn params_part(params: Option<Seq<char>>) -> Seq<char> {
    match params {
        Some(p) => ",\"params\":"@ + p,
        None => Seq::empty(),
    }
}

/// A request as text: an object with the members `jsonrpc`, `method`,
/// `params` where there are any, and `id`, in this order and without spaces.
/// `version` and `method` are the texts of those two strings as documents,
/// `params` the text of the parameters.
pub open spec fn request_text(
    version: Seq<char>,
    method: Seq<char>,
    params: Option<Seq<char>>,
    id: int,
) -> Seq<char> {
    "{\"jsonrpc\":"@ + version + ",\"method\":"@ + method + params_part(params) + ",\"id\":"@
        + integer_text(id) + "}"@
}

/// A notification as text: a request without the member `id`.
pub open spec fn notification_text(
    version: Seq<char>,
    method: Seq<char>,
    params: Option<Seq<char>>,
) -> Seq<char> {
    "{\"jsonrpc\":"@ + version + ",\"method\":"@ + method + params_part(params) + "}"@
}

/// Writes the front of a message: everything up to the parameters.
fn compose_front(version: &str, method: &str, params: Option<&str>) -> (out: String)
    ensures
        out@ == "{\"jsonrpc\":"@ + version@ + ",\"method\":"@ + method@ + params_part(
            match params {
                Some(p) => Some(p@),
                None => None,
            },
        ),
{
    let mut out = String::new();
    out.append("{\"jsonrpc\":");
    out.append(version);
    out.append(",\"method\":");
    out.append(method);
    let ghost front = out@;
    assert(front =~= "{\"jsonrpc\":"@ + version@ + ",\"method\":"@ + method@);
    match params {
        Some(p) => {
            out.append(",\"params\":");
            out.append(p);
            assert(out@ =~= front + (",\"params\":"@ + p@));
        },
        None => {
            assert(out@ =~= front + Seq::<char>::empty());
        },
    }
    out
}

/// Writes a request from the texts of its parts.
pub fn compose_request(version: &str, method: &str, params: Option<&str>, id: i64) -> (out: String)
    ensures
        out@ == request_text(
            version@,
            method@,
            match params {
                Some(p) => Some(p@),
                None => None,
            },
            id as int,
        ),
{
    let mut out = compose_front(version, method, params);
    out.append(",\"id\":");
    let number = render_integer(id);
    out.append(number.as_str());
    out.append("}");
    out
}

/// Writes a notification from the texts of its parts.
pub fn compose_notification(version: &str, method: &str, params: Option<&str>) -> (out: String)
    ensures
        out@ == notification_text(
            version@,
            method@,
            match params {
                Some(p) => Some(p@),
                None => None,
            },
        ),
{
    let mut out = compose_front(version, method, params);
    out.append("}");
    out
}

/// Writes the parameters of a message, where it has any.
fn write_params(params: &Option<Value>) -> (out: Result<Option<String>, WireError>)
    ensures
        match out {
            Ok(Some(s)) => *params matches Some(v) && s@ == json_text(v),
            Ok(None) => *params is None,
            Err(_) => false,
        },
{
    match params {
        Some(v) => match write_json(v) {
            Some(s) => Ok(Some(s)),
            None => Err(WireError::Unwritable),
        },
        None => Ok(None),
    }
}

/// Writes a string as a document.
fn write_string(s: &str) -> (out: Result<String, WireError>)
    ensures
        out matches Ok(t) && t@ == json_quoted(s@),
{
    let doc = json_string_value(s);
    match write_json(&doc) {
        Some(t) => Ok(t),
        None => Err(WireError::Unwritable),
    }
}

/// The `Option<&str>` of an `Option<String>`.
fn as_text(s: &Option<String>) -> (out: Option<&str>)
    ensures
        match out {
            Some(t) => *s matches Some(u) && t@ == u@,
            None => *s is None,
        },
{
    match s {
        Some(u) => Some(u.as_str()),
        None => None,
    }
}

impl Request<Value> {
    /// The text of this request.
    pub open spec fn text(&self) -> Seq<char> {
        request_text(
            json_quoted(self.jsonrpc@),
            json_quoted(self.method@),
            text_of(self.params),
            self.id as int,
        )
    }

    /// Writes this request as text. This always succeeds.
    pub fn to_text(&self) -> (out: Result<String, WireError>)
        ensures
            out matches Ok(s) && s@ == self.text(),
    {
        let version = match write_string(self.jsonrpc.as_str()) {
            Ok(t) => t,
            Err(e) => {
                return Err(e);
            },
        };
        let method = match write_string(self.method.as_str()) {
            Ok(t) => t,
            Err(e) => {
                return Err(e);
            },
        };
        let params = match write_params(&self.params) {
            Ok(p) => p,
            Err(e) => {
                return Err(e);
            },
        };
        Ok(compose_request(version.as_str(), method.as_str(), as_text(&params), self.id))
    }
}

impl Notification<Value> {
    /// The text of this notification.
    pub open spec fn text(&self) -> Seq<char> {
        notification_text(
            json_quoted(self.jsonrpc@),
            json_quoted(self.method@),
            text_of(self.params),
        )
    }

    /// Writes this notification as text. This always succeeds.
    pub fn to_text(&self) -> (out: Result<String, WireError>)
        ensures
            out matches Ok(s) && s@ == self.text(),
    {
        let version = match write_string(self.jsonrpc.as_str()) {
            Ok(t) => t,
            Err(e) => {
                return Err(e);
            },
        };
        let method = match write_string(self.method.as_str()) {
            Ok(t) => t,
            Err(e) => {
                return Err(e);
            },
        };
        let params = match write_params(&self.params) {
            Ok(p) => p,
            Err(e) => {
                return Err(e);
            },
        };
        Ok(compose_notification(version.as_str(), method.as_str(), as_text(&params)))
    }
}

/// What a response carries, with each document as its compact text.
pub enum Outcome {
    Result(Seq<char>),
    Error { code: i64, message: Seq<char>, data: Option<Seq<char>> },
}

/// A response, with each document as its compact text.
pub struct ResponseContent {
    pub jsonrpc: Seq<char>,
    pub result: Outcome,
    pub id: Option<i64>,
}

impl JsonRpcResult<Value> {
    /// What this value carries, with each document as its compact text.
    pub open spec fn content(&self) -> Outcome {
        match *self {
            JsonRpcResult::Result(v) => Outcome::Result(json_text(v)),
            JsonRpcResult::Error { code, message, data } => Outcome::Error {
                code,
                message: message@,
                data: text_of(data),
            },
        }
    }
}

impl Response<Value> {
    /// This response, with each document as its compact text.
    pub open spec fn content(&self) -> ResponseContent {
        ResponseContent {
            jsonrpc: self.jsonrpc@,
            result: self.result.content(),
            id: self.id,
        }
    }
}

/// An optional member of an object: absent and `null` both read as nothing.
pub open spec fn optional_member(doc: Seq<char>, key: Seq<char>) -> Option<Seq<char>> {
    match json_member(doc, key) {
        Some(t) => if json_null(t) {
            None
        } else {
            Some(t)
        },
        None => None,
    }
}

/// The error object of a response, read from the compact text of that
/// object: `code` must be an integer and `message` a string; `data` is
/// optional.
pub open spec fn read_error(doc: Seq<char>) -> Option<Outcome> {
    match (json_member(doc, "code"@), json_member(doc, "message"@)) {
        (Some(c), Some(m)) => match (json_integer(c), json_string(m)) {
            (Some(code), Some(message)) => Some(
                Outcome::Error { code, message, data: optional_member(doc, "data"@) },
            ),
            _ => None,
        },
        _ => None,
    }
}

/// What a response carries, read from the compact text of the response:
/// either the member `result` or the member `error`, never both.
pub open spec fn read_outcome(doc: Seq<char>) -> Option<Outcome> {
    match (json_member(doc, "result"@), json_member(doc, "error"@)) {
        (Some(r), None) => Some(Outcome::Result(r)),
        (None, Some(e)) => read_error(e),
        _ => None,
    }
}

/// The member `id` of a response: an integer, or nothing where it is absent
/// or `null`. The outer `None` stands for anything else.
pub open spec fn read_id(doc: Seq<char>) -> Option<Option<i64>> {
    match optional_member(doc, "id"@) {
        Some(t) => match json_integer(t) {
            Some(i) => Some(Some(i)),
            None => None,
        },
        None => Some(None),
    }
}

/// A response, read from its compact text; `None` where the document is no
/// response.
pub open spec fn read_response(doc: Seq<char>) -> Option<ResponseContent> {
    match json_member(doc, "jsonrpc"@) {
        Some(v) => match (json_string(v), read_id(doc), read_outcome(doc)) {
            (Some(jsonrpc), Some(id), Some(result)) => Some(
                ResponseContent { jsonrpc, result, id },
            ),
            _ => None,
        },
        None => None,
    }
}

/// Looks up an optional member: absent and `null` both read as nothing.
fn get_optional<'a>(doc: &'a Value, key: &str) -> (out: Option<&'a Value>)
    ensures
        match out {
            Some(m) => optional_member(json_text(*doc), key@) == Some(json_text(*m)),
            None => optional_member(json_text(*doc), key@) is None,
        },
{
    match json_get(doc, key) {
        Some(m) => if m.is_null() {
            None
        } else {
            Some(m)
        },
        None => None,
    }
}

/// Reads the error object of a response.
fn decode_error(doc: &Value) -> (out: Option<JsonRpcResult<Value>>)
    ensures
        match out {
            Some(r) => read_error(json_text(*doc)) == Some(r.content()),
            None => read_error(json_text(*doc)) is None,
        },
{
    let code = match json_get(doc, "code") {
        Some(c) => match c.as_i64() {
            Some(code) => code,
            None => {
                return None;
            },
        },
        None => {
            return None;
        },
    };
    let message = match json_get(doc, "message") {
        Some(m) => match m.as_str() {
            Some(message) => message.to_owned(),
            None => {
                return None;
            },
        },
        None => {
            return None;
        },
    };
    let data = match get_optional(doc, "data") {
        Some(d) => Some(d.clone()),
        None => None,
    };
    Some(JsonRpcResult::Error { code, message, data })
}

/// Reads a response from a document.
pub fn decode_response(doc: &Value) -> (out: Result<Response<Value>, WireError>)
    ensures
        match out {
            Ok(r) => read_response(json_text(*doc)) == Some(r.content()),
            Err(e) => e == WireError::Malformed && read_response(json_text(*doc)) is None,
        },
{
    let jsonrpc = match json_get(doc, "jsonrpc") {
        Some(v) => match v.as_str() {
            Some(s) => s.to_owned(),
            None => {
                return Err(WireError::Malformed);
            },
        },
        None => {
            return Err(WireError::Malformed);
        },
    };
    let id = match get_optional(doc, "id") {
        Some(m) => match m.as_i64() {
            Some(i) => Some(i),
            None => {
                return Err(WireError::Malformed);
            },
        },
        None => None,
    };
    let result = match (json_get(doc, "result"), json_get(doc, "error")) {
        (Some(r), None) => JsonRpcResult::Result(r.clone()),
        (None, Some(e)) => match decode_error(e) {
            Some(r) => r,
            None => {
                return Err(WireError::Malformed);
            },
        },
        _ => {
            return Err(WireError::Malformed);
        },
    };
    Ok(Response { jsonrpc, result, id })
}

impl JsonRpcResult<Value> {
    /// Tells the three answers of a server apart: a result, no result, and
    /// an error. A result that is `null` is no result, which is no failure:
    /// whoever asked passes on to the next thing to ask. An error is the
    /// server's, and is handed out as it came.
    pub fn settle(self) -> (out: Result<Option<Value>, Error>)
        ensures
            match self {
                JsonRpcResult::Result(v) => out == Ok::<Option<Value>, Error>(
                    if json_null(json_text(v)) {
                        None
                    } else {
                        Some(v)
                    },
                ),
                JsonRpcResult::Error { code, message, data } => out == Err::<Option<Value>, Error>(
                    Error { code, message, data },
                ),
            },
    {
        match self {
            JsonRpcResult::Result(v) => if v.is_null() {
                Ok(None)
            } else {
                Ok(Some(v))
            },
            JsonRpcResult::Error { code, message, data } => Err(Error { code, message, data }),
        }
    }
}

impl<T> JsonRpcResult<T> {
    /// The result as `Ok`, the server's error as `Err`.
    pub fn into_result(self) -> (out: Result<T, Error>)
        ensures
            match self {
                JsonRpcResult::Result(v) => out == Ok::<T, Error>(v),
                JsonRpcResult::Error { code, message, data } => out == Err::<T, Error>(
                    Error { code, message, data },
                ),
            },
    {
        match self {
            JsonRpcResult::Result(v) => Ok(v),
            JsonRpcResult::Error { code, message, data } => Err(Error { code, message, data }),
        }
    }
}

impl Error {
    /// The error in words: `Error`, the code, a colon, the message.
    pub open spec fn description(&self) -> Seq<char> {
        "Error "@ + integer_text(self.code as int) + ": "@ + self.message@
    }

    /// Writes the error in words.
    pub fn describe(&self) -> (out: String)
        ensures
            out@ == self.description(),
    {
        let mut out = String::new();
        out.append("Error ");
        let code = render_integer(self.code);
        out.append(code.as_str());
        out.append(": ");
        out.append(self.message.as_str());
        assert(out@ =~= self.description());
        out
    }
}

/// The error object of a response as text: an object with the members
/// `code`, `message`, and `data` where there is any.
pub open spec fn error_text(code: int, message: Seq<char>, data: Option<Seq<char>>) -> Seq<char> {
    "{\"code\":"@ + integer_text(code) + ",\"message\":"@ + message + (match data {
        Some(d) => ",\"data\":"@ + d,
        None => Seq::empty(),
    }) + "}"@
}

/// The member of a response that carries its outcome: `result` with the
/// result, or `error` with the error object. `message` is the text of that
/// string as a document.
pub open spec fn outcome_text(outcome: Outcome) -> Seq<char> {
    match outcome {
        Outcome::Result(r) => "\"result\":"@ + r,
        Outcome::Error { code, message, data } => "\"error\":"@ + error_text(
            code as int,
            message,
            data,
        ),
    }
}

/// The member `id` of a response: the identifier, or `null`.
pub open spec fn id_text(id: Option<i64>) -> Seq<char> {
    match id {
        Some(i) => integer_text(i as int),
        None => "null"@,
    }
}

/// A response as text: an object with the members `jsonrpc`, then `result`
/// or `error`, then `id`. `version` is the text of that string as a
/// document, and so is the message of an error.
pub open spec fn response_text(version: Seq<char>, outcome: Outcome, id: Option<i64>) -> Seq<char> {
    "{\"jsonrpc\":"@ + version + ","@ + outcome_text(outcome) + ",\"id\":"@ + id_text(id) + "}"@
}

/// Writes a response from the texts of its parts.
pub fn compose_response(
    version: &str,
    result: Result<&str, (i64, &str, Option<&str>)>,
    id: Option<i64>,
) -> (out: String)
    ensures
        out@ == response_text(
            version@,
            match result {
                Ok(r) => Outcome::Result(r@),
                Err((code, message, data)) => Outcome::Error {
                    code,
                    message: message@,
                    data: match data {
                        Some(d) => Some(d@),
                        None => None,
                    },
                },
            },
            id,
        ),
{
    let mut out = String::new();
    out.append("{\"jsonrpc\":");
    out.append(version);
    out.append(",");
    let ghost front = out@;
    match result {
        Ok(r) => {
            out.append("\"result\":");
            out.append(r);
            assert(out@ =~= front + ("\"result\":"@ + r@));
        },
        Err((code, message, data)) => {
            out.append("\"error\":");
            out.append("{\"code\":");
            let number = render_integer(code);
            out.append(number.as_str());
            out.append(",\"message\":");
            out.append(message);
            let ghost inner = "{\"code\":"@ + integer_text(code as int) + ",\"message\":"@
                + message@;
            assert(out@ =~= front + "\"error\":"@ + inner);
            match data {
                Some(d) => {
                    out.append(",\"data\":");
                    out.append(d);
                    assert(out@ =~= front + "\"error\":"@ + (inner + (",\"data\":"@ + d@)));
                },
                None => {
                    assert(out@ =~= front + "\"error\":"@ + (inner + Seq::<char>::empty()));
                },
            }
            out.append("}");
            assert(out@ =~= front + ("\"error\":"@ + error_text(
                code as int,
                message@,
                match data {
                    Some(d) => Some(d@),
                    None => None,
                },
            )));
        },
    }
    out.append(",\"id\":");
    match id {
        Some(i) => {
            let number = render_integer(i);
            out.append(number.as_str());
        },
        None => {
            out.append("null");
        },
    }
    out.append("}");
    out
}

impl Response<Value> {
    /// The text of this response.
    pub open spec fn text(&self) -> Seq<char> {
        response_text(
            json_quoted(self.jsonrpc@),
            match self.result.content() {
                Outcome::Result(r) => Outcome::Result(r),
                Outcome::Error { code, message, data } => Outcome::Error {
                    code,
                    message: json_quoted(message),
                    data,
                },
            },
            self.id,
        )
    }

    /// Writes this response as text. This always succeeds.
    pub fn to_text(&self) -> (out: Result<String, WireError>)
        ensures
            out matches Ok(s) && s@ == self.text(),
    {
        let version = match write_string(self.jsonrpc.as_str()) {
            Ok(t) => t,
            Err(e) => {
                return Err(e);
            },
        };
        match &self.result {
            JsonRpcResult::Result(v) => {
                let result = match write_json(v) {
                    Some(t) => t,
                    None => {
                        return Err(WireError::Unwritable);
                    },
                };
                Ok(compose_response(version.as_str(), Ok(result.as_str()), self.id))
            },
            JsonRpcResult::Error { code, message, data } => {
                let message = match write_string(message.as_str()) {
                    Ok(t) => t,
                    Err(e) => {
                        return Err(e);
                    },
                };
                let data = match write_params(data) {
                    Ok(d) => d,
                    Err(e) => {
                        return Err(e);
                    },
                };
                Ok(
                    compose_response(
                        version.as_str(),
                        Err((*code, message.as_str(), as_text(&data))),
                        self.id,
                    ),
                )
            },
        }
    }
}

/// An inbound message, told apart by its members: one with `method` and an
/// `id` is a request, one with `method` and no `id` a notification, one
/// without `method` a response.
#[derive(Debug)]
pub enum Message {
    Request(Request<Value>),
    Notification(Notification<Value>),
    Response(Response<Value>),
}

/// A message, with each document as its compact text.
pub enum MessageContent {
    Request { jsonrpc: Seq<char>, method: Seq<char>, params: Option<Seq<char>>, id: i64 },
    Notification { jsonrpc: Seq<char>, method: Seq<char>, params: Option<Seq<char>> },
    Response(ResponseContent),
}

impl Message {
    /// This message, with each document as its compact text.
    pub open spec fn content(&self) -> MessageContent {
        match *self {
            Message::Request(r) => MessageContent::Request {
                jsonrpc: r.jsonrpc@,
                method: r.method@,
                params: text_of(r.params),
                id: r.id,
            },
            Message::Notification(n) => MessageContent::Notification {
                jsonrpc: n.jsonrpc@,
                method: n.method@,
                params: text_of(n.params),
            },
            Message::Response(r) => MessageContent::Response(r.content()),
        }
    }
}

/// A member of an object that must be a string.
pub open spec fn string_member(doc: Seq<char>, key: Seq<char>) -> Option<Seq<char>> {
    match json_member(doc, key) {
        Some(t) => json_string(t),
        None => None,
    }
}

/// A call of the peer's, read from its compact text: `jsonrpc` and `method`
/// must be strings; `params` is optional; with an `id`, which must be an
/// integer, the call is a request, without one a notification.
pub open spec fn read_call(doc: Seq<char>) -> Option<MessageContent> {
    match (string_member(doc, "jsonrpc"@), string_member(doc, "method"@)) {
        (Some(jsonrpc), Some(method)) => {
            let params = optional_member(doc, "params"@);
            match optional_member(doc, "id"@) {
                Some(t) => match json_integer(t) {
                    Some(id) => Some(MessageContent::Request { jsonrpc, method, params, id }),
                    None => None,
                },
                None => Some(MessageContent::Notification { jsonrpc, method, params }),
            }
        },
        _ => None,
    }
}

/// A message, read from its compact text; `None` where the document is no
/// message.
pub open spec fn read_message(doc: Seq<char>) -> Option<MessageContent> {
    if json_member(doc, "method"@) is Some {
        read_call(doc)
    } else {
        match read_response(doc) {
            Some(r) => Some(MessageContent::Response(r)),
            None => None,
        }
    }
}

/// Reads a member that must be a string.
fn get_string(doc: &Value, key: &str) -> (out: Option<String>)
    ensures
        match out {
            Some(s) => string_member(json_text(*doc), key@) == Some(s@),
            None => string_member(json_text(*doc), key@) is None,
        },
{
    match json_get(doc, key) {
        Some(m) => match m.as_str() {
            Some(s) => Some(s.to_owned()),
            None => None,
        },
        None => None,
    }
}

/// Reads a message from a document.
pub fn decode_message(doc: &Value) -> (out: Result<Message, WireError>)
    ensures
        match out {
            Ok(m) => read_message(json_text(*doc)) == Some(m.content()),
            Err(e) => e == WireError::Malformed && read_message(json_text(*doc)) is None,
        },
{
    if json_get(doc, "method").is_none() {
        return match decode_response(doc) {
            Ok(r) => Ok(Message::Response(r)),
            Err(e) => Err(e),
        };
    }
    let jsonrpc = match get_string(doc, "jsonrpc") {
        Some(s) => s,
        None => {
            return Err(WireError::Malformed);
        },
    };
    let method = match get_string(doc, "method") {
        Some(s) => s,
        None => {
            return Err(WireError::Malformed);
        },
    };
    let params = match get_optional(doc, "params") {
        Some(p) => Some(p.clone()),
        None => None,
    };
    match get_optional(doc, "id") {
        Some(m) => match m.as_i64() {
            Some(id) => Ok(Message::Request(Request { jsonrpc, method, params, id })),
            None => Err(WireError::Malformed),
        },
        None => Ok(Message::Notification(Notification { jsonrpc, method, params })),
    }
}

/// Reads a message from text.
pub fn parse_message(text: &str) -> (out: Result<Message, WireError>)
    ensures
        match json_parsed(text@) {
            Some(doc) => match out {
                Ok(m) => read_message(doc) == Some(m.content()),
                Err(e) => e == WireError::Malformed && read_message(doc) is None,
            },
            None => out matches Err(WireError::Unreadable),
        },
{
    match parse_json(text) {
        Some(doc) => decode_message(&doc),
        None => Err(WireError::Unreadable),
    }
}

} // verus!
