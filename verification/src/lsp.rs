//! The client side of a session with a language server: it numbers the
//! requests, writes them onto the transport, and hands each response to the
//! request it answers.

use crate::frame::{frame_bytes, frame_text};
use crate::json::{json_get, json_integer, json_member, json_parsed, json_quoted, parse_json};
use crate::jsonrpc::{
    decode_response, notification_text, read_response, request_text, text_of, JsonRpcResult,
    Notification, Outcome, Request, WireError,
};
use serde_json::Value;
use vstd::prelude::*;
use vstd::utf8::encode_utf8;

verus! {

/// Why the transport could not carry a message.
#[derive(Clone, Debug)]
pub struct TransportError {
    pub reason: String,
}

/// A transport for whole messages. What the session hands over is a message
/// in its frame, ready for the wire; what it takes is the body of a message,
/// the frame taken off. The session makes no assumption about how an
/// implementation behaves.
pub trait StringIO {
    /// Hands one message, in its frame, to the peer.
    fn send(&mut self, msg: &str) -> Result<(), TransportError>;

    /// Takes the body of the next message from the peer, waiting for it if
    /// need be.
    fn recv(&mut self) -> Result<String, TransportError>;
}

/// Why a call on the session failed.
#[derive(Debug)]
pub enum ClientError {
    /// The transport failed.
    Transport(TransportError),
    /// A message could not be written or read.
    Wire(WireError),
    /// Every identifier has been used.
    Exhausted,
    /// No request is waiting under that identifier.
    NotPending,
    /// More messages than the session has patience for came in, and none of
    /// them was the response.
    Unanswered,
}

/// A response that has come in for a request whose caller has not asked for
/// it yet.
#[derive(Debug)]
pub struct Delivery {
    pub id: i64,
    pub result: JsonRpcResult<Value>,
}

/// What one inbound message turned out to be.
#[derive(Debug)]
pub enum Arrival {
    /// The response to the request under `id`, which was waiting for it.
    Response { id: i64, result: JsonRpcResult<Value> },
    /// Anything else: a notification, a request of the server's, a response
    /// that no request is waiting for. Its content is dropped.
    Ignored,
}

/// A session with a language server over the transport `IO`.
///
/// Besides what it needs to run, a session keeps a record, for proofs
/// alone, of every message that it has handed to the transport, of every
/// message that it has taken in, and of how often it has asked the
/// transport for a message.
pub struct Client<IO: StringIO> {
    io: IO,
    request_id_counter: i64,
    pending: Vec<i64>,
    ready: Vec<Delivery>,
    patience: usize,
    handed: Ghost<Seq<Seq<u8>>>,
    taken: Ghost<Seq<Seq<char>>>,
    asked: Ghost<nat>,
}

/// The text of the request that a session sends for `method` and `params`
/// under `id`.
pub open spec fn outgoing_request(method: Seq<char>, params: Option<Value>, id: int) -> Seq<char> {
    request_text(json_quoted("2.0"@), json_quoted(method), text_of(params), id)
}

/// The text of the notification that a session sends for `method` and
/// `params`.
pub open spec fn outgoing_notification(method: Seq<char>, params: Option<Value>) -> Seq<char> {
    notification_text(json_quoted("2.0"@), json_quoted(method), text_of(params))
}

/// Writes the message that a session sends for a request: the request in
/// its frame. This always succeeds.
pub fn request_frame(method: &str, params: Option<Value>, id: i64) -> (out: Result<
    String,
    WireError,
>)
    ensures
        out matches Ok(s) && encode_utf8(s@) == frame_bytes(
            encode_utf8(outgoing_request(method@, params, id as int)),
            None,
        ),
{
    let request = Request { jsonrpc: "2.0".to_owned(), method: method.to_owned(), params, id };
    match request.to_text() {
        Ok(body) => Ok(frame_text(body.as_str())),
        Err(e) => Err(e),
    }
}

/// Writes the message that a session sends for a notification: the
/// notification in its frame. This always succeeds.
pub fn notification_frame(method: &str, params: Option<Value>) -> (out: Result<String, WireError>)
    ensures
        out matches Ok(s) && encode_utf8(s@) == frame_bytes(
            encode_utf8(outgoing_notification(method@, params)),
            None,
        ),
{
    let notification = Notification { jsonrpc: "2.0".to_owned(), method: method.to_owned(), params };
    match notification.to_text() {
        Ok(body) => Ok(frame_text(body.as_str())),
        Err(e) => Err(e),
    }
}

/// What becomes of an inbound message.
pub enum Routing {
    /// It is dropped.
    Ignore,
    /// It answers the request under this identifier, with this content.
    Deliver(i64, Outcome),
    /// It breaks the session.
    Reject(WireError),
}

/// The identifier under which a document answers: the integer under `id` of
/// a document that has no member `method`.
pub open spec fn answered_id(doc: Seq<char>) -> Option<i64> {
    if json_member(doc, "method"@) is Some {
        None
    } else {
        match json_member(doc, "id"@) {
            Some(t) => json_integer(t),
            None => None,
        }
    }
}

/// What becomes of the inbound message `text` while the requests `pending`
/// wait for their answers. Text that is no JSON breaks the session. A
/// document with a member `method` is a notification or a request of the
/// server's and is dropped. So is one whose `id` is no integer, or not that
/// of a waiting request. What is left answers a waiting request, and must
/// be a well-formed response.
pub open spec fn route(pending: Seq<i64>, text: Seq<char>) -> Routing {
    match json_parsed(text) {
        None => Routing::Reject(WireError::Unreadable),
        Some(doc) => match answered_id(doc) {
            Some(id) => if pending.contains(id) {
                match read_response(doc) {
                    Some(c) => Routing::Deliver(id, c.result),
                    None => Routing::Reject(WireError::Malformed),
                }
            } else {
                Routing::Ignore
            },
            None => Routing::Ignore,
        },
    }
}

/// Where `id` stands in `ids`, if it does.
fn position_of(ids: &Vec<i64>, id: i64) -> (out: Option<usize>)
    ensures
        match out {
            Some(k) => k < ids@.len() && ids@[k as int] == id,
            None => !ids@.contains(id),
        },
{
    let mut k: usize = 0;
    while k < ids.len()
        invariant
            k <= ids.len(),
            forall|j: int| 0 <= j < k ==> ids@[j] != id,
        decreases ids.len() - k,
    {
        if ids[k] == id {
            return Some(k);
        }
        k = k + 1;
    }
    None
}

/// The responses that wait for their callers, each with its identifier and
/// its content.
pub open spec fn deliveries(ready: Seq<Delivery>) -> Seq<(i64, Outcome)> {
    ready.map_values(|d: Delivery| (d.id, d.result.content()))
}

/// What holds of a session at all times. Identifiers start at zero and every
/// one in use has been handed out; the waiting requests stand in rising
/// order; no identifier is both waiting and answered, nor answered twice.
pub open spec fn consistent(next: int, pending: Seq<i64>, ready: Seq<(i64, Outcome)>) -> bool {
    &&& 0 <= next <= i64::MAX
    &&& forall|i: int| 0 <= i < pending.len() ==> 0 <= #[trigger] pending[i] < next
    &&& forall|i: int, j: int| 0 <= i < j < pending.len() ==> pending[i] < pending[j]
    &&& forall|k: int|
        0 <= k < ready.len() ==> 0 <= (#[trigger] ready[k]).0 < next && !pending.contains(
            ready[k].0,
        )
    &&& forall|k: int, l: int| 0 <= k < l < ready.len() ==> ready[k].0 != ready[l].0
}

/// Sending a request keeps a session consistent.
pub proof fn lemma_issue_keeps(next: int, pending: Seq<i64>, ready: Seq<(i64, Outcome)>)
    requires
        consistent(next, pending, ready),
        next < i64::MAX,
    ensures
        consistent(next + 1, pending, ready),
        consistent(next + 1, pending.push(next as i64), ready),
{
    let after = pending.push(next as i64);
    assert forall|k: int| 0 <= k < ready.len() implies !after.contains((#[trigger] ready[k]).0) by {
        assert(!pending.contains(ready[k].0));
        if after.contains(ready[k].0) {
            let j = choose|j: int| 0 <= j < after.len() && after[j] == ready[k].0;
            if j < pending.len() {
                assert(pending[j] == ready[k].0);
            }
        }
    }
}

/// Taking an answered request off the waiting list keeps a session
/// consistent, and the request waits no longer.
pub proof fn lemma_answer_keeps(next: int, pending: Seq<i64>, ready: Seq<(i64, Outcome)>, k: int)
    requires
        consistent(next, pending, ready),
        0 <= k < pending.len(),
    ensures
        consistent(next, pending.remove(k), ready),
        !pending.remove(k).contains(pending[k]),
        forall|x: i64| pending.remove(k).contains(x) ==> pending.contains(x),
        forall|x: i64| pending.contains(x) && x != pending[k] ==> pending.remove(k).contains(x),
        forall|l: int| 0 <= l < ready.len() ==> (#[trigger] ready[l]).0 != pending[k],
{
    let after = pending.remove(k);
    assert forall|x: i64| after.contains(x) implies pending.contains(x) && x != pending[k] by {
        let j = choose|j: int| 0 <= j < after.len() && after[j] == x;
        if j < k {
            assert(pending[j] == x);
        } else {
            assert(pending[j + 1] == x);
        }
    }
    assert forall|x: i64| pending.contains(x) && x != pending[k] implies after.contains(x) by {
        let j = choose|j: int| 0 <= j < pending.len() && pending[j] == x;
        if j < k {
            assert(after[j] == x);
        } else {
            assert(after[j - 1] == x);
        }
    }
    assert forall|i: int| 0 <= i < after.len() implies 0 <= #[trigger] after[i] < next by {
        if i < k {
            assert(after[i] == pending[i]);
        } else {
            assert(after[i] == pending[i + 1]);
        }
    }
    assert forall|l: int| 0 <= l < ready.len() implies (#[trigger] ready[l]).0 != pending[k] by {
        assert(!pending.contains(ready[l].0));
    }
    assert forall|l: int| 0 <= l < ready.len() implies !after.contains((#[trigger] ready[l]).0) by {
        assert(!pending.contains(ready[l].0));
    }
}

/// In a rising list, a value stands at one place only.
pub proof fn lemma_place_is_unique(pending: Seq<i64>, k: int)
    requires
        0 <= k < pending.len(),
        forall|i: int, j: int| 0 <= i < j < pending.len() ==> pending[i] < pending[j],
    ensures
        pending.index_of(pending[k]) == k,
{
    let found = pending.index_of(pending[k]);
    assert(pending.contains(pending[k]));
    if found < k {
        assert(pending[found] < pending[k]);
    } else if k < found {
        assert(pending[k] < pending[found]);
    }
}

/// Keeping a response for a request that waits no longer keeps a session
/// consistent.
pub proof fn lemma_keep_keeps(
    next: int,
    pending: Seq<i64>,
    ready: Seq<(i64, Outcome)>,
    id: i64,
    content: Outcome,
)
    requires
        consistent(next, pending, ready),
        0 <= id < next,
        !pending.contains(id),
        forall|l: int| 0 <= l < ready.len() ==> (#[trigger] ready[l]).0 != id,
    ensures
        consistent(next, pending, ready.push((id, content))),
{
}

/// Handing out a kept response keeps a session consistent.
pub proof fn lemma_hand_out_keeps(
    next: int,
    pending: Seq<i64>,
    ready: Seq<(i64, Outcome)>,
    k: int,
)
    requires
        consistent(next, pending, ready),
        0 <= k < ready.len(),
    ensures
        consistent(next, pending, ready.remove(k)),
        forall|l: int| 0 <= l < ready.remove(k).len() ==> (#[trigger] ready.remove(k)[l]).0 != ready[k].0,
{
    let after = ready.remove(k);
    assert forall|l: int| 0 <= l < after.len() implies 0 <= (#[trigger] after[l]).0 < next
        && !pending.contains(after[l].0) && after[l].0 != ready[k].0 by {
        if l < k {
            assert(after[l] == ready[l]);
        } else {
            assert(after[l] == ready[l + 1]);
        }
    }
    assert forall|a: int, b: int| 0 <= a < b < after.len() implies after[a].0 != after[b].0 by {
        let a2 = if a < k { a } else { a + 1 };
        let b2 = if b < k { b } else { b + 1 };
        assert(after[a] == ready[a2]);
        assert(after[b] == ready[b2]);
    }
}

/// Whether the message `text` is the response to the request under `id`,
/// and carries `content`: it has no member `method`, the integer under its
/// `id` is `id`, and it reads as a response with that content.
pub open spec fn answers(text: Seq<char>, id: i64, content: Outcome) -> bool {
    &&& json_parsed(text) matches Some(doc)
    &&& answered_id(doc) == Some(id)
    &&& read_response(doc) matches Some(response)
    &&& response.result == content
}

/// Whether one of the messages `taken` is the response to the request under
/// `id`, and carries `content`.
pub open spec fn has_answer(taken: Seq<Seq<char>>, id: i64, content: Outcome) -> bool {
    exists|j: int| 0 <= j < taken.len() && answers(#[trigger] taken[j], id, content)
}

/// Whether every response that is kept came in as a message: it is among
/// the messages `taken`, under its identifier and with its content.
pub open spec fn founded(ready: Seq<(i64, Outcome)>, taken: Seq<Seq<char>>) -> bool {
    forall|k: int|
        0 <= k < ready.len() ==> has_answer(taken, (#[trigger] ready[k]).0, ready[k].1)
}

/// What came in stays on record when more comes in.
pub proof fn lemma_more_taken(taken: Seq<Seq<char>>, text: Seq<char>, id: i64, content: Outcome)
    ensures
        has_answer(taken, id, content) ==> has_answer(taken.push(text), id, content),
        answers(text, id, content) ==> has_answer(taken.push(text), id, content),
{
    let more = taken.push(text);
    if has_answer(taken, id, content) {
        let j = choose|j: int| 0 <= j < taken.len() && answers(#[trigger] taken[j], id, content);
        assert(more[j] == taken[j]);
    }
    if answers(text, id, content) {
        assert(more[taken.len() as int] == text);
    }
}

/// The responses that are kept stay founded when more comes in.
pub proof fn lemma_founded_grows(ready: Seq<(i64, Outcome)>, taken: Seq<Seq<char>>, text: Seq<char>)
    requires
        founded(ready, taken),
    ensures
        founded(ready, taken.push(text)),
{
    assert forall|k: int| 0 <= k < ready.len() implies has_answer(
        taken.push(text),
        (#[trigger] ready[k]).0,
        ready[k].1,
    ) by {
        lemma_more_taken(taken, text, ready[k].0, ready[k].1);
    }
}

/// How a wait stands after the messages that have come in.
pub enum WaitEnd {
    /// Nothing has ended it: it goes on.
    Waiting,
    /// The response has come in, with this content.
    Answered(Outcome),
    /// A message has broken the session.
    Broken(WireError),
    /// A message came in after the wait had ended. A wait takes none.
    Overrun,
}

/// A wait and what it has done to the session: the requests that still
/// wait, the responses that are kept for other callers, in the order in
/// which they came, and how the wait stands.
pub struct Wait {
    pub pending: Seq<i64>,
    pub kept: Seq<(i64, Outcome)>,
    pub end: WaitEnd,
}

/// The wait for the response to `id`, after the messages `news` have come
/// in one after the other while the requests `pending` waited and the
/// responses `kept` were kept.
///
/// Each message is routed as `route` says, against the requests that wait
/// when it comes. The first response to `id` ends the wait, and what it
/// carries is the answer. A message that is no JSON, or a response to a
/// waiting request that is malformed, ends it as broken. A response to
/// another waiting request takes that request off the waiting list and is
/// kept. Every other message, a notification, a request of the server's, a
/// response that no request waits for, is dropped, and the wait goes on.
pub open spec fn waiting(
    pending: Seq<i64>,
    kept: Seq<(i64, Outcome)>,
    id: i64,
    news: Seq<Seq<char>>,
) -> Wait
    decreases news.len(),
{
    if news.len() == 0 {
        Wait { pending, kept, end: WaitEnd::Waiting }
    } else {
        let before = waiting(pending, kept, id, news.drop_last());
        match before.end {
            WaitEnd::Waiting => match route(before.pending, news.last()) {
                Routing::Ignore => before,
                Routing::Deliver(got, content) => if got == id {
                    Wait {
                        pending: without_answered(before.pending, news.last()),
                        kept: before.kept,
                        end: WaitEnd::Answered(content),
                    }
                } else {
                    Wait {
                        pending: without_answered(before.pending, news.last()),
                        kept: before.kept.push((got, content)),
                        end: WaitEnd::Waiting,
                    }
                },
                Routing::Reject(e) => Wait { end: WaitEnd::Broken(e), ..before },
            },
            _ => Wait { end: WaitEnd::Overrun, ..before },
        }
    }
}

/// Whether a wait that stands at `end` after `taken` messages, in a session
/// with the patience `patience`, comes back with `out`.
///
/// The answer comes back as it is, and so does the failure of a broken
/// session. A wait that still goes on comes back only when the session's
/// patience is used up, as unanswered, or when the transport fails, which it
/// is asked only while patience is left.
pub open spec fn ends_as(
    end: WaitEnd,
    taken: nat,
    patience: nat,
    out: Result<JsonRpcResult<Value>, ClientError>,
) -> bool {
    match out {
        Ok(result) => end == WaitEnd::Answered(result.content()),
        Err(ClientError::Wire(e)) => end == WaitEnd::Broken(e),
        Err(ClientError::Unanswered) => end == WaitEnd::Waiting && taken == patience,
        Err(ClientError::Transport(_)) => end == WaitEnd::Waiting && taken < patience,
        Err(_) => false,
    }
}

/// How often a wait that took `taken` messages and came back with `out`
/// asked the transport: once for each message, and once more where the
/// transport failed.
pub open spec fn asks(taken: nat, out: Result<JsonRpcResult<Value>, ClientError>) -> nat {
    if out matches Err(ClientError::Transport(_)) {
        taken + 1
    } else {
        taken
    }
}

/// The messages of a call behind one more message are the messages of the
/// call before it, and that message.
pub proof fn lemma_one_more(seen: Seq<Seq<char>>, text: Seq<char>, base: int)
    requires
        0 <= base <= seen.len(),
    ensures
        seen.push(text).skip(base) == seen.skip(base).push(text),
        seen.push(text).skip(base).drop_last() == seen.skip(base),
        seen.push(text).skip(base).last() == text,
{
    assert(seen.push(text).skip(base) =~= seen.skip(base).push(text));
    assert(seen.skip(base).push(text).drop_last() =~= seen.skip(base));
}

impl<IO: StringIO> Client<IO> {
    /// The identifier that the next request will get.
    pub closed spec fn next_id(&self) -> int {
        self.request_id_counter as int
    }

    /// The identifiers of the requests that wait for their answers, in the
    /// order in which they were sent.
    pub closed spec fn pending(&self) -> Seq<i64> {
        self.pending@
    }

    /// The responses that have come in and wait for their callers.
    pub closed spec fn ready(&self) -> Seq<(i64, Outcome)> {
        deliveries(self.ready@)
    }

    /// How many inbound messages one wait takes before it gives up.
    pub closed spec fn patience(&self) -> nat {
        self.patience as nat
    }

    /// Every message that the session has handed to the transport, as
    /// bytes, in the order of handing over.
    pub closed spec fn handed(&self) -> Seq<Seq<u8>> {
        self.handed@
    }

    /// Every message that the session has taken in, in the order of
    /// arrival.
    pub closed spec fn taken(&self) -> Seq<Seq<char>> {
        self.taken@
    }

    /// How often the session has asked the transport for a message.
    pub closed spec fn asked(&self) -> nat {
        self.asked@
    }

    /// Whether a response waits for the caller of `id`.
    pub open spec fn has_ready(&self, id: i64) -> bool {
        exists|k: int| 0 <= k < self.ready().len() && (#[trigger] self.ready()[k]).0 == id
    }

    /// The session's invariant: its identifiers are consistent, and every
    /// response that it keeps came in as a message.
    pub open spec fn wf(&self) -> bool {
        consistent(self.next_id(), self.pending(), self.ready()) && founded(
            self.ready(),
            self.taken(),
        )
    }

    /// A session over `io` that has sent nothing yet. Its patience is the
    /// largest there is.
    pub fn new(io: IO) -> (client: Self)
        ensures
            client.wf(),
            client.next_id() == 0,
            client.pending() == Seq::<i64>::empty(),
            client.ready() == Seq::<(i64, Outcome)>::empty(),
            client.patience() == usize::MAX,
            client.handed() == Seq::<Seq<u8>>::empty(),
            client.taken() == Seq::<Seq<char>>::empty(),
            client.asked() == 0,
    {
        let client = Self {
            io,
            request_id_counter: 0,
            pending: Vec::new(),
            ready: Vec::new(),
            patience: usize::MAX,
            handed: Ghost(Seq::empty()),
            taken: Ghost(Seq::empty()),
            asked: Ghost(0),
        };
        assert(client.ready() =~= Seq::<(i64, Outcome)>::empty());
        client
    }

    /// Sets how many inbound messages one wait takes before it gives up.
    pub fn set_patience(&mut self, patience: usize)
        ensures
            final(self).patience() == patience,
            final(self).next_id() == old(self).next_id(),
            final(self).pending() == old(self).pending(),
            final(self).ready() == old(self).ready(),
            final(self).handed() == old(self).handed(),
            final(self).taken() == old(self).taken(),
            final(self).asked() == old(self).asked(),
    {
        self.patience = patience;
    }

    /// The identifier that the next request will get.
    pub fn next_request_id(&self) -> (id: i64)
        ensures
            id == self.next_id(),
    {
        self.request_id_counter
    }

    /// Whether the request under `id` waits for its answer.
    pub fn is_pending(&self, id: i64) -> (waiting: bool)
        ensures
            waiting == self.pending().contains(id),
    {
        position_of(&self.pending, id).is_some()
    }

    /// Sends a request and returns at once, with the identifier under which
    /// the answer will come.
    ///
    /// Unless the identifiers have run out, the request for the method and
    /// the parameters under the next identifier is handed to the transport
    /// in its frame, once, and the identifier is spent. What comes back is
    /// the transport's answer: the identifier where it took the message, and
    /// then the request waits; its error where it did not.
    pub fn send_request(&mut self, method: &str, params: Option<Value>) -> (out: Result<
        i64,
        ClientError,
    >)
        requires
            old(self).wf(),
        ensures
            final(self).wf(),
            final(self).ready() == old(self).ready(),
            final(self).patience() == old(self).patience(),
            final(self).taken() == old(self).taken(),
            final(self).asked() == old(self).asked(),
            old(self).next_id() == i64::MAX <==> out matches Err(ClientError::Exhausted),
            match out {
                Ok(id) => id == old(self).next_id() && final(self).pending() == old(self).pending().push(id),
                Err(ClientError::Transport(_)) => final(self).pending() == old(self).pending(),
                Err(ClientError::Exhausted) => final(self).pending() == old(self).pending(),
                Err(_) => false,
            },
            if old(self).next_id() == i64::MAX {
                &&& final(self).next_id() == old(self).next_id()
                &&& final(self).handed() == old(self).handed()
            } else {
                &&& final(self).next_id() == old(self).next_id() + 1
                &&& final(self).handed() == old(self).handed().push(
                    frame_bytes(
                        encode_utf8(outgoing_request(method@, params, old(self).next_id())),
                        None,
                    ),
                )
            },
    {
        let id = self.request_id_counter;
        if id == i64::MAX {
            return Err(ClientError::Exhausted);
        }
        let message = match request_frame(method, params, id) {
            Ok(m) => m,
            Err(e) => {
                return Err(ClientError::Wire(e));
            },
        };
        self.request_id_counter = id + 1;
        self.handed = Ghost(self.handed@.push(encode_utf8(message@)));
        proof {
            lemma_issue_keeps(old(self).next_id(), old(self).pending(), old(self).ready());
        }
        match self.io.send(message.as_str()) {
            Ok(()) => {
                self.pending.push(id);
                Ok(id)
            },
            Err(e) => Err(ClientError::Transport(e)),
        }
    }

    /// Sends a notification: the notification for the method and the
    /// parameters is handed to the transport in its frame, once. What comes
    /// back is the transport's answer. No identifier is spent and nothing is
    /// waited on.
    pub fn notify(&mut self, method: &str, params: Option<Value>) -> (out: Result<(), ClientError>)
        ensures
            final(self).next_id() == old(self).next_id(),
            final(self).pending() == old(self).pending(),
            final(self).ready() == old(self).ready(),
            final(self).patience() == old(self).patience(),
            final(self).taken() == old(self).taken(),
            final(self).asked() == old(self).asked(),
            out is Ok || out matches Err(ClientError::Transport(_)),
            final(self).handed() == old(self).handed().push(
                frame_bytes(encode_utf8(outgoing_notification(method@, params)), None),
            ),
    {
        let message = match notification_frame(method, params) {
            Ok(m) => m,
            Err(e) => {
                return Err(ClientError::Wire(e));
            },
        };
        self.handed = Ghost(self.handed@.push(encode_utf8(message@)));
        match self.io.send(message.as_str()) {
            Ok(()) => Ok(()),
            Err(e) => Err(ClientError::Transport(e)),
        }
    }

    /// Takes one inbound message and decides what becomes of it, as `route`
    /// says. A response that is delivered takes its request off the waiting
    /// list: no later message is delivered under that identifier. Only the
    /// identifier of a waiting request is ever delivered, so every delivered
    /// identifier was handed out by this session.
    pub fn accept(&mut self, text: &str) -> (out: Result<Arrival, ClientError>)
        requires
            old(self).wf(),
        ensures
            final(self).wf(),
            final(self).next_id() == old(self).next_id(),
            final(self).ready() == old(self).ready(),
            final(self).patience() == old(self).patience(),
            final(self).handed() == old(self).handed(),
            final(self).asked() == old(self).asked(),
            final(self).taken() == old(self).taken().push(text@),
            final(self).pending() == without_answered(old(self).pending(), text@),
            match route(old(self).pending(), text@) {
                Routing::Ignore => out matches Ok(Arrival::Ignored),
                Routing::Deliver(id, content) => out matches Ok(
                    Arrival::Response { id: got, result },
                ) && got == id && result.content() == content && 0 <= id < old(self).next_id(),
                Routing::Reject(e) => out matches Err(ClientError::Wire(w)) && w == e,
            },
    {
        self.taken = Ghost(self.taken@.push(text@));
        proof {
            lemma_founded_grows(old(self).ready(), old(self).taken(), text@);
        }
        let doc = match parse_json(text) {
            Some(d) => d,
            None => {
                return Err(ClientError::Wire(WireError::Unreadable));
            },
        };
        if json_get(&doc, "method").is_some() {
            return Ok(Arrival::Ignored);
        }
        let id = match json_get(&doc, "id") {
            Some(m) => match m.as_i64() {
                Some(i) => i,
                None => {
                    return Ok(Arrival::Ignored);
                },
            },
            None => {
                return Ok(Arrival::Ignored);
            },
        };
        let k = match position_of(&self.pending, id) {
            Some(k) => k,
            None => {
                return Ok(Arrival::Ignored);
            },
        };
        match decode_response(&doc) {
            Ok(response) => {
                self.pending.remove(k);
                proof {
                    lemma_answer_keeps(
                        old(self).next_id(),
                        old(self).pending(),
                        old(self).ready(),
                        k as int,
                    );
                    lemma_place_is_unique(old(self).pending(), k as int);
                }
                Ok(Arrival::Response { id, result: response.result })
            },
            Err(e) => Err(ClientError::Wire(e)),
        }
    }

    /// Asks the transport for the next message, once, and decides what
    /// becomes of it. Where the transport fails, nothing else changes.
    /// Otherwise the message that it handed over is on record as the last
    /// one taken, and what comes out is what `accept` makes of that message.
    pub fn receive(&mut self) -> (out: Result<Arrival, ClientError>)
        requires
            old(self).wf(),
        ensures
            final(self).wf(),
            final(self).next_id() == old(self).next_id(),
            final(self).ready() == old(self).ready(),
            final(self).patience() == old(self).patience(),
            final(self).handed() == old(self).handed(),
            final(self).asked() == old(self).asked() + 1,
            match out {
                Err(ClientError::Transport(_)) => final(self).pending() == old(self).pending()
                    && final(self).taken() == old(self).taken(),
                _ => {
                    let text = final(self).taken().last();
                    &&& final(self).taken() == old(self).taken().push(text)
                    &&& final(self).pending() == without_answered(old(self).pending(), text)
                    &&& match route(old(self).pending(), text) {
                        Routing::Ignore => out matches Ok(Arrival::Ignored),
                        Routing::Deliver(id, content) => out matches Ok(
                            Arrival::Response { id: got, result },
                        ) && got == id && result.content() == content && 0 <= id < old(self).next_id(),
                        Routing::Reject(e) => out matches Err(ClientError::Wire(w)) && w == e,
                    }
                },
            },
    {
        self.asked = Ghost((self.asked@ + 1) as nat);
        let text = match self.io.recv() {
            Ok(t) => t,
            Err(e) => {
                return Err(ClientError::Transport(e));
            },
        };
        let out = self.accept(text.as_str());
        proof {
            assert(self.taken().last() == text@);
        }
        out
    }

    /// Hands out the response that was kept for the caller of `id`, if one
    /// was.
    pub fn take_ready(&mut self, id: i64) -> (out: Option<JsonRpcResult<Value>>)
        requires
            old(self).wf(),
        ensures
            final(self).wf(),
            final(self).next_id() == old(self).next_id(),
            final(self).pending() == old(self).pending(),
            final(self).patience() == old(self).patience(),
            final(self).handed() == old(self).handed(),
            final(self).taken() == old(self).taken(),
            final(self).asked() == old(self).asked(),
            !final(self).has_ready(id),
            match out {
                Some(result) => has_answer(old(self).taken(), id, result.content())
                    && exists|k: int|
                    0 <= k < old(self).ready().len() && old(self).ready()[k] == (
                        id,
                        result.content(),
                    ) && final(self).ready() == old(self).ready().remove(k),
                None => !old(self).has_ready(id) && final(self).ready() == old(self).ready(),
            },
    {
        let mut k: usize = 0;
        while k < self.ready.len()
            invariant
                k <= self.ready.len(),
                old(self).wf(),
                self.ready@ == old(self).ready@,
                self.pending@ == old(self).pending@,
                self.request_id_counter == old(self).request_id_counter,
                self.patience == old(self).patience,
                self.handed@ == old(self).handed@,
                self.taken@ == old(self).taken@,
                self.asked@ == old(self).asked@,
                forall|j: int| 0 <= j < k ==> (#[trigger] self.ready()[j]).0 != id,
            decreases self.ready.len() - k,
        {
            if self.ready[k].id == id {
                proof {
                    lemma_hand_out_keeps(
                        old(self).next_id(),
                        old(self).pending(),
                        old(self).ready(),
                        k as int,
                    );
                    lemma_founded_shrinks(old(self).ready(), old(self).taken(), k as int);
                }
                let delivery = self.ready.remove(k);
                assert(self.ready() =~= old(self).ready().remove(k as int));
                assert(old(self).ready()[k as int] == (id, delivery.result.content()));
                return Some(delivery.result);
            }
            k = k + 1;
        }
        None
    }

    /// Waits for the response to the request under `id`.
    ///
    /// A response that was kept for `id` is handed out at once. An
    /// identifier that neither waits nor has a response kept is refused at
    /// once. Otherwise messages are taken from the transport, one after the
    /// other, and each is dealt with as `waiting` says: the response to `id`
    /// ends the wait and is handed out; a message that breaks the session
    /// ends it with that failure; a response to another waiting request is
    /// kept for its caller; everything else is dropped, and the wait goes
    /// on. A wait that has not ended asks the transport again, unless the
    /// session's patience is used up, and ends with the transport's failure
    /// where the transport fails.
    pub fn wait(&mut self, id: i64) -> (out: Result<JsonRpcResult<Value>, ClientError>)
        requires
            old(self).wf(),
        ensures
            final(self).wf(),
            final(self).next_id() == old(self).next_id(),
            final(self).patience() == old(self).patience(),
            final(self).handed() == old(self).handed(),
            old(self).taken().is_prefix_of(final(self).taken()),
            if old(self).has_ready(id) {
                &&& out matches Ok(result)
                &&& final(self).pending() == old(self).pending()
                &&& final(self).taken() == old(self).taken()
                &&& final(self).asked() == old(self).asked()
                &&& exists|k: int|
                    0 <= k < old(self).ready().len() && old(self).ready()[k] == (
                        id,
                        result.content(),
                    ) && final(self).ready() == old(self).ready().remove(k)
            } else if !old(self).pending().contains(id) {
                &&& out matches Err(ClientError::NotPending)
                &&& final(self).pending() == old(self).pending()
                &&& final(self).ready() == old(self).ready()
                &&& final(self).taken() == old(self).taken()
                &&& final(self).asked() == old(self).asked()
            } else {
                let news = final(self).taken().skip(old(self).taken().len() as int);
                let end = waiting(old(self).pending(), old(self).ready(), id, news);
                &&& final(self).pending() == end.pending
                &&& final(self).ready() == end.kept
                &&& ends_as(end.end, news.len(), old(self).patience(), out)
                &&& final(self).asked() == old(self).asked() + asks(news.len(), out)
            },
            out matches Ok(result) ==> has_answer(final(self).taken(), id, result.content())
                && !final(self).pending().contains(id) && !final(self).has_ready(id),
            forall|x: i64| final(self).pending().contains(x) ==> old(self).pending().contains(x),
    {
        match self.take_ready(id) {
            Some(result) => {
                assert(old(self).taken().is_prefix_of(self.taken())) by {
                    assert(self.taken().subrange(0, old(self).taken().len() as int) =~= old(self).taken());
                }
                return Ok(result);
            },
            None => {},
        }
        if !self.is_pending(id) {
            assert(old(self).taken().is_prefix_of(self.taken())) by {
                assert(self.taken().subrange(0, old(self).taken().len() as int) =~= old(self).taken());
            }
            return Err(ClientError::NotPending);
        }
        let ghost base = old(self).taken().len() as int;
        let ghost waiters = old(self).pending();
        let ghost shelf = old(self).ready();
        let mut budget: usize = self.patience;
        proof {
            assert(self.taken().skip(base) =~= Seq::<Seq<char>>::empty());
        }
        loop
            invariant
                self.wf(),
                self.next_id() == old(self).next_id(),
                self.patience() == old(self).patience(),
                self.handed() == old(self).handed(),
                base == old(self).taken().len(),
                waiters == old(self).pending(),
                shelf == old(self).ready(),
                old(self).taken().is_prefix_of(self.taken()),
                self.taken().len() == base + (old(self).patience() - budget),
                self.asked() == old(self).asked() + (old(self).patience() - budget),
                budget <= old(self).patience(),
                waiting(waiters, shelf, id, self.taken().skip(base)) == (Wait {
                    pending: self.pending(),
                    kept: self.ready(),
                    end: WaitEnd::Waiting,
                }),
                forall|x: i64| self.pending().contains(x) ==> old(self).pending().contains(x),
                self.pending().contains(id),
                old(self).pending().contains(id),
                !self.has_ready(id),
                !old(self).has_ready(id),
            decreases budget,
        {
            if budget == 0 {
                return Err(ClientError::Unanswered);
            }
            budget = budget - 1;
            let ghost before = self.pending();
            let ghost kept = self.ready();
            let ghost seen = self.taken();
            match self.receive() {
                Err(ClientError::Transport(e)) => {
                    return Err(ClientError::Transport(e));
                },
                Err(e) => {
                    proof {
                        lemma_prefix_grows(old(self).taken(), seen, self.taken().last());
                        lemma_one_more(seen, self.taken().last(), base);
                    }
                    return Err(e);
                },
                Ok(Arrival::Ignored) => {
                    proof {
                        lemma_prefix_grows(old(self).taken(), seen, self.taken().last());
                        lemma_one_more(seen, self.taken().last(), base);
                    }
                },
                Ok(Arrival::Response { id: got, result }) => {
                    proof {
                        let text = self.taken().last();
                        lemma_prefix_grows(old(self).taken(), seen, text);
                        lemma_one_more(seen, text, base);
                        assert(before.contains(got));
                        let k = before.index_of(got);
                        lemma_answer_keeps(self.next_id(), before, kept, k);
                        lemma_more_taken(seen, text, got, result.content());
                    }
                    if got == id {
                        return Ok(result);
                    }
                    proof {
                        lemma_keep_keeps(
                            self.next_id(),
                            self.pending(),
                            kept,
                            got,
                            result.content(),
                        );
                        assert(deliveries(self.ready@.push(Delivery { id: got, result }))
                            =~= kept.push((got, result.content())));
                        lemma_founded_more(kept, self.taken(), got, result.content());
                    }
                    self.ready.push(Delivery { id: got, result });
                    proof {
                        assert(self.ready() == kept.push((got, result.content())));
                        if self.has_ready(id) {
                            let l = choose|l: int|
                                0 <= l < self.ready().len() && (#[trigger] self.ready()[l]).0 == id;
                            if l < kept.len() {
                                assert(kept[l].0 == id);
                            }
                        }
                    }
                },
            }
        }
    }

    /// Sends a request and waits for its response: `send_request`, then
    /// `wait` for the identifier that it returned.
    ///
    /// Unless the identifiers have run out, the request is handed to the
    /// transport once, under the next identifier. Where the transport did
    /// not take it, its failure comes back and it is asked for nothing.
    /// Where it took it, what comes back is what the wait for that
    /// identifier comes to, as `waiting` says of the messages that came in
    /// during this call.
    pub fn request(&mut self, method: &str, params: Option<Value>) -> (out: Result<
        JsonRpcResult<Value>,
        ClientError,
    >)
        requires
            old(self).wf(),
        ensures
            final(self).wf(),
            final(self).patience() == old(self).patience(),
            old(self).taken().is_prefix_of(final(self).taken()),
            if old(self).next_id() == i64::MAX {
                &&& out matches Err(ClientError::Exhausted)
                &&& final(self).next_id() == old(self).next_id()
                &&& final(self).handed() == old(self).handed()
                &&& final(self).pending() == old(self).pending()
                &&& final(self).ready() == old(self).ready()
                &&& final(self).taken() == old(self).taken()
                &&& final(self).asked() == old(self).asked()
            } else {
                let id = old(self).next_id() as i64;
                let news = final(self).taken().skip(old(self).taken().len() as int);
                let end = waiting(old(self).pending().push(id), old(self).ready(), id, news);
                &&& final(self).next_id() == old(self).next_id() + 1
                &&& final(self).handed() == old(self).handed().push(
                    frame_bytes(
                        encode_utf8(outgoing_request(method@, params, old(self).next_id())),
                        None,
                    ),
                )
                &&& {
                    ||| {
                        &&& out matches Err(ClientError::Transport(_))
                        &&& news.len() == 0
                        &&& final(self).pending() == old(self).pending()
                        &&& final(self).ready() == old(self).ready()
                        &&& final(self).asked() == old(self).asked()
                    }
                    ||| {
                        &&& final(self).pending() == end.pending
                        &&& final(self).ready() == end.kept
                        &&& ends_as(end.end, news.len(), old(self).patience(), out)
                        &&& final(self).asked() == old(self).asked() + asks(news.len(), out)
                    }
                }
            },
            out matches Ok(result) ==> has_answer(
                final(self).taken(),
                old(self).next_id() as i64,
                result.content(),
            ) && !final(self).pending().contains(old(self).next_id() as i64),
            forall|x: i64|
                final(self).pending().contains(x) ==> old(self).pending().contains(x) || x == old(self).next_id(),
    {
        let id = match self.send_request(method, params) {
            Ok(id) => id,
            Err(e) => {
                assert(old(self).taken().is_prefix_of(self.taken())) by {
                    assert(self.taken().subrange(0, old(self).taken().len() as int) =~= old(self).taken());
                }
                assert(self.taken().skip(old(self).taken().len() as int).len() == 0);
                return Err(e);
            },
        };
        proof {
            assert(self.pending().last() == id);
            assert(self.pending().contains(id));
            assert forall|x: i64| self.pending().contains(x) implies old(self).pending().contains(x)
                || x == id by {
                let j = choose|j: int| 0 <= j < self.pending().len() && self.pending()[j] == x;
                if j < old(self).pending().len() {
                    assert(old(self).pending()[j] == x);
                }
            }
            if self.has_ready(id) {
                let l = choose|l: int|
                    0 <= l < self.ready().len() && (#[trigger] self.ready()[l]).0 == id;
                assert(self.ready()[l].0 < old(self).next_id());
            }
        }
        self.wait(id)
    }
}

/// A response that is handed out leaves the others founded.
pub proof fn lemma_founded_shrinks(ready: Seq<(i64, Outcome)>, taken: Seq<Seq<char>>, k: int)
    requires
        founded(ready, taken),
        0 <= k < ready.len(),
    ensures
        founded(ready.remove(k), taken),
        has_answer(taken, ready[k].0, ready[k].1),
{
    let after = ready.remove(k);
    assert forall|l: int| 0 <= l < after.len() implies has_answer(
        taken,
        (#[trigger] after[l]).0,
        after[l].1,
    ) by {
        if l < k {
            assert(after[l] == ready[l]);
        } else {
            assert(after[l] == ready[l + 1]);
        }
    }
}

/// A response that came in as a message can be kept.
pub proof fn lemma_founded_more(
    ready: Seq<(i64, Outcome)>,
    taken: Seq<Seq<char>>,
    id: i64,
    content: Outcome,
)
    requires
        founded(ready, taken),
        has_answer(taken, id, content),
    ensures
        founded(ready.push((id, content)), taken),
{
    let more = ready.push((id, content));
    assert forall|l: int| 0 <= l < more.len() implies has_answer(
        taken,
        (#[trigger] more[l]).0,
        more[l].1,
    ) by {
        if l < ready.len() {
            assert(more[l] == ready[l]);
        }
    }
}

/// A record that starts with an earlier one still does when one more
/// message is behind it.
pub proof fn lemma_prefix_grows(earlier: Seq<Seq<char>>, seen: Seq<Seq<char>>, text: Seq<char>)
    requires
        earlier.is_prefix_of(seen),
    ensures
        earlier.is_prefix_of(seen.push(text)),
{
    assert(seen.push(text).subrange(0, earlier.len() as int) =~= seen.subrange(
        0,
        earlier.len() as int,
    ));
}

/// A wait ends at the last message that it takes, and not before: where it
/// has not overrun, it was still going on before every message that came in.
/// So the answer of a wait is the first message that answers it, and no
/// message is taken behind the one that ends it.
pub proof fn lemma_wait_ends_at_last(
    pending: Seq<i64>,
    kept: Seq<(i64, Outcome)>,
    id: i64,
    news: Seq<Seq<char>>,
)
    requires
        waiting(pending, kept, id, news).end != WaitEnd::Overrun,
    ensures
        forall|n: int|
            0 <= n < news.len() ==> (#[trigger] waiting(pending, kept, id, news.take(n))).end
                == WaitEnd::Waiting,
    decreases news.len(),
{
    if news.len() > 0 {
        let front = news.drop_last();
        lemma_wait_ends_at_last(pending, kept, id, front);
        assert forall|n: int| 0 <= n < news.len() implies (#[trigger] waiting(
            pending,
            kept,
            id,
            news.take(n),
        )).end == WaitEnd::Waiting by {
            if n == news.len() - 1 {
                assert(news.take(n) =~= front);
            } else {
                assert(news.take(n) =~= front.take(n));
            }
        }
    }
}

/// The answer of a wait is what its last message carries: that message has
/// no member `method`, the integer under its `id` is the identifier waited
/// for, and it reads as a response with the content that comes back.
pub proof fn lemma_wait_answer(
    pending: Seq<i64>,
    kept: Seq<(i64, Outcome)>,
    id: i64,
    news: Seq<Seq<char>>,
    content: Outcome,
)
    requires
        waiting(pending, kept, id, news).end == WaitEnd::Answered(content),
    ensures
        news.len() > 0,
        answers(news.last(), id, content),
        waiting(pending, kept, id, news.drop_last()).pending.contains(id),
        pending.no_duplicates() ==> !waiting(pending, kept, id, news).pending.contains(id),
{
    let before = waiting(pending, kept, id, news.drop_last());
    lemma_waiters_are_fewer(pending, kept, id, news.drop_last());
    let after = without_answered(before.pending, news.last());
    if pending.no_duplicates() && after.contains(id) {
        let k = before.pending.index_of(id);
        let j = choose|j: int| 0 <= j < after.len() && after[j] == id;
        if j < k {
            assert(before.pending[j] == id);
        } else {
            assert(before.pending[j + 1] == id);
        }
    }
}

/// A wait adds no request to the waiting list, and none twice.
pub proof fn lemma_waiters_are_fewer(
    pending: Seq<i64>,
    kept: Seq<(i64, Outcome)>,
    id: i64,
    news: Seq<Seq<char>>,
)
    ensures
        forall|x: i64|
            waiting(pending, kept, id, news).pending.contains(x) ==> pending.contains(x),
        pending.no_duplicates() ==> waiting(pending, kept, id, news).pending.no_duplicates(),
    decreases news.len(),
{
    if news.len() > 0 {
        lemma_waiters_are_fewer(pending, kept, id, news.drop_last());
        let before = waiting(pending, kept, id, news.drop_last());
        let after = without_answered(before.pending, news.last());
        match route(before.pending, news.last()) {
            Routing::Deliver(got, _) => {
                let k = before.pending.index_of(got);
                assert(before.pending.contains(got));
                assert forall|x: i64| after.contains(x) implies before.pending.contains(x) by {
                    let j = choose|j: int| 0 <= j < after.len() && after[j] == x;
                    if j < k {
                        assert(before.pending[j] == x);
                    } else {
                        assert(before.pending[j + 1] == x);
                    }
                }
                if before.pending.no_duplicates() {
                    assert forall|a: int, b: int| 0 <= a < b < after.len() implies after[a]
                        != after[b] by {
                        let a2 = if a < k { a } else { a + 1 };
                        let b2 = if b < k { b } else { b + 1 };
                        assert(after[a] == before.pending[a2]);
                        assert(after[b] == before.pending[b2]);
                    }
                }
            },
            _ => {},
        }
    }
}

/// One thing that happens to a session, as far as its identifiers go.
pub enum Happening {
    /// A request was handed to the transport, which took it.
    Sent,
    /// This message came in.
    Arrived(Seq<char>),
}

/// The identifiers of a session: the next one to hand out, and those of the
/// requests that wait.
pub struct Ledger {
    pub next: int,
    pub pending: Seq<i64>,
}

/// The waiting list without the request that a message answers.
pub open spec fn without_answered(pending: Seq<i64>, text: Seq<char>) -> Seq<i64> {
    match route(pending, text) {
        Routing::Deliver(id, _) => pending.remove(pending.index_of(id)),
        _ => pending,
    }
}

/// The ledger after one happening. Nothing is sent once the identifiers
/// have run out.
pub open spec fn ledger_after(ledger: Ledger, happening: Happening) -> Ledger {
    match happening {
        Happening::Sent => if ledger.next < i64::MAX {
            Ledger { next: ledger.next + 1, pending: ledger.pending.push(ledger.next as i64) }
        } else {
            ledger
        },
        Happening::Arrived(text) => Ledger {
            next: ledger.next,
            pending: without_answered(ledger.pending, text),
        },
    }
}

/// The ledger of a new session after a run of happenings.
pub open spec fn ledger_of(history: Seq<Happening>) -> Ledger
    decreases history.len(),
{
    if history.len() == 0 {
        Ledger { next: 0, pending: Seq::empty() }
    } else {
        ledger_after(ledger_of(history.drop_last()), history.last())
    }
}

/// The identifiers under which a run of happenings sent its requests, in
/// the order of sending.
pub open spec fn sent_ids(history: Seq<Happening>) -> Seq<int>
    decreases history.len(),
{
    if history.len() == 0 {
        Seq::empty()
    } else {
        match history.last() {
            Happening::Sent => if ledger_of(history.drop_last()).next < i64::MAX {
                sent_ids(history.drop_last()).push(ledger_of(history.drop_last()).next)
            } else {
                sent_ids(history.drop_last())
            },
            Happening::Arrived(_) => sent_ids(history.drop_last()),
        }
    }
}

/// The identifiers under which a run of happenings delivered responses, in
/// the order of delivery.
pub open spec fn delivered_ids(history: Seq<Happening>) -> Seq<i64>
    decreases history.len(),
{
    if history.len() == 0 {
        Seq::empty()
    } else {
        match history.last() {
            Happening::Sent => delivered_ids(history.drop_last()),
            Happening::Arrived(text) => match route(
                ledger_of(history.drop_last()).pending,
                text,
            ) {
                Routing::Deliver(id, _) => delivered_ids(history.drop_last()).push(id),
                _ => delivered_ids(history.drop_last()),
            },
        }
    }
}

/// Identifiers are handed out in order, starting at zero: the request sent
/// as the `k`-th gets the identifier `k`, whatever came in between. So the
/// identifiers of successive requests rise strictly.
pub proof fn lemma_ids_count_up(history: Seq<Happening>)
    ensures
        ledger_of(history).next == sent_ids(history).len(),
        0 <= ledger_of(history).next <= i64::MAX,
        forall|k: int| 0 <= k < sent_ids(history).len() ==> #[trigger] sent_ids(history)[k] == k,
        forall|i: int|
            0 <= i < ledger_of(history).pending.len() ==> 0 <= (#[trigger] ledger_of(
                history,
            ).pending[i]) < ledger_of(history).next,
    decreases history.len(),
{
    if history.len() > 0 {
        let before = history.drop_last();
        lemma_ids_count_up(before);
        let ledger = ledger_of(before);
        match history.last() {
            Happening::Sent => {
                if ledger.next < i64::MAX {
                    let after = ledger.pending.push(ledger.next as i64);
                    assert forall|i: int| 0 <= i < after.len() implies 0 <= #[trigger] after[i]
                        < ledger.next + 1 by {
                        if i < ledger.pending.len() {
                            assert(after[i] == ledger.pending[i]);
                        }
                    }
                }
            },
            Happening::Arrived(text) => {
                match route(ledger.pending, text) {
                    Routing::Deliver(id, _) => {
                        let k = ledger.pending.index_of(id);
                        assert(ledger.pending.contains(id));
                        let after = ledger.pending.remove(k);
                        assert forall|i: int| 0 <= i < after.len() implies 0 <= #[trigger] after[i]
                            < ledger.next by {
                            if i < k {
                                assert(after[i] == ledger.pending[i]);
                            } else {
                                assert(after[i] == ledger.pending[i + 1]);
                            }
                        }
                    },
                    _ => {},
                }
            },
        }
    }
}

/// No response is ever delivered under an identifier that was not handed
/// out before: every delivered identifier is that of a request sent earlier
/// in the run.
pub proof fn lemma_delivered_were_sent(history: Seq<Happening>)
    ensures
        forall|d: int|
            0 <= d < delivered_ids(history).len() ==> 0 <= #[trigger] delivered_ids(history)[d]
                < sent_ids(history).len(),
    decreases history.len(),
{
    if history.len() > 0 {
        let before = history.drop_last();
        lemma_delivered_were_sent(before);
        lemma_ids_count_up(before);
        let ledger = ledger_of(before);
        let earlier = delivered_ids(before);
        let now = delivered_ids(history);
        assert(sent_ids(before).len() <= sent_ids(history).len());
        assert forall|d: int| 0 <= d < now.len() implies 0 <= #[trigger] now[d] < sent_ids(
            history,
        ).len() by {
            if d < earlier.len() {
                assert(now[d] == earlier[d]);
            } else {
                match history.last() {
                    Happening::Sent => {},
                    Happening::Arrived(text) => {
                        match route(ledger.pending, text) {
                            Routing::Deliver(id, _) => {
                                assert(ledger.pending.contains(id));
                                let k = choose|k: int|
                                    0 <= k < ledger.pending.len() && ledger.pending[k] == id;
                                assert(0 <= ledger.pending[k] < ledger.next);
                            },
                            _ => {},
                        }
                    },
                }
            }
        }
    }
}

/// A message is delivered only as the response that it is, and only to the
/// request that it answers: it has no member `method`, the integer under
/// its `id` is the identifier it is delivered under, a request waits under
/// that identifier, and what is delivered is what the message carries. A
/// message with a member `method`, which is a notification or a request of
/// the server's, is never delivered to anyone.
pub proof fn lemma_delivery_matches(pending: Seq<i64>, text: Seq<char>)
    ensures
        match route(pending, text) {
            Routing::Deliver(id, content) => {
                &&& json_parsed(text) matches Some(doc)
                &&& json_member(doc, "method"@) is None
                &&& json_member(doc, "id"@) matches Some(t)
                &&& json_integer(t) == Some(id)
                &&& pending.contains(id)
                &&& read_response(doc) matches Some(response)
                &&& response.result == content
            },
            _ => true,
        },
        json_parsed(text) matches Some(doc) && json_member(doc, "method"@) is Some ==> route(
            pending,
            text,
        ) == Routing::Ignore,
{
}

/// A request is answered once: after a response has been delivered under an
/// identifier, no later message is delivered under it, unless a request has
/// been sent under it again, which never happens.
pub proof fn lemma_answered_once(pending: Seq<i64>, first: Seq<char>, second: Seq<char>)
    requires
        forall|i: int, j: int| 0 <= i < j < pending.len() ==> pending[i] != pending[j],
    ensures
        route(pending, first) matches Routing::Deliver(id, _) ==> !(route(
            without_answered(pending, first),
            second,
        ) matches Routing::Deliver(again, _) && again == id),
{
    match route(pending, first) {
        Routing::Deliver(id, _) => {
            assert(pending.contains(id));
            let k = pending.index_of(id);
            let after = pending.remove(k);
            if after.contains(id) {
                let j = choose|j: int| 0 <= j < after.len() && after[j] == id;
                if j < k {
                    assert(pending[j] == id);
                } else {
                    assert(pending[j + 1] == id);
                }
            }
        },
        _ => {},
    }
}

} // verus!
