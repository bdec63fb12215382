//! The frame codec: a message body on the wire is preceded by a block of
//! header lines that declares its length in bytes, and a blank line.
//!
//! The body is delimited by the declared length alone. Nothing in the body is
//! ever inspected to find its end.
//!
//! The codec works on bytes. For a transport that carries text, `frame_text`
//! writes the same frame as text.

use crate::decimal::{
    digit_chars, is_digit, is_numeral, lemma_numeral_round_trip, lemma_numeral_text, numeral_of,
    numeral_value, parse_decimal, render_decimal, render_natural,
};
use crate::text::lemma_encoding_of_concat;
use vstd::prelude::*;
use vstd::string::{StringExecFns, StringSliceAdditionalSpecFns};
use vstd::utf8::{encode_utf8, is_ascii_chars_encode_utf8};

verus! {

/// Why a stream of bytes could not be decoded.
#[derive(Clone, Copy, Debug, PartialEq, Eq, Structural)]
pub enum FrameError {
    /// The declared length is not a decimal number that fits the machine.
    InvalidLength,
    /// A header line is neither a length, a type in its place, nor blank.
    MalformedHeader,
    /// The stream ended before the declared number of bytes had arrived.
    TruncatedBody,
}

/// One decoded message.
#[derive(Debug)]
pub struct Frame {
    pub body: Vec<u8>,
    pub content_type: Option<Vec<u8>>,
}

/// ASCII whitespace: space, tab, line feed, form feed, carriage return.
pub open spec fn is_space(b: u8) -> bool {
    b == 32 || b == 9 || b == 10 || b == 12 || b == 13
}

/// The bytes `Content-Length:`.
pub open spec fn length_key() -> Seq<u8> {
    seq![67u8, 111, 110, 116, 101, 110, 116, 45, 76, 101, 110, 103, 116, 104, 58]
}

/// The bytes `Content-Type:`.
pub open spec fn type_key() -> Seq<u8> {
    seq![67u8, 111, 110, 116, 101, 110, 116, 45, 84, 121, 112, 101, 58]
}

/// How many bytes of whitespace `s` starts with.
pub open spec fn space_run(s: Seq<u8>) -> nat
    decreases s.len(),
{
    if s.len() > 0 && is_space(s[0]) {
        1 + space_run(s.drop_first())
    } else {
        0
    }
}

/// How many bytes other than whitespace `s` starts with.
pub open spec fn word_run(s: Seq<u8>) -> nat
    decreases s.len(),
{
    if s.len() > 0 && !is_space(s[0]) {
        1 + word_run(s.drop_first())
    } else {
        0
    }
}

/// The words of a line: its maximal runs of bytes other than whitespace.
pub open spec fn words(s: Seq<u8>) -> Seq<Seq<u8>>
    decreases s.len(),
{
    let t = s.skip(space_run(s) as int);
    let k = word_run(t) as int;
    if k == 0 {
        Seq::empty()
    } else {
        proof {
            lemma_space_run_bound(s);
            lemma_word_run_bound(t);
        }
        seq![t.take(k)] + words(t.skip(k))
    }
}

/// A word: at least one byte, none of them whitespace.
pub open spec fn is_word(w: Seq<u8>) -> bool {
    w.len() > 0 && forall|i: int| 0 <= i < w.len() ==> !is_space(#[trigger] w[i])
}

/// A run of whitespace stays within the line, is whitespace throughout, and
/// ends before a byte that is none.
pub proof fn lemma_space_run_bound(s: Seq<u8>)
    ensures
        space_run(s) <= s.len(),
        forall|i: int| 0 <= i < space_run(s) ==> is_space(#[trigger] s[i]),
        space_run(s) < s.len() ==> !is_space(s[space_run(s) as int]),
    decreases s.len(),
{
    if s.len() > 0 && is_space(s[0]) {
        let t = s.drop_first();
        lemma_space_run_bound(t);
        assert forall|i: int| 0 <= i < space_run(s) implies is_space(#[trigger] s[i]) by {
            if i > 0 {
                assert(s[i] == t[i - 1]);
            }
        }
        if space_run(s) < s.len() {
            assert(s[space_run(s) as int] == t[space_run(t) as int]);
        }
    }
}

/// A run of other bytes stays within the line, holds no whitespace, and ends
/// before a byte that is whitespace.
pub proof fn lemma_word_run_bound(s: Seq<u8>)
    ensures
        word_run(s) <= s.len(),
        forall|i: int| 0 <= i < word_run(s) ==> !is_space(#[trigger] s[i]),
        word_run(s) < s.len() ==> is_space(s[word_run(s) as int]),
    decreases s.len(),
{
    if s.len() > 0 && !is_space(s[0]) {
        let t = s.drop_first();
        lemma_word_run_bound(t);
        assert forall|i: int| 0 <= i < word_run(s) implies !is_space(#[trigger] s[i]) by {
            if i > 0 {
                assert(s[i] == t[i - 1]);
            }
        }
        if word_run(s) < s.len() {
            assert(s[word_run(s) as int] == t[word_run(t) as int]);
        }
    }
}

/// A run of whitespace is as long as the distance to the first other byte.
pub proof fn lemma_space_run_is(s: Seq<u8>, k: int)
    requires
        0 <= k <= s.len(),
        forall|i: int| 0 <= i < k ==> is_space(#[trigger] s[i]),
        k < s.len() ==> !is_space(s[k]),
    ensures
        space_run(s) == k,
    decreases k,
{
    if k > 0 {
        let t = s.drop_first();
        assert(is_space(s[0]));
        assert forall|i: int| 0 <= i < k - 1 implies is_space(#[trigger] t[i]) by {
            assert(t[i] == s[i + 1]);
        }
        lemma_space_run_is(t, k - 1);
    }
}

/// A run of other bytes is as long as the distance to the first whitespace.
pub proof fn lemma_word_run_is(s: Seq<u8>, k: int)
    requires
        0 <= k <= s.len(),
        forall|i: int| 0 <= i < k ==> !is_space(#[trigger] s[i]),
        k < s.len() ==> is_space(s[k]),
    ensures
        word_run(s) == k,
    decreases k,
{
    if k > 0 {
        let t = s.drop_first();
        assert(!is_space(s[0]));
        assert forall|i: int| 0 <= i < k - 1 implies !is_space(#[trigger] t[i]) by {
            assert(t[i] == s[i + 1]);
        }
        lemma_word_run_is(t, k - 1);
    }
}

/// Whitespace in front of a line does not change its words.
pub proof fn lemma_words_after_space(pad: Seq<u8>, rest: Seq<u8>)
    requires
        forall|i: int| 0 <= i < pad.len() ==> is_space(#[trigger] pad[i]),
    ensures
        words(pad + rest) == words(rest),
{
    let s = pad + rest;
    lemma_space_run_bound(rest);
    let k: int = (pad.len() + space_run(rest)) as int;
    assert forall|i: int| 0 <= i < k implies is_space(#[trigger] s[i]) by {
        if i >= pad.len() {
            assert(s[i] == rest[i - pad.len()]);
        }
    }
    if k < s.len() {
        assert(s[k] == rest[space_run(rest) as int]);
    }
    lemma_space_run_is(s, k);
    assert(s.skip(k) =~= rest.skip(space_run(rest) as int));
}

/// A word followed by whitespace, or by nothing, is the first word of the line.
pub proof fn lemma_words_after_word(w: Seq<u8>, rest: Seq<u8>)
    requires
        is_word(w),
        rest.len() > 0 ==> is_space(rest[0]),
    ensures
        words(w + rest) == seq![w] + words(rest),
{
    let s = w + rest;
    assert(!is_space(s[0])) by {
        assert(s[0] == w[0]);
    }
    assert(space_run(s) == 0);
    assert(s.skip(0) =~= s);
    assert forall|i: int| 0 <= i < w.len() implies !is_space(#[trigger] s[i]) by {
        assert(s[i] == w[i]);
    }
    if w.len() < s.len() {
        assert(s[w.len() as int] == rest[0]);
    }
    lemma_word_run_is(s, w.len() as int);
    assert(s.take(w.len() as int) =~= w);
    assert(s.skip(w.len() as int) =~= rest);
}

/// What the header lines read so far have declared.
pub struct HeaderState {
    pub length: Option<usize>,
    pub content_type: Option<Seq<u8>>,
}

/// What one header line leads to.
pub enum Advance {
    /// The line declared something; more header lines follow.
    More(HeaderState),
    /// The blank line after a declared length: the body follows.
    Body(HeaderState),
    /// A blank line where nothing was declared: the peer is done.
    Shutdown,
    /// The line cannot stand where it stands.
    Failed(FrameError),
}

/// The state in which no header line has been read.
pub open spec fn no_header() -> HeaderState {
    HeaderState { length: None, content_type: None }
}

/// The effect of one header line. The length comes first and once, the type
/// after it and at most once; a blank line ends the block.
pub open spec fn advance(st: HeaderState, line: Seq<u8>) -> Advance {
    let w = words(line);
    if w.len() == 2 && w[0] == length_key() && st.length is None && st.content_type is None {
        if is_numeral(w[1]) && numeral_value(w[1]) <= usize::MAX {
            Advance::More(
                HeaderState { length: Some(numeral_value(w[1]) as usize), content_type: None },
            )
        } else {
            Advance::Failed(FrameError::InvalidLength)
        }
    } else if w.len() == 2 && w[0] == type_key() && st.length is Some && st.content_type is None {
        Advance::More(HeaderState { length: st.length, content_type: Some(w[1]) })
    } else if w.len() == 0 && st.length is Some {
        Advance::Body(st)
    } else if w.len() == 0 && st.length is None && st.content_type is None {
        Advance::Shutdown
    } else {
        Advance::Failed(FrameError::MalformedHeader)
    }
}

/// Whether two runs of bytes are the same.
fn bytes_equal(a: &[u8], b: &[u8]) -> (same: bool)
    ensures
        same == (a@ == b@),
{
    if a.len() != b.len() {
        return false;
    }
    let mut i: usize = 0;
    while i < a.len()
        invariant
            i <= a.len(),
            a.len() == b.len(),
            forall|j: int| 0 <= j < i ==> a@[j] == b@[j],
        decreases a.len() - i,
    {
        if a[i] != b[i] {
            return false;
        }
        i = i + 1;
    }
    assert(a@ =~= b@);
    true
}

/// A copy of the bytes of `s` from `from` up to `to`.
fn copy_range(s: &[u8], from: usize, to: usize) -> (out: Vec<u8>)
    requires
        from <= to <= s.len(),
    ensures
        out@ == s@.subrange(from as int, to as int),
{
    let mut out: Vec<u8> = Vec::new();
    let mut i: usize = from;
    while i < to
        invariant
            from <= i <= to <= s.len(),
            out@ == s@.subrange(from as int, i as int),
        decreases to - i,
    {
        out.push(s[i]);
        i = i + 1;
        assert(out@ =~= s@.subrange(from as int, i as int));
    }
    out
}

/// Whether `b` is ASCII whitespace.
fn byte_is_space(b: u8) -> (r: bool)
    ensures
        r == is_space(b),
{
    b == 32 || b == 9 || b == 10 || b == 12 || b == 13
}

/// The views of a vector of byte vectors, one by one.
pub open spec fn views(v: Seq<Vec<u8>>) -> Seq<Seq<u8>> {
    v.map_values(|w: Vec<u8>| w@)
}

/// Splits a line into its words.
pub fn split_words(line: &[u8]) -> (out: Vec<Vec<u8>>)
    ensures
        views(out@) == words(line@),
{
    let mut out: Vec<Vec<u8>> = Vec::new();
    let mut pos: usize = 0;
    assert(line@.skip(0) =~= line@);
    assert(views(out@) =~= Seq::<Seq<u8>>::empty());
    loop
        invariant_except_break
            pos <= line.len(),
            words(line@) == views(out@) + words(line@.skip(pos as int)),
        ensures
            views(out@) == words(line@),
        decreases line.len() - pos,
    {
        let ghost rest = line@.skip(pos as int);
        let mut start: usize = pos;
        while start < line.len() && byte_is_space(line[start])
            invariant
                pos <= start <= line.len(),
                forall|j: int| pos <= j < start ==> is_space(#[trigger] line@[j]),
            decreases line.len() - start,
        {
            start = start + 1;
        }
        let mut end: usize = start;
        while end < line.len() && !byte_is_space(line[end])
            invariant
                start <= end <= line.len(),
                forall|j: int| start <= j < end ==> !is_space(#[trigger] line@[j]),
            decreases line.len() - end,
        {
            end = end + 1;
        }
        proof {
            assert forall|i: int| 0 <= i < start - pos implies is_space(#[trigger] rest[i]) by {
                assert(rest[i] == line@[pos + i]);
            }
            lemma_space_run_is(rest, start - pos);
            let t = rest.skip(start - pos);
            assert(t =~= line@.skip(start as int));
            assert forall|i: int| 0 <= i < end - start implies !is_space(#[trigger] t[i]) by {
                assert(t[i] == line@[start + i]);
            }
            lemma_word_run_is(t, end - start);
            assert(t.take(end - start) =~= line@.subrange(start as int, end as int));
            assert(t.skip(end - start) =~= line@.skip(end as int));
        }
        if end == start {
            assert(views(out@) + Seq::<Seq<u8>>::empty() =~= views(out@));
            break;
        }
        let word = copy_range(line, start, end);
        proof {
            assert(views(out@.push(word)) =~= views(out@) + seq![word@]);
            assert((views(out@) + seq![word@]) + words(line@.skip(end as int)) =~= views(out@) + (
            seq![word@] + words(line@.skip(end as int))));
        }
        out.push(word);
        pos = end;
    }
    out
}

/// What a header line asks the reader of the stream to do next.
#[derive(Clone, Copy, Debug, PartialEq, Eq, Structural)]
pub enum HeaderStep {
    /// Read another header line.
    More,
    /// Read exactly this many bytes: they are the body.
    Body(usize),
    /// Stop reading: the peer has shut down in good order.
    Shutdown,
    /// Stop reading: the stream is broken.
    Failed(FrameError),
}

/// The decoder of one stream. It is fed the header lines as they arrive and
/// says after each what to read next; when it has asked for a body, it is fed
/// the bytes that were read and hands out the message.
pub struct Decoder {
    content_length: Option<usize>,
    content_type: Option<Vec<u8>>,
}

/// The bytes `Content-Length:`.
fn length_key_bytes() -> (key: Vec<u8>)
    ensures
        key@ == length_key(),
{
    let key: Vec<u8> = vec![67u8, 111, 110, 116, 101, 110, 116, 45, 76, 101, 110, 103, 116, 104, 58];
    assert(key@ =~= length_key());
    key
}

/// The bytes `Content-Type:`.
fn type_key_bytes() -> (key: Vec<u8>)
    ensures
        key@ == type_key(),
{
    let key: Vec<u8> = vec![67u8, 111, 110, 116, 101, 110, 116, 45, 84, 121, 112, 101, 58];
    assert(key@ =~= type_key());
    key
}

impl Decoder {
    /// What the header lines fed so far have declared.
    pub closed spec fn state(&self) -> HeaderState {
        HeaderState {
            length: self.content_length,
            content_type: match self.content_type {
                Some(t) => Some(t@),
                None => None,
            },
        }
    }

    /// A decoder at the start of a header block.
    pub fn new() -> (decoder: Decoder)
        ensures
            decoder.state() == no_header(),
    {
        Decoder { content_length: None, content_type: None }
    }

    /// Takes one header line, with or without its line ending, and says what
    /// to read next. After a shutdown or a failure the decoder is back at the
    /// start of a header block.
    pub fn header_line(&mut self, line: &[u8]) -> (step: HeaderStep)
        ensures
            match advance(old(self).state(), line@) {
                Advance::More(st) => step == HeaderStep::More && final(self).state() == st,
                Advance::Body(st) => step == HeaderStep::Body(st.length.unwrap())
                    && final(self).state() == st,
                Advance::Shutdown => step == HeaderStep::Shutdown && final(self).state()
                    == no_header(),
                Advance::Failed(e) => step == HeaderStep::Failed(e) && final(self).state()
                    == no_header(),
            },
    {
        let w = split_words(line);
        let ghost ws = words(line@);
        assert(w@.len() == ws.len());
        if w.len() == 2 {
            assert(w@[0]@ == ws[0] && w@[1]@ == ws[1]);
            let key = length_key_bytes();
            let other = type_key_bytes();
            if bytes_equal(w[0].as_slice(), key.as_slice()) && self.content_length.is_none()
                && self.content_type.is_none() {
                match parse_decimal(w[1].as_slice()) {
                    Some(n) => {
                        if n <= usize::MAX as u64 {
                            self.content_length = Some(n as usize);
                            return HeaderStep::More;
                        }
                    },
                    None => {},
                }
                self.content_length = None;
                self.content_type = None;
                return HeaderStep::Failed(FrameError::InvalidLength);
            }
            if bytes_equal(w[0].as_slice(), other.as_slice()) && self.content_length.is_some()
                && self.content_type.is_none() {
                let mut w = w;
                let token = w.pop().unwrap();
                self.content_type = Some(token);
                return HeaderStep::More;
            }
        } else if w.len() == 0 {
            match self.content_length {
                Some(n) => {
                    return HeaderStep::Body(n);
                },
                None => {
                    if self.content_type.is_none() {
                        return HeaderStep::Shutdown;
                    }
                },
            }
        }
        self.content_length = None;
        self.content_type = None;
        HeaderStep::Failed(FrameError::MalformedHeader)
    }

    /// Takes the bytes that were read for the body and hands out the message.
    /// Fewer or more bytes than were asked for mean that the stream ended
    /// early. Either way the decoder is back at the start of a header block.
    pub fn body(&mut self, bytes: Vec<u8>) -> (out: Result<Frame, FrameError>)
        ensures
            final(self).state() == no_header(),
            match out {
                Ok(frame) => old(self).state().length == Some(bytes@.len() as usize)
                    && bytes@.len() <= usize::MAX && frame.body@ == bytes@ && frame.type_view()
                    == old(self).state().content_type,
                Err(e) => e == FrameError::TruncatedBody && old(self).state().length != Some(
                    bytes@.len() as usize,
                ),
            },
    {
        let declared = self.content_length;
        self.content_length = None;
        let mut content_type: Option<Vec<u8>> = None;
        std::mem::swap(&mut self.content_type, &mut content_type);
        match declared {
            Some(n) => {
                if bytes.len() == n {
                    return Ok(Frame { body: bytes, content_type });
                }
            },
            None => {},
        }
        Err(FrameError::TruncatedBody)
    }
}

impl Frame {
    /// The declared content type, as bytes.
    pub open spec fn type_view(&self) -> Option<Seq<u8>> {
        match self.content_type {
            Some(t) => Some(t@),
            None => None,
        }
    }
}

/// The end of a header line: carriage return, line feed.
pub open spec fn line_end() -> Seq<u8> {
    seq![13u8, 10u8]
}

/// The header block of a message: the length of the body, the content type
/// where one is given, and the blank line.
pub open spec fn header_bytes(length: nat, content_type: Option<Seq<u8>>) -> Seq<u8> {
    let first = length_key() + seq![32u8] + numeral_of(length) + line_end();
    let second = match content_type {
        Some(t) => type_key() + seq![32u8] + t + line_end(),
        None => Seq::empty(),
    };
    first + second + line_end()
}

/// A message as it stands on the wire: the header block, then the body.
pub open spec fn frame_bytes(body: Seq<u8>, content_type: Option<Seq<u8>>) -> Seq<u8> {
    header_bytes(body.len(), content_type) + body
}

/// Writes the header block for a body of `length` bytes.
pub fn encode_header(length: usize, content_type: Option<&[u8]>) -> (out: Vec<u8>)
    ensures
        out@ == header_bytes(
            length as nat,
            match content_type {
                Some(t) => Some(t@),
                None => None,
            },
        ),
{
    let mut out = length_key_bytes();
    out.push(32u8);
    let digits = render_decimal(length as u64);
    out.extend_from_slice(digits.as_slice());
    out.push(13u8);
    out.push(10u8);
    let ghost first = out@;
    assert(first =~= length_key() + seq![32u8] + numeral_of(length as nat) + line_end());
    match content_type {
        Some(t) => {
            let key = type_key_bytes();
            out.extend_from_slice(key.as_slice());
            out.push(32u8);
            out.extend_from_slice(t);
            out.push(13u8);
            out.push(10u8);
            assert(out@ =~= first + (type_key() + seq![32u8] + t@ + line_end()));
        },
        None => {
            assert(out@ =~= first + Seq::<u8>::empty());
        },
    }
    let ghost both = out@;
    out.push(13u8);
    out.push(10u8);
    assert(out@ =~= both + line_end());
    out
}

/// Writes a message as it stands on the wire.
pub fn encode_frame(body: &[u8], content_type: Option<&[u8]>) -> (out: Vec<u8>)
    ensures
        out@ == frame_bytes(
            body@,
            match content_type {
                Some(t) => Some(t@),
                None => None,
            },
        ),
{
    let mut out = encode_header(body.len(), content_type);
    out.extend_from_slice(body);
    out
}

/// The length of the first line of `s`, its line feed included; the length
/// of `s` where it holds no line feed.
pub open spec fn first_line_len(s: Seq<u8>) -> nat
    decreases s.len(),
{
    if s.len() == 0 {
        0
    } else if s[0] == 10 {
        1
    } else {
        1 + first_line_len(s.drop_first())
    }
}

/// What the front of a stream decodes to.
pub enum Decoding {
    /// A message, and the number of bytes of the stream that it took.
    Message { body: Seq<u8>, content_type: Option<Seq<u8>>, consumed: nat },
    /// The peer has shut down in good order.
    Shutdown,
    /// The stream is broken.
    Failed(FrameError),
}

/// The same outcome, seen from `n` bytes further to the front.
pub open spec fn shifted(d: Decoding, n: nat) -> Decoding {
    match d {
        Decoding::Message { body, content_type, consumed } => Decoding::Message {
            body,
            content_type,
            consumed: consumed + n,
        },
        other => other,
    }
}

/// Decodes the front of a stream whose header lines so far have left the
/// state `st`. The end of the stream reads as a blank line.
pub open spec fn decode_from(input: Seq<u8>, st: HeaderState) -> Decoding
    decreases input.len(),
{
    let n = first_line_len(input);
    match advance(st, input.take(n as int)) {
        Advance::More(next) => {
            if 0 < n <= input.len() {
                shifted(decode_from(input.skip(n as int), next), n)
            } else {
                Decoding::Failed(FrameError::MalformedHeader)
            }
        },
        Advance::Body(next) => {
            let length = next.length.unwrap() as nat;
            if n + length <= input.len() {
                Decoding::Message {
                    body: input.subrange(n as int, (n + length) as int),
                    content_type: next.content_type,
                    consumed: n + length,
                }
            } else {
                Decoding::Failed(FrameError::TruncatedBody)
            }
        },
        Advance::Shutdown => Decoding::Shutdown,
        Advance::Failed(e) => Decoding::Failed(e),
    }
}

/// What the front of a stream decodes to.
pub open spec fn decode(input: Seq<u8>) -> Decoding {
    decode_from(input, no_header())
}

/// What `decode_frame` found at the front of a buffer.
#[derive(Debug)]
pub enum Decoded {
    /// A message, and the number of bytes of the buffer that it took.
    Message { frame: Frame, consumed: usize },
    /// The peer has shut down in good order.
    Shutdown,
}

impl Decoded {
    /// The outcome that this value stands for.
    pub open spec fn view(&self) -> Decoding {
        match *self {
            Decoded::Message { frame, consumed } => Decoding::Message {
                body: frame.body@,
                content_type: frame.type_view(),
                consumed: consumed as nat,
            },
            Decoded::Shutdown => Decoding::Shutdown,
        }
    }
}

/// The first line ends at the first line feed.
pub proof fn lemma_first_line_len_is(s: Seq<u8>, k: int)
    requires
        0 <= k <= s.len(),
        forall|i: int| 0 <= i < k ==> #[trigger] s[i] != 10,
        k < s.len() ==> s[k] == 10,
    ensures
        first_line_len(s) == (if k < s.len() {
            k + 1
        } else {
            k
        }),
    decreases k,
{
    if k > 0 {
        let t = s.drop_first();
        assert(s[0] != 10);
        assert forall|i: int| 0 <= i < k - 1 implies #[trigger] t[i] != 10 by {
            assert(t[i] == s[i + 1]);
        }
        if k < s.len() {
            assert(t[k - 1] == s[k]);
        }
        lemma_first_line_len_is(t, k - 1);
    }
}

/// Decodes the message at the front of `input`.
pub fn decode_frame(input: &[u8]) -> (out: Result<Decoded, FrameError>)
    ensures
        match out {
            Ok(d) => d@ == decode(input@),
            Err(e) => decode(input@) == Decoding::Failed(e),
        },
{
    let mut decoder = Decoder::new();
    let mut pos: usize = 0;
    assert(input@.skip(0) =~= input@);
    loop
        invariant
            pos <= input.len(),
            decode(input@) == shifted(
                decode_from(input@.skip(pos as int), decoder.state()),
                pos as nat,
            ),
        decreases input.len() - pos,
    {
        let ghost rest = input@.skip(pos as int);
        let mut end: usize = pos;
        while end < input.len() && input[end] != 10
            invariant
                pos <= end <= input.len(),
                forall|j: int| pos <= j < end ==> #[trigger] input@[j] != 10,
            decreases input.len() - end,
        {
            end = end + 1;
        }
        let stop: usize = if end < input.len() {
            end + 1
        } else {
            end
        };
        proof {
            assert forall|i: int| 0 <= i < end - pos implies #[trigger] rest[i] != 10 by {
                assert(rest[i] == input@[pos + i]);
            }
            if end < input.len() {
                assert(rest[end - pos] == input@[end as int]);
            }
            lemma_first_line_len_is(rest, end - pos);
            assert(first_line_len(rest) == stop - pos);
            assert(rest.take(stop - pos) =~= input@.subrange(pos as int, stop as int));
            assert(rest.skip(stop - pos) =~= input@.skip(stop as int));
        }
        let line = copy_range(input, pos, stop);
        match decoder.header_line(line.as_slice()) {
            HeaderStep::More => {
                if stop == pos {
                    return Err(FrameError::MalformedHeader);
                }
                proof {
                    let inner = decode_from(input@.skip(stop as int), decoder.state());
                    assert(shifted(shifted(inner, (stop - pos) as nat), pos as nat) == shifted(
                        inner,
                        stop as nat,
                    ));
                }
                pos = stop;
            },
            HeaderStep::Body(length) => {
                if length > input.len() - stop {
                    return Err(FrameError::TruncatedBody);
                }
                let bytes = copy_range(input, stop, stop + length);
                assert(bytes@ =~= rest.subrange(stop - pos, stop - pos + length));
                match decoder.body(bytes) {
                    Ok(frame) => {
                        return Ok(Decoded::Message { frame, consumed: stop + length });
                    },
                    Err(e) => {
                        return Err(e);
                    },
                }
            },
            HeaderStep::Shutdown => {
                return Ok(Decoded::Shutdown);
            },
            HeaderStep::Failed(e) => {
                return Err(e);
            },
        }
    }
}

/// A header line made of a key, one space, a word and the line ending reads
/// back as the key and the word, and it is the first line of whatever it
/// stands in front of.
pub proof fn lemma_header_line(key: Seq<u8>, word: Seq<u8>, rest: Seq<u8>)
    requires
        is_word(key),
        is_word(word),
        forall|i: int| 0 <= i < key.len() ==> #[trigger] key[i] != 10,
        forall|i: int| 0 <= i < word.len() ==> #[trigger] word[i] != 10,
    ensures
        words(key + seq![32u8] + word + line_end()) == seq![key, word],
        first_line_len(key + seq![32u8] + word + line_end() + rest) == key.len() + word.len() + 3,
{
    let line = key + seq![32u8] + word + line_end();
    let tail = seq![32u8] + (word + line_end());
    assert(line =~= key + tail);
    lemma_words_after_word(key, tail);
    lemma_words_after_space(seq![32u8], word + line_end());
    lemma_words_after_word(word, line_end());
    lemma_blank_line();
    assert(seq![key] + (seq![word] + Seq::<Seq<u8>>::empty()) =~= seq![key, word]);
    let all = line + rest;
    let k: int = (key.len() + word.len() + 2) as int;
    assert forall|i: int| 0 <= i < k implies #[trigger] all[i] != 10 by {
        if i < key.len() {
            assert(all[i] == key[i]);
        } else if i == key.len() {
            assert(all[i] == 32u8);
        } else if i < key.len() + 1 + word.len() {
            assert(all[i] == word[i - key.len() - 1]);
        } else {
            assert(all[i] == 13u8);
        }
    }
    assert(all[k] == 10u8);
    lemma_first_line_len_is(all, k);
}

/// A line that holds its ending and nothing else has no words.
pub proof fn lemma_blank_line()
    ensures
        words(line_end()) == Seq::<Seq<u8>>::empty(),
{
    let s = line_end();
    lemma_space_run_is(s, 2);
    assert(s.skip(2) =~= Seq::<u8>::empty());
}

/// The two keys are words, differ, and hold no line feed.
pub proof fn lemma_keys()
    ensures
        is_word(length_key()),
        is_word(type_key()),
        length_key() != type_key(),
        forall|i: int| 0 <= i < length_key().len() ==> #[trigger] length_key()[i] != 10,
        forall|i: int| 0 <= i < type_key().len() ==> #[trigger] type_key()[i] != 10,
{
    assert(length_key().len() == 15);
    assert(type_key().len() == 13);
}

/// A numeral is a word without a line feed.
pub proof fn lemma_numeral_is_word(s: Seq<u8>)
    requires
        is_numeral(s),
    ensures
        is_word(s),
        forall|i: int| 0 <= i < s.len() ==> #[trigger] s[i] != 10,
{
    assert forall|i: int| 0 <= i < s.len() implies !is_space(#[trigger] s[i]) by {
        assert(is_digit(s[i]));
    }
    assert forall|i: int| 0 <= i < s.len() implies #[trigger] s[i] != 10 by {
        assert(is_digit(s[i]));
    }
}

/// The line that declares the length passes the stream on to what follows.
pub proof fn lemma_length_line(length: nat, after: Seq<u8>)
    requires
        length <= usize::MAX,
    ensures
        decode(length_key() + seq![32u8] + numeral_of(length) + line_end() + after) == shifted(
            decode_from(after, HeaderState { length: Some(length as usize), content_type: None }),
            length_key().len() + numeral_of(length).len() + 3,
        ),
{
    let digits = numeral_of(length);
    lemma_numeral_round_trip(length);
    lemma_numeral_is_word(digits);
    lemma_keys();
    let first = length_key() + seq![32u8] + digits + line_end();
    let input = first + after;
    lemma_header_line(length_key(), digits, after);
    assert(input.take(first.len() as int) =~= first);
    assert(input.skip(first.len() as int) =~= after);
}

/// The line that declares the content type passes the stream on to what
/// follows.
pub proof fn lemma_type_line(length: usize, token: Seq<u8>, after: Seq<u8>)
    requires
        is_word(token),
        forall|i: int| 0 <= i < token.len() ==> #[trigger] token[i] != 10,
    ensures
        decode_from(
            type_key() + seq![32u8] + token + line_end() + after,
            HeaderState { length: Some(length), content_type: None },
        ) == shifted(
            decode_from(after, HeaderState { length: Some(length), content_type: Some(token) }),
            type_key().len() + token.len() + 3,
        ),
{
    lemma_keys();
    let second = type_key() + seq![32u8] + token + line_end();
    let input = second + after;
    lemma_header_line(type_key(), token, after);
    assert(input.take(second.len() as int) =~= second);
    assert(input.skip(second.len() as int) =~= after);
}

/// Decoding what was encoded gives the body back, byte for byte and whatever
/// the body holds, with the content type that was given, and takes exactly
/// the bytes of that one message: what follows on the stream is left alone.
pub proof fn lemma_frame_round_trip(body: Seq<u8>, content_type: Option<Seq<u8>>, rest: Seq<u8>)
    requires
        body.len() <= usize::MAX,
        content_type matches Some(t) ==> is_word(t) && forall|i: int|
            0 <= i < t.len() ==> #[trigger] t[i] != 10,
    ensures
        decode(frame_bytes(body, content_type) + rest) == (Decoding::Message {
            body,
            content_type,
            consumed: frame_bytes(body, content_type).len(),
        }),
{
    let first = length_key() + seq![32u8] + numeral_of(body.len()) + line_end();
    let input = frame_bytes(body, content_type) + rest;
    let end = line_end() + body + rest;
    let declared = HeaderState { length: Some(body.len() as usize), content_type: None };
    match content_type {
        Some(t) => {
            let second = type_key() + seq![32u8] + t + line_end();
            assert(input =~= first + (second + end));
            lemma_length_line(body.len(), second + end);
            lemma_type_line(body.len() as usize, t, end);
            lemma_body_follows(
                HeaderState { length: declared.length, content_type: Some(t) },
                body,
                rest,
            );
        },
        None => {
            assert(input =~= first + end);
            lemma_length_line(body.len(), end);
            lemma_body_follows(declared, body, rest);
        },
    }
}

/// Once the length is declared, the blank line and that many bytes decode to
/// the message, whatever those bytes are.
pub proof fn lemma_body_follows(st: HeaderState, body: Seq<u8>, rest: Seq<u8>)
    requires
        st.length == Some(body.len() as usize),
        body.len() <= usize::MAX,
    ensures
        decode_from(line_end() + body + rest, st) == (Decoding::Message {
            body,
            content_type: st.content_type,
            consumed: body.len() + 2,
        }),
{
    let input = line_end() + body + rest;
    assert(input[0] == 13u8 && input[1] == 10u8);
    lemma_first_line_len_is(input, 1);
    assert(input.take(2) =~= line_end());
    lemma_blank_line();
    assert(advance(st, line_end()) == Advance::Body(st));
    assert(input.subrange(2, (2 + body.len()) as int) =~= body);
}

/// A text of ASCII characters is encoded as one byte for each character.
pub proof fn lemma_encoding_of_ascii(chars: Seq<char>, bytes: Seq<u8>)
    requires
        chars.len() == bytes.len(),
        forall|i: int| 0 <= i < chars.len() ==> '\0' <= #[trigger] chars[i] <= '\u{7f}',
        forall|i: int| 0 <= i < chars.len() ==> #[trigger] chars[i] as u8 == bytes[i],
    ensures
        encode_utf8(chars) == bytes,
{
    is_ascii_chars_encode_utf8(chars);
    assert(encode_utf8(chars) =~= bytes);
}

/// The header block of a message as text.
pub open spec fn header_text(length: nat) -> Seq<char> {
    "Content-Length: "@ + digit_chars(numeral_of(length)) + "\r\n\r\n"@
}

/// The header block as text is the header block as bytes.
pub proof fn lemma_header_text(length: nat)
    ensures
        encode_utf8(header_text(length)) == header_bytes(length, None),
{
    let key = "Content-Length: "@;
    let digits = digit_chars(numeral_of(length));
    let end = "\r\n\r\n"@;
    reveal_strlit("Content-Length: ");
    reveal_strlit("\r\n\r\n");
    lemma_numeral_round_trip(length);
    lemma_numeral_text(numeral_of(length));
    lemma_encoding_of_ascii(key, length_key() + seq![32u8]);
    lemma_encoding_of_ascii(digits, numeral_of(length));
    lemma_encoding_of_ascii(end, line_end() + line_end());
    lemma_encoding_of_concat(key, digits);
    lemma_encoding_of_concat(key + digits, end);
    assert(header_bytes(length, None) =~= (length_key() + seq![32u8]) + numeral_of(length) + (
    line_end() + line_end()));
}

/// Puts a message body into its frame, as text: the header block with the
/// length of the body in bytes, then the body.
pub fn frame_text(body: &str) -> (out: String)
    ensures
        out@ == header_text(encode_utf8(body@).len()) + body@,
        encode_utf8(out@) == frame_bytes(encode_utf8(body@), None),
{
    let mut out = "Content-Length: ".to_owned();
    let length = render_natural(body.as_bytes().len() as u64);
    out.append(length.as_str());
    out.append("\r\n\r\n");
    out.append(body);
    proof {
        let n = encode_utf8(body@).len();
        assert(out@ =~= header_text(n) + body@);
        lemma_header_text(n);
        lemma_encoding_of_concat(header_text(n), body@);
    }
    out
}

} // verus!
