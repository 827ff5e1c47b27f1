//! Reading a response out of the bytes received so far.

use vstd::prelude::*;
use vstd::slice::{slice_subrange, slice_to_vec};
use vstd::string::StringExecFns;
use vstd::utf8::*;

use crate::error::{Error, ErrorView};
use crate::number::{parse_number, read_number};
use crate::sequence::{find, occurs, split_once};
use crate::text::{
    equal_ignoring_case, join, lower, lower_contains, same_ignoring_case, split_text,
    trim_text, trimmed,
};

verus! {

/// Largest response this will buffer. The APIs this is for answer in kilobytes; anything near this
/// is a fault, not a payload.
pub const MAX_RESPONSE: usize = 8 * 1024 * 1024;

/// A whole response.
#[derive(Debug)]
pub struct Response {
    pub status: u16,
    pub headers: Vec<(String, String)>,
    pub body: Vec<u8>,
}

/// A header: its name and its value.
pub type Field = (Seq<char>, Seq<char>);

/// A [`Response`] with its headers as characters.
pub struct ResponseView {
    pub status: u16,
    pub headers: Seq<Field>,
    pub body: Seq<u8>,
}

/// The headers of a response as characters.
pub open spec fn headers_view(headers: Seq<(String, String)>) -> Seq<Field> {
    headers.map_values(|field: (String, String)| (field.0@, field.1@))
}

impl View for Response {
    type V = ResponseView;

    open spec fn view(&self) -> ResponseView {
        ResponseView {
            status: self.status,
            headers: headers_view(self.headers@),
            body: self.body@,
        }
    }
}

impl Clone for Response {
    fn clone(&self) -> (copy: Self)
        ensures
            copy@ == self@,
    {
        let mut headers: Vec<(String, String)> = Vec::new();
        let mut i: usize = 0;
        while i < self.headers.len()
            invariant
                i <= self.headers@.len(),
                headers_view(headers@) == headers_view(self.headers@).take(i as int),
            decreases self.headers@.len() - i,
        {
            let name = self.headers[i].0.clone();
            let value = self.headers[i].1.clone();
            proof {
                lemma_headers_push(headers@, name, value);
            }
            headers.push((name, value));
            i = i + 1;
            assert(headers_view(headers@) =~= headers_view(self.headers@).take(i as int));
        }
        assert(headers_view(headers@) =~= headers_view(self.headers@));
        Response { status: self.status, headers, body: slice_to_vec(self.body.as_slice()) }
    }
}

/// The end of a line.
pub open spec fn crlf() -> Seq<char> {
    seq!['\r', '\n']
}

/// The end of a line, in bytes.
pub open spec fn crlf_bytes() -> Seq<u8> {
    seq![13u8, 10u8]
}

/// The end of the headers, in bytes: the end of a line and an empty line.
pub open spec fn head_end() -> Seq<u8> {
    seq![13u8, 10u8, 13u8, 10u8]
}

/// The value of the first header named `name`.
pub open spec fn first_named(headers: Seq<Field>, name: Seq<char>) -> Option<Seq<char>>
    decreases headers.len(),
{
    if headers.len() == 0 {
        None
    } else if same_ignoring_case(headers[0].0, name) {
        Some(headers[0].1)
    } else {
        first_named(headers.drop_first(), name)
    }
}

/// The value of the last header named `name`.
pub open spec fn last_named(headers: Seq<Field>, name: Seq<char>) -> Option<Seq<char>>
    decreases headers.len(),
{
    if headers.len() == 0 {
        None
    } else if same_ignoring_case(headers.last().0, name) {
        Some(headers.last().1)
    } else {
        last_named(headers.drop_last(), name)
    }
}

/// The number of bytes that the value of a `Content-Length` header stands for.
pub open spec fn length_value(value: Seq<char>) -> Option<nat> {
    parse_number(value, 10, usize::MAX as nat)
}

/// A `Content-Length` header whose value is not a length.
pub open spec fn is_bad_length(field: Field) -> bool {
    same_ignoring_case(field.0, "content-length"@) && length_value(field.1) is None
}

/// One of the headers is a `Content-Length` whose value is not a length.
pub open spec fn has_bad_length(headers: Seq<Field>) -> bool {
    exists|i: int| 0 <= i < headers.len() && is_bad_length(#[trigger] headers[i])
}

/// The length that the headers give for the body: the last one stands.
pub open spec fn content_length(headers: Seq<Field>) -> Option<nat> {
    match last_named(headers, "content-length"@) {
        Some(value) => length_value(value),
        None => None,
    }
}

/// Whether the headers say that the body comes in chunks: the last one stands.
pub open spec fn is_chunked(headers: Seq<Field>) -> bool {
    match last_named(headers, "transfer-encoding"@) {
        Some(value) => occurs(lower(value), "chunked"@),
        None => false,
    }
}

/// The header in a line: what stands before its first colon, and what stands after it, trimmed.
pub open spec fn field_in(line: Seq<char>) -> Option<Field> {
    match split_once(line, seq![':']) {
        Some((name, value)) => Some((name, trimmed(value))),
        None => None,
    }
}

/// The headers in a list of lines, without the lines that hold none.
pub open spec fn fields_in(lines: Seq<Seq<char>>) -> Seq<Field>
    decreases lines.len(),
{
    if lines.len() == 0 {
        Seq::empty()
    } else {
        match field_in(lines[0]) {
            Some(field) => seq![field] + fields_in(lines.drop_first()),
            None => fields_in(lines.drop_first()),
        }
    }
}

/// The lines of a text.
pub open spec fn lines_of(text: Seq<char>) -> Seq<Seq<char>>
    decreases text.len(),
{
    match split_once(text, crlf()) {
        Some((line, rest)) => seq![line] + lines_of(rest),
        None => seq![text],
    }
}

/// The second of the words that single spaces part in a line.
pub open spec fn second_word(line: Seq<char>) -> Option<Seq<char>> {
    match split_once(line, seq![' ']) {
        Some((_, rest)) => match split_once(rest, seq![' ']) {
            Some((word, _)) => Some(word),
            None => Some(rest),
        },
        None => None,
    }
}

/// The status code in a status line.
pub open spec fn status_in(line: Seq<char>) -> Option<nat> {
    match second_word(line) {
        Some(word) => parse_number(word, 10, u16::MAX as nat),
        None => None,
    }
}

/// What a response says before its body.
pub struct HeadView {
    pub status: nat,
    pub headers: Seq<Field>,
}

/// Reads the text before the body: the status line and the headers. An error names what is wrong and
/// quotes none of it: a peer may answer with the request that it was sent.
pub open spec fn head_of(text: Seq<char>) -> Result<HeadView, ErrorView> {
    let lines = lines_of(text);
    let headers = fields_in(lines.drop_first());
    match status_in(lines[0]) {
        Some(status) => if has_bad_length(headers) {
            Err(ErrorView::Protocol("bad Content-Length"@))
        } else {
            Ok(HeadView { status, headers })
        },
        None => Err(ErrorView::Protocol("bad status line"@)),
    }
}

/// How the end of a body is told.
pub enum Framing {
    /// There is no body.
    Bodiless,
    /// The body comes in chunks, the last of which is empty.
    Chunked,
    /// The body has this many bytes.
    Length(nat),
    /// The body ends where the connection does.
    UntilClose,
}

/// Whether a response has no body, whatever its headers say.
pub open spec fn is_bodiless(status: nat, head_request: bool) -> bool {
    head_request || 100 <= status < 200 || status == 204 || status == 304
}

/// How the end of the body is told after `head`.
pub open spec fn framing(head: HeadView, head_request: bool) -> Framing {
    if is_bodiless(head.status, head_request) {
        Framing::Bodiless
    } else if is_chunked(head.headers) {
        Framing::Chunked
    } else {
        match content_length(head.headers) {
            Some(length) => Framing::Length(length),
            None => Framing::UntilClose,
        }
    }
}

/// The size in a line that introduces a chunk: a hexadecimal number before any semicolon.
pub open spec fn chunk_size(line: Seq<char>) -> Option<nat> {
    let field = match split_once(line, seq![';']) {
        Some((field, _)) => field,
        None => line,
    };
    parse_number(trimmed(field), 16, usize::MAX as nat)
}

/// What is wrong with a line that introduces a chunk.
pub enum ChunkFault {
    /// It is not UTF-8.
    NotUtf8,
    /// It gives no size; this is the line.
    BadSize(Seq<char>),
}

impl ChunkFault {
    /// The fault with the line that shows it.
    pub open spec fn quoted(self) -> ErrorView {
        match self {
            ChunkFault::NotUtf8 => ErrorView::Protocol("chunk size is not UTF-8"@),
            ChunkFault::BadSize(line) => ErrorView::Protocol("bad chunk size: "@ + line),
        }
    }

    /// The fault without the line that shows it.
    pub open spec fn unquoted(self) -> ErrorView {
        match self {
            ChunkFault::NotUtf8 => ErrorView::Protocol("chunk size is not UTF-8"@),
            ChunkFault::BadSize(_) => ErrorView::Protocol("bad chunk size"@),
        }
    }
}

/// The body that the chunks in `bytes` make up, once the empty chunk that ends it is there.
pub open spec fn chunked_body(bytes: Seq<u8>) -> Result<Option<Seq<u8>>, ChunkFault>
    decreases bytes.len(),
{
    match split_once(bytes, crlf_bytes()) {
        Some((line, rest)) => if !valid_utf8(line) {
            Err(ChunkFault::NotUtf8)
        } else {
            match chunk_size(decode_utf8(line)) {
                Some(size) => if size == 0 {
                    Ok(Some(Seq::empty()))
                } else if rest.len() < size + 2 {
                    Ok(None)
                } else {
                    after_chunk(rest.take(size as int), chunked_body(rest.skip(size as int + 2)))
                },
                None => Err(ChunkFault::BadSize(decode_utf8(line))),
            }
        },
        None => Ok(None),
    }
}

/// What has been read of a body, in front of what remains to be read of it.
pub open spec fn after_chunk(
    chunk: Seq<u8>,
    rest: Result<Option<Seq<u8>>, ChunkFault>,
) -> Result<Option<Seq<u8>>, ChunkFault> {
    match rest {
        Ok(Some(body)) => Ok(Some(chunk + body)),
        _ => rest,
    }
}

/// The body in `bytes`, the ones received after the headers.
pub open spec fn body_of(framing: Framing, bytes: Seq<u8>, at_eof: bool) -> Result<
    Option<Seq<u8>>,
    ErrorView,
> {
    match framing {
        Framing::Bodiless => Ok(Some(Seq::empty())),
        Framing::Chunked => match chunked_body(bytes) {
            Ok(None) => if at_eof {
                Err(ErrorView::Protocol("connection closed inside a chunked body"@))
            } else {
                Ok(None)
            },
            Ok(Some(body)) => Ok(Some(body)),
            Err(fault) => Err(fault.unquoted()),
        },
        Framing::Length(length) => if bytes.len() >= length {
            Ok(Some(bytes.take(length as int)))
        } else if at_eof {
            Err(ErrorView::Protocol("connection closed before the body ended"@))
        } else {
            Ok(None)
        },
        Framing::UntilClose => if at_eof {
            Ok(Some(bytes))
        } else {
            Ok(None)
        },
    }
}

/// The response in `buffer`, or `None` where more is needed.
pub open spec fn response_in(buffer: Seq<u8>, at_eof: bool, head_request: bool) -> Result<
    Option<ResponseView>,
    ErrorView,
> {
    match split_once(buffer, head_end()) {
        Some((head, rest)) => if !valid_utf8(head) {
            Err(ErrorView::Protocol("headers are not UTF-8"@))
        } else {
            match head_of(decode_utf8(head)) {
                Ok(head) => match body_of(framing(head, head_request), rest, at_eof) {
                    Ok(Some(body)) => Ok(
                        Some(
                            ResponseView {
                                status: head.status as u16,
                                headers: head.headers,
                                body,
                            },
                        ),
                    ),
                    Ok(None) => Ok(None),
                    Err(error) => Err(error),
                },
                Err(error) => Err(error),
            }
        },
        None => if at_eof {
            Err(ErrorView::Protocol("connection closed before the headers ended"@))
        } else {
            Ok(None)
        },
    }
}

impl Response {
    /// Whether the status says that the request succeeded.
    pub fn is_success(&self) -> (success: bool)
        ensures
            success == (200 <= self.status < 300),
    {
        200 <= self.status && self.status < 300
    }

    /// The first header named `name`, compared case-insensitively.
    pub fn header(&self, name: &str) -> (value: Option<&str>)
        ensures
            match value {
                Some(value) => first_named(self@.headers, name@) == Some(value@),
                None => first_named(self@.headers, name@) is None,
            },
    {
        let mut i: usize = 0;
        assert(self@.headers.skip(0) =~= self@.headers);
        while i < self.headers.len()
            invariant
                i <= self.headers@.len(),
                first_named(self@.headers, name@) == first_named(
                    self@.headers.skip(i as int),
                    name@,
                ),
            decreases self.headers@.len() - i,
        {
            assert(self@.headers.skip(i as int).drop_first() =~= self@.headers.skip(i + 1));
            if equal_ignoring_case(self.headers[i].0.as_str(), name) {
                return Some(self.headers[i].1.as_str());
            }
            i = i + 1;
        }
        None
    }
}

/// `core::str::from_utf8`: the text that `bytes` encode, or `None` where they are not UTF-8.
#[verifier::external_body]
fn utf8_text(bytes: &[u8]) -> (text: Option<&str>)
    ensures
        match text {
            Some(text) => valid_utf8(bytes@) && text@ == decode_utf8(bytes@),
            None => !valid_utf8(bytes@),
        },
{
    core::str::from_utf8(bytes).ok()
}

/// An error that names what the peer did wrong.
fn protocol(detail: &str) -> (error: Error)
    ensures
        error@ == ErrorView::Protocol(detail@),
{
    Error::Protocol(String::from_str(detail))
}

/// What is wrong with a line that introduces a chunk.
enum LineFault<'a> {
    NotUtf8,
    BadSize(&'a str),
}

impl<'a> View for LineFault<'a> {
    type V = ChunkFault;

    closed spec fn view(&self) -> ChunkFault {
        match self {
            LineFault::NotUtf8 => ChunkFault::NotUtf8,
            LineFault::BadSize(line) => ChunkFault::BadSize(line@),
        }
    }
}

/// Decode a chunked body, or `None` if the terminating chunk has not arrived. An error quotes the
/// line that is no chunk size.
pub fn decode_chunked(input: &[u8]) -> (decoded: Result<Option<Vec<u8>>, Error>)
    ensures
        match decoded {
            Ok(Some(body)) => chunked_body(input@) == Ok::<Option<Seq<u8>>, ChunkFault>(
                Some(body@),
            ),
            Ok(None) => chunked_body(input@) == Ok::<Option<Seq<u8>>, ChunkFault>(None),
            Err(error) => chunked_body(input@) matches Err(fault) && error@ == fault.quoted(),
        },
{
    match read_chunks(input) {
        Ok(read) => Ok(read),
        Err(LineFault::NotUtf8) => Err(protocol("chunk size is not UTF-8")),
        Err(LineFault::BadSize(line)) => Err(Error::Protocol(join("bad chunk size: ", line))),
    }
}

/// Reads the chunks of a body, up to the one that ends it.
fn read_chunks<'a>(input: &'a [u8]) -> (read: Result<Option<Vec<u8>>, LineFault<'a>>)
    ensures
        match read {
            Ok(Some(body)) => chunked_body(input@) == Ok::<Option<Seq<u8>>, ChunkFault>(
                Some(body@),
            ),
            Ok(None) => chunked_body(input@) == Ok::<Option<Seq<u8>>, ChunkFault>(None),
            Err(fault) => chunked_body(input@) == Err::<Option<Seq<u8>>, ChunkFault>(fault@),
        },
{
    let mut rest: &'a [u8] = input;
    let mut body: Vec<u8> = Vec::new();
    proof {
        assert(after_chunk(body@, chunked_body(rest@)) == chunked_body(input@)) by {
            if let Ok(Some(whole)) = chunked_body(input@) {
                assert(body@ + whole =~= whole);
            }
        }
    }
    loop
        invariant
            after_chunk(body@, chunked_body(rest@)) == chunked_body(input@),
        decreases rest@.len(),
    {
        let line_end: usize = match find(rest, &[13u8, 10u8]) {
            Some(line_end) => line_end,
            None => return Ok(None),
        };
        let line_bytes = slice_subrange(rest, 0, line_end);
        let available: usize = rest.len();
        let after_line = slice_subrange(rest, line_end + 2, available);
        proof {
            assert(rest@.take(line_end as int) =~= line_bytes@);
            assert(rest@.skip(line_end + 2) =~= after_line@);
        }
        let line = match utf8_text(line_bytes) {
            Some(line) => line,
            None => return Err(LineFault::NotUtf8),
        };
        let size = match read_chunk_size(line) {
            Some(size) => size,
            None => return Err(LineFault::BadSize(line)),
        };
        if size == 0 {
            // Trailers are not read; the terminator is enough.
            assert(body@ + Seq::<u8>::empty() =~= body@);
            return Ok(Some(body));
        }
        if after_line.len() < size || after_line.len() - size < 2 {
            return Ok(None);
        }
        let chunk = slice_subrange(after_line, 0, size);
        let next = slice_subrange(after_line, size + 2, after_line.len());
        let ghost before = body@;
        body.extend_from_slice(chunk);
        proof {
            assert(body@ =~= before + chunk@);
            assert(after_line@.take(size as int) =~= chunk@);
            assert(after_line@.skip(size + 2) =~= next@);
            if let Ok(Some(tail)) = chunked_body(next@) {
                assert(before + (chunk@ + tail) =~= body@ + tail);
            }
        }
        rest = next;
    }
}

/// The size in a line that introduces a chunk.
fn read_chunk_size(line: &str) -> (size: Option<usize>)
    ensures
        match size {
            Some(size) => chunk_size(line@) == Some(size as nat),
            None => chunk_size(line@) is None,
        },
{
    proof {
        reveal_strlit(";");
        assert(";"@ =~= seq![';']);
    }
    let field = match split_text(line, ";") {
        Some((field, _)) => field,
        None => line,
    };
    match read_number(trim_text(field), 16, usize::MAX as u64) {
        Some(size) => Some(size as usize),
        None => None,
    }
}

/// The status code in a status line.
fn read_status(line: &str) -> (status: Option<u16>)
    ensures
        match status {
            Some(status) => status_in(line@) == Some(status as nat),
            None => status_in(line@) is None,
        },
{
    proof {
        reveal_strlit(" ");
        assert(" "@ =~= seq![' ']);
    }
    let rest = match split_text(line, " ") {
        Some((_, rest)) => rest,
        None => return None,
    };
    let word = match split_text(rest, " ") {
        Some((word, _)) => word,
        None => rest,
    };
    match read_number(word, 10, u16::MAX as u64) {
        Some(status) => Some(status as u16),
        None => None,
    }
}

/// What a response says before its body.
struct Head {
    status: u16,
    headers: Vec<(String, String)>,
    content_length: Option<usize>,
    chunked: bool,
}

impl Head {
    /// The framing that was read is the one that the headers give.
    spec fn wf(self) -> bool {
        let headers = headers_view(self.headers@);
        &&& self.chunked == is_chunked(headers)
        &&& match self.content_length {
            Some(length) => content_length(headers) == Some(length as nat),
            None => content_length(headers) is None,
        }
    }
}

/// The lines that remain to be read: none, or those of a text.
spec fn remaining_lines(text: Option<&str>) -> Seq<Seq<char>> {
    match text {
        Some(text) => lines_of(text@),
        None => Seq::empty(),
    }
}

/// A header added at the end.
proof fn lemma_headers_push(headers: Seq<(String, String)>, name: String, value: String)
    ensures
        headers_view(headers.push((name, value))) == headers_view(headers).push((name@, value@)),
{
    assert(headers_view(headers.push((name, value))) =~= headers_view(headers).push(
        (name@, value@),
    ));
}

/// A header that is no bad length makes none of those before it one.
proof fn lemma_length_stays_good(headers: Seq<Field>, field: Field)
    requires
        !has_bad_length(headers),
        !is_bad_length(field),
    ensures
        !has_bad_length(headers.push(field)),
{
    let more = headers.push(field);
    assert forall|i: int| 0 <= i < more.len() implies !is_bad_length(#[trigger] more[i]) by {
        if i < headers.len() {
            assert(more[i] == headers[i]);
        }
    }
}

/// Cuts the first line off a text.
fn split_line<'a>(text: &'a str) -> (split: (&'a str, Option<&'a str>))
    ensures
        lines_of(text@) == seq![split.0@] + remaining_lines(split.1),
        split.1 matches Some(rest) ==> rest@.len() < text@.len(),
{
    proof {
        reveal_strlit("\r\n");
        assert("\r\n"@ =~= crlf());
    }
    match split_text(text, "\r\n") {
        Some((line, rest)) => (line, Some(rest)),
        None => {
            assert(seq![text@] + Seq::<Seq<char>>::empty() =~= seq![text@]);
            (text, None)
        },
    }
}

/// Reads the text before the body.
fn read_head(text: &str) -> (head: Result<Head, Error>)
    ensures
        match head {
            Ok(head) => head.wf() && head_of(text@) == Ok::<HeadView, ErrorView>(
                HeadView { status: head.status as nat, headers: headers_view(head.headers@) },
            ),
            Err(error) => head_of(text@) == Err::<HeadView, ErrorView>(error@),
        },
{
    let (status_line, after) = split_line(text);
    proof {
        assert(lines_of(text@).drop_first() =~= remaining_lines(after));
        assert(lines_of(text@)[0] == status_line@);
    }
    let status = match read_status(status_line) {
        Some(status) => status,
        None => return Err(protocol("bad status line")),
    };
    let mut head = Head { status, headers: Vec::new(), content_length: None, chunked: false };
    let mut rest: Option<&str> = after;
    let ghost all = fields_in(lines_of(text@).drop_first());
    proof {
        assert(headers_view(head.headers@) =~= Seq::empty());
        assert(headers_view(head.headers@) + all =~= all);
    }
    while rest.is_some()
        invariant
            head.wf(),
            head.status == status,
            status_in(lines_of(text@)[0]) == Some(status as nat),
            all == fields_in(lines_of(text@).drop_first()),
            all == headers_view(head.headers@) + fields_in(remaining_lines(rest)),
            !has_bad_length(headers_view(head.headers@)),
        decreases match rest {
            Some(lines) => lines@.len() + 1,
            None => 0,
        },
    {
        let (line, next) = split_line(rest.unwrap());
        let ghost so_far = headers_view(head.headers@);
        proof {
            reveal_strlit(":");
            assert(":"@ =~= seq![':']);
            assert(remaining_lines(rest).drop_first() =~= remaining_lines(next));
            assert(remaining_lines(rest)[0] == line@);
        }
        if let Some((name, value)) = split_text(line, ":") {
            let value = trim_text(value);
            let ghost field: Field = (name@, value@);
            let ghost later = fields_in(remaining_lines(next));
            proof {
                assert(all =~= so_far.push(field) + later);
                assert(so_far.push(field).drop_last() =~= so_far);
                lemma_framing_names_differ(name@);
            }
            if equal_ignoring_case(name, "content-length") {
                match read_number(value, 10, usize::MAX as u64) {
                    Some(length) => {
                        head.content_length = Some(length as usize);
                    },
                    None => {
                        proof {
                            assert(all[so_far.len() as int] == field);
                            assert(is_bad_length(field));
                        }
                        return Err(protocol("bad Content-Length"));
                    },
                }
            } else if equal_ignoring_case(name, "transfer-encoding") {
                proof {
                    reveal_strlit("chunked");
                }
                head.chunked = lower_contains(value, "chunked");
            }
            let name = String::from_str(name);
            let value = String::from_str(value);
            proof {
                lemma_headers_push(head.headers@, name, value);
                assert(!is_bad_length(field));
                lemma_length_stays_good(so_far, field);
            }
            head.headers.push((name, value));
        }
        rest = next;
    }
    proof {
        assert(all =~= headers_view(head.headers@));
    }
    Ok(head)
}

/// No header names both the length and the transfer encoding.
proof fn lemma_framing_names_differ(name: Seq<char>)
    ensures
        !(same_ignoring_case(name, "content-length"@) && same_ignoring_case(
            name,
            "transfer-encoding"@,
        )),
{
    reveal_strlit("content-length");
    reveal_strlit("transfer-encoding");
    assert(lower("content-length"@).len() != lower("transfer-encoding"@).len());
}

/// The view of what was read of a response.
pub open spec fn parsed_view(parsed: Result<Option<Response>, Error>) -> Result<
    Option<ResponseView>,
    ErrorView,
> {
    match parsed {
        Ok(Some(response)) => Ok(Some(response@)),
        Ok(None) => Ok(None),
        Err(error) => Err(error@),
    }
}

/// Parse a complete response out of `buffer`, or `None` if more is needed.
///
/// `at_eof` says the peer has closed: a body framed by neither length nor chunking ends there, and
/// one that is framed but short is an error. `head_request` says the request was HEAD, whose
/// response has no body; 1xx, 204 and 304 never do either (RFC 9112 section 6.3).
///
/// An error quotes nothing that the peer sent, which may be the request itself.
pub fn parse_response(buffer: &[u8], at_eof: bool, head_request: bool) -> (parsed: Result<
    Option<Response>,
    Error,
>)
    ensures
        parsed_view(parsed) == response_in(buffer@, at_eof, head_request),
{
    let end: usize = match find(buffer, &[13u8, 10u8, 13u8, 10u8]) {
        Some(end) => end,
        None => {
            if at_eof {
                return Err(protocol("connection closed before the headers ended"));
            }
            return Ok(None);
        },
    };
    let head_bytes = slice_subrange(buffer, 0, end);
    let received: usize = buffer.len();
    let rest = slice_subrange(buffer, end + 4, received);
    proof {
        assert(buffer@.take(end as int) =~= head_bytes@);
        assert(buffer@.skip(end + 4) =~= rest@);
    }
    let text = match utf8_text(head_bytes) {
        Some(text) => text,
        None => return Err(protocol("headers are not UTF-8")),
    };
    let head = match read_head(text) {
        Ok(head) => head,
        Err(error) => return Err(error),
    };
    let status = head.status;
    let bodiless = head_request || (100 <= status && status < 200) || status == 204 || status == 304;
    let body: Vec<u8> = if bodiless {
        Vec::new()
    } else if head.chunked {
        match read_chunks(rest) {
            Ok(Some(body)) => body,
            Ok(None) => {
                if at_eof {
                    return Err(protocol("connection closed inside a chunked body"));
                }
                return Ok(None);
            },
            Err(LineFault::NotUtf8) => return Err(protocol("chunk size is not UTF-8")),
            Err(LineFault::BadSize(_)) => return Err(protocol("bad chunk size")),
        }
    } else if let Some(length) = head.content_length {
        if rest.len() < length {
            if at_eof {
                return Err(protocol("connection closed before the body ended"));
            }
            return Ok(None);
        }
        let body = slice_to_vec(slice_subrange(rest, 0, length));
        assert(body@ =~= rest@.take(length as int));
        body
    } else if at_eof {
        slice_to_vec(rest)
    } else {
        return Ok(None);
    };
    Ok(Some(Response { status, headers: head.headers, body }))
}

} // verus!
