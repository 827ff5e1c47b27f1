//! What holds of the bytes that carry a request.

use vstd::prelude::*;
use vstd::utf8::*;

use crate::encoding::{lemma_encode_concat, lemma_occurrence_in_chars};
use crate::laws::text::{alike, law_case_makes_no_other_difference};
use crate::number::{decimal, lemma_decimal_holds_digits, lemma_number_text_reads};
use crate::request::{header_lines, may_carry_body, RequestView};
use crate::response::{
    content_length, crlf, field_in, fields_in, head_end, lines_of,
};
use crate::sequence::{lemma_first_index, lemma_occurs_between, occurs, occurs_at, split_once};
use crate::text::{lower, trim_start, trimmed};

verus! {

/// The line of a header.
pub open spec fn header_line(header: (Seq<char>, Seq<char>)) -> Seq<char> {
    header.0 + ": "@ + header.1
}

/// The lines that describe the body of a request.
pub open spec fn body_lines(request: RequestView) -> Seq<Seq<char>> {
    match request.body {
        Some((content_type, body)) => seq![
            "Content-Type: "@ + content_type,
            "Content-Length: "@ + decimal(body.len()),
        ],
        None => if may_carry_body(request.method) {
            seq!["Content-Length: 0"@]
        } else {
            Seq::empty()
        },
    }
}

/// The lines with which every request opens.
pub open spec fn opening_lines(request: RequestView, host: Seq<char>) -> Seq<Seq<char>> {
    seq![
        request.method + " "@ + request.path + " HTTP/1.1"@,
        "Host: "@ + host,
        "Connection: close"@,
        "Accept-Encoding: identity"@,
    ]
}

/// The lines before the body of a request.
pub open spec fn request_lines(request: RequestView, host: Seq<char>) -> Seq<Seq<char>> {
    opening_lines(request, host) + request.headers.map_values(
        |header: (Seq<char>, Seq<char>)| header_line(header),
    ) + body_lines(request)
}

/// Lines, each with its end.
pub open spec fn terminated(lines: Seq<Seq<char>>) -> Seq<char>
    decreases lines.len(),
{
    if lines.len() == 0 {
        Seq::empty()
    } else {
        lines[0] + crlf() + terminated(lines.drop_first())
    }
}

/// Lines with an end of line between each two.
pub open spec fn joined(lines: Seq<Seq<char>>) -> Seq<char>
    decreases lines.len(),
{
    if lines.len() == 0 {
        Seq::empty()
    } else if lines.len() == 1 {
        lines[0]
    } else {
        lines[0] + crlf() + joined(lines.drop_first())
    }
}

/// A line that is not empty and does not end before its end.
pub open spec fn is_line(line: Seq<char>) -> bool {
    line.len() > 0 && !occurs(line, crlf())
}

/// Lines, none of which ends before its end, and of which only the first may be empty.
pub open spec fn are_lines(lines: Seq<Seq<char>>) -> bool {
    &&& forall|i: int| 0 <= i < lines.len() ==> !occurs(#[trigger] lines[i], crlf())
    &&& forall|i: int| 0 < i < lines.len() ==> (#[trigger] lines[i]).len() > 0
}

/// No part of the request or of the host holds an end of line.
pub open spec fn is_plain(request: RequestView, host: Seq<char>) -> bool {
    &&& !occurs(request.method, crlf())
    &&& !occurs(request.path, crlf())
    &&& !occurs(host, crlf())
    &&& forall|i: int|
        0 <= i < request.headers.len() ==> !occurs((#[trigger] request.headers[i]).0, crlf())
            && !occurs(request.headers[i].1, crlf())
    &&& request.body matches Some((content_type, _)) ==> !occurs(content_type, crlf())
}

/// The ends of lines stay where they are when lines are put together.
proof fn lemma_terminated_concat(a: Seq<Seq<char>>, b: Seq<Seq<char>>)
    ensures
        terminated(a + b) == terminated(a) + terminated(b),
    decreases a.len(),
{
    if a.len() == 0 {
        assert(a + b =~= b);
        assert(terminated(a) + terminated(b) =~= terminated(b));
    } else {
        lemma_terminated_concat(a.drop_first(), b);
        assert((a + b).drop_first() =~= a.drop_first() + b);
        assert(terminated(a + b) =~= terminated(a) + terminated(b));
    }
}

/// Lines with their ends are the joined lines and one more end.
proof fn lemma_terminated_is_joined(lines: Seq<Seq<char>>)
    requires
        lines.len() > 0,
    ensures
        terminated(lines) == joined(lines) + crlf(),
    decreases lines.len(),
{
    if lines.len() == 1 {
        assert(terminated(lines.drop_first()) =~= Seq::empty());
        assert(terminated(lines) =~= joined(lines) + crlf());
    } else {
        lemma_terminated_is_joined(lines.drop_first());
        assert(terminated(lines) =~= joined(lines) + crlf());
    }
}

/// The headers of a request are written as their lines.
proof fn lemma_header_lines(headers: Seq<(Seq<char>, Seq<char>)>)
    ensures
        header_lines(headers) == terminated(
            headers.map_values(|header: (Seq<char>, Seq<char>)| header_line(header)),
        ),
    decreases headers.len(),
{
    let line = |header: (Seq<char>, Seq<char>)| header_line(header);
    if headers.len() == 0 {
        assert(headers.map_values(line) =~= Seq::empty());
    } else {
        reveal_strlit("\r\n");
        let front = headers.drop_last();
        let last = seq![header_line(headers.last())];
        lemma_header_lines(front);
        assert(headers.map_values(line) =~= front.map_values(line) + last);
        lemma_terminated_concat(front.map_values(line), last);
        lemma_terminated_one(last[0]);
        assert(header_lines(headers) =~= header_lines(front) + (last[0] + crlf()));
    }
}

/// One line with its end.
proof fn lemma_terminated_one(line: Seq<char>)
    ensures
        terminated(seq![line]) == line + crlf(),
{
    let lines = seq![line];
    assert(lines.drop_first() =~= Seq::empty());
    assert(terminated(lines.drop_first()) =~= Seq::empty());
    assert(terminated(lines) =~= line + crlf());
}

/// What a request opens with is written as its lines.
proof fn lemma_opening(request: RequestView, host: Seq<char>)
    ensures
        request.opening(host) == terminated(opening_lines(request, host)),
{
    reveal_strlit(" HTTP/1.1\r\nHost: ");
    reveal_strlit("\r\nConnection: close\r\nAccept-Encoding: identity\r\n");
    reveal_strlit(" HTTP/1.1");
    reveal_strlit("Host: ");
    reveal_strlit("Connection: close");
    reveal_strlit("Accept-Encoding: identity");
    let lines = opening_lines(request, host);
    assert(lines =~= seq![lines[0]] + seq![lines[1]] + seq![lines[2]] + seq![lines[3]]);
    lemma_terminated_concat(
        seq![lines[0]] + seq![lines[1]] + seq![lines[2]],
        seq![lines[3]],
    );
    lemma_terminated_concat(seq![lines[0]] + seq![lines[1]], seq![lines[2]]);
    lemma_terminated_concat(seq![lines[0]], seq![lines[1]]);
    lemma_terminated_one(lines[0]);
    lemma_terminated_one(lines[1]);
    lemma_terminated_one(lines[2]);
    lemma_terminated_one(lines[3]);
    assert(" HTTP/1.1\r\nHost: "@ =~= " HTTP/1.1"@ + crlf() + "Host: "@);
    assert("\r\nConnection: close\r\nAccept-Encoding: identity\r\n"@ =~= crlf()
        + "Connection: close"@ + crlf() + "Accept-Encoding: identity"@ + crlf());
    assert(request.opening(host) =~= (lines[0] + crlf()) + (lines[1] + crlf()) + (lines[2] + crlf())
        + (lines[3] + crlf()));
}

/// What describes the body is written as its lines.
proof fn lemma_body_headers(request: RequestView)
    ensures
        request.body_headers() == terminated(body_lines(request)),
{
    reveal_strlit("\r\n");
    let lines = body_lines(request);
    match request.body {
        Some((content_type, body)) => {
            reveal_strlit("\r\nContent-Length: ");
            reveal_strlit("Content-Length: ");
            assert("\r\nContent-Length: "@ =~= crlf() + "Content-Length: "@);
            assert(lines =~= seq![lines[0]] + seq![lines[1]]);
            lemma_terminated_concat(seq![lines[0]], seq![lines[1]]);
            lemma_terminated_one(lines[0]);
            lemma_terminated_one(lines[1]);
            assert(request.body_headers() =~= (lines[0] + crlf()) + (lines[1] + crlf()));
        },
        None => {
            if may_carry_body(request.method) {
                reveal_strlit("Content-Length: 0\r\n");
                reveal_strlit("Content-Length: 0");
                lemma_terminated_one(lines[0]);
                assert(request.body_headers() =~= lines[0] + crlf());
            }
        },
    }
}

/// What stands before the body is the lines and an empty one.
proof fn lemma_head_is_lines(request: RequestView, host: Seq<char>)
    ensures
        request.head(host) == terminated(request_lines(request, host)) + crlf(),
{
    reveal_strlit("\r\n");
    assert("\r\n"@ =~= crlf());
    let headers = request.headers.map_values(
        |header: (Seq<char>, Seq<char>)| header_line(header),
    );
    lemma_opening(request, host);
    lemma_header_lines(request.headers);
    lemma_body_headers(request);
    lemma_terminated_concat(opening_lines(request, host) + headers, body_lines(request));
    lemma_terminated_concat(opening_lines(request, host), headers);
}

/// Where two texts hold no end of line, neither does a line made of them and of a text between them
/// that holds none of the characters of one.
proof fn lemma_no_end_in_between(before: Seq<char>, between: Seq<char>, after: Seq<char>)
    requires
        !occurs(before, crlf()),
        !occurs(after, crlf()),
        between.len() > 0,
        !between.contains('\r'),
        !between.contains('\n'),
    ensures
        !occurs(before + between + after, crlf()),
{
    let line = before + between + after;
    assert forall|at: int| !occurs_at(line, crlf(), at) by {
        if occurs_at(line, crlf(), at) {
            let found = line.subrange(at, at + 2);
            assert(found[0] == line[at] && found[1] == line[at + 1]);
            let n = before.len() as int;
            let m = n + between.len();
            if at + 1 < n {
                assert(before.subrange(at, at + 2) =~= found);
                assert(occurs_at(before, crlf(), at));
            } else if at >= m {
                assert(after.subrange(at - m, at - m + 2) =~= found);
                assert(occurs_at(after, crlf(), at - m));
            } else if at < n {
                assert(between[0] == '\n');
            } else {
                assert(between[at - n] == '\r');
            }
        }
    }
}

/// A text without a carriage return holds no end of line.
proof fn lemma_no_end_without_return(text: Seq<char>)
    requires
        !text.contains('\r'),
    ensures
        !occurs(text, crlf()),
{
    assert forall|at: int| !occurs_at(text, crlf(), at) by {
        if occurs_at(text, crlf(), at) {
            assert(text.subrange(at, at + 2)[0] == text[at]);
        }
    }
}

/// The lines of a request are lines.
proof fn lemma_request_lines(request: RequestView, host: Seq<char>)
    requires
        is_plain(request, host),
    ensures
        forall|i: int|
            0 <= i < request_lines(request, host).len() ==> is_line(
                #[trigger] request_lines(request, host)[i],
            ),
{
    let lines = request_lines(request, host);
    let headers = request.headers;
    assert forall|i: int| 0 <= i < lines.len() implies is_line(#[trigger] lines[i]) by {
        if i >= 4 && i < 4 + headers.len() {
            reveal_strlit(": ");
            let header = headers[i - 4];
            assert(lines[i] == header_line(header));
            lemma_no_end_in_between(header.0, ": "@, header.1);
        } else if i >= 4 {
            assert(lines[i] == body_lines(request)[i - 4 - headers.len()]);
            lemma_body_lines(request, host);
        } else {
            assert(lines[i] == opening_lines(request, host)[i]);
            lemma_opening_lines(request, host);
        }
    }
}

/// The lines with which a request opens are lines.
proof fn lemma_opening_lines(request: RequestView, host: Seq<char>)
    requires
        is_plain(request, host),
    ensures
        forall|i: int|
            0 <= i < 4 ==> is_line(#[trigger] opening_lines(request, host)[i]),
{
    reveal_strlit(" ");
    reveal_strlit(" HTTP/1.1");
    reveal_strlit("Host: ");
    reveal_strlit("Connection: close");
    reveal_strlit("Accept-Encoding: identity");
    let empty = Seq::<char>::empty();
    lemma_no_end_without_return(empty);
    lemma_no_end_without_return("Connection: close"@);
    lemma_no_end_without_return("Accept-Encoding: identity"@);
    lemma_no_end_in_between(request.method, " "@, request.path);
    let start = request.method + " "@ + request.path;
    lemma_no_end_in_between(start, " HTTP/1.1"@, empty);
    assert(start + " HTTP/1.1"@ + empty =~= start + " HTTP/1.1"@);
    lemma_no_end_in_between(empty, "Host: "@, host);
    assert(empty + "Host: "@ + host =~= "Host: "@ + host);
}

/// The lines that describe the body are lines.
proof fn lemma_body_lines(request: RequestView, host: Seq<char>)
    requires
        is_plain(request, host),
    ensures
        forall|i: int|
            0 <= i < body_lines(request).len() ==> is_line(#[trigger] body_lines(request)[i]),
{
    reveal_strlit("Content-Type: ");
    reveal_strlit("Content-Length: ");
    reveal_strlit("Content-Length: 0");
    let empty = Seq::<char>::empty();
    lemma_no_end_without_return(empty);
    lemma_no_end_without_return("Content-Length: 0"@);
    if let Some((content_type, body)) = request.body {
        lemma_no_end_in_between(empty, "Content-Type: "@, content_type);
        assert(empty + "Content-Type: "@ + content_type =~= "Content-Type: "@ + content_type);
        lemma_decimal_holds_digits(body.len(), '\r');
        lemma_no_end_without_return("Content-Length: "@ + decimal(body.len()));
    }
}

/// The lines after the first are lines.
proof fn lemma_other_lines(lines: Seq<Seq<char>>)
    requires
        are_lines(lines),
        lines.len() > 0,
    ensures
        are_lines(lines.drop_first()),
{
    let others = lines.drop_first();
    assert forall|i: int| 0 <= i < others.len() implies !occurs(#[trigger] others[i], crlf()) by {
        assert(others[i] == lines[i + 1]);
    }
    assert forall|i: int| 0 < i < others.len() implies (#[trigger] others[i]).len() > 0 by {
        assert(others[i] == lines[i + 1]);
    }
}

/// After lines comes the first empty one where the last of them ends.
proof fn lemma_empty_line(lines: Seq<Seq<char>>, at: int)
    requires
        are_lines(lines),
        occurs_at(terminated(lines) + crlf(), crlf() + crlf(), at),
    ensures
        lines.len() > 0,
        at == terminated(lines).len() - 2,
    decreases lines.len(),
{
    let text = terminated(lines) + crlf();
    let pattern = crlf() + crlf();
    let found = text.subrange(at, at + 4);
    assert(found[0] == text[at] && found[1] == text[at + 1]);
    assert(found[2] == text[at + 2] && found[3] == text[at + 3]);
    if lines.len() > 0 {
        let line = lines[0];
        let others = lines.drop_first();
        let rest = terminated(others) + crlf();
        assert(!occurs(line, crlf()));
        assert(text =~= line + crlf() + rest);
        if at < line.len() {
            if at + 1 < line.len() {
                assert(line.subrange(at, at + 2) =~= crlf());
                assert(occurs_at(line, crlf(), at));
            }
        } else if at == line.len() {
            assert(text[at + 2] == rest[0] && text[at + 3] == rest[1]);
            if others.len() > 0 {
                assert(others[0] == lines[1]);
                assert(lines[1].len() > 0 && !occurs(lines[1], crlf()));
                assert(rest[0] == others[0][0]);
                if others[0].len() > 1 {
                    assert(rest[1] == others[0][1]);
                    assert(others[0].subrange(0, 2) =~= crlf());
                    assert(occurs_at(others[0], crlf(), 0));
                } else {
                    assert(rest[1] == '\r');
                }
            } else {
                assert(terminated(others).len() == 0);
            }
        } else if at > line.len() + 1 {
            let k = at - line.len() - 2;
            assert(rest.subrange(k, k + 4) =~= found);
            lemma_other_lines(lines);
            lemma_empty_line(others, k);
        }
    }
}

/// The bytes of lines end at the first empty line.
pub proof fn lemma_bytes_of_lines(lines: Seq<Seq<char>>, body: Seq<u8>)
    requires
        lines.len() > 0,
        are_lines(lines),
    ensures
        split_once(encode_utf8(terminated(lines) + crlf()) + body, head_end()) == Some(
            (encode_utf8(joined(lines)), body),
        ),
{
    let text = terminated(lines) + crlf();
    let pattern = crlf() + crlf();
    let front = joined(lines);
    let bytes = encode_utf8(front);
    lemma_terminated_is_joined(lines);
    assert(text =~= front + pattern);
    lemma_encode_concat(front, pattern);
    is_ascii_chars_encode_utf8(pattern);
    assert(encode_utf8(pattern) =~= head_end()) by {
        assert(pattern[0] as u8 == encode_utf8(pattern)[0]);
        assert(pattern[1] as u8 == encode_utf8(pattern)[1]);
        assert(pattern[2] as u8 == encode_utf8(pattern)[2]);
        assert(pattern[3] as u8 == encode_utf8(pattern)[3]);
    }
    let whole = encode_utf8(text) + body;
    assert(whole =~= bytes + head_end() + body);
    lemma_occurs_between(bytes, head_end(), body);
    assert forall|at: int| 0 <= at < bytes.len() implies !occurs_at(whole, head_end(), at) by {
        if occurs_at(whole, head_end(), at) {
            assert(encode_utf8(text).subrange(at, at + 4) =~= whole.subrange(at, at + 4));
            let index = lemma_occurrence_in_chars(text, pattern, at);
            lemma_empty_line(lines, index);
            assert(text.take(index) =~= front);
        }
    }
    lemma_first_index(whole, head_end(), bytes.len() as int);
}

/// Lines that were joined are parted as they were.
pub proof fn lemma_lines_of_joined(lines: Seq<Seq<char>>)
    requires
        lines.len() > 0,
        are_lines(lines),
    ensures
        lines_of(joined(lines)) == lines,
    decreases lines.len(),
{
    let line = lines[0];
    assert(!occurs(line, crlf()));
    let others = lines.drop_first();
    let text = joined(lines);
    if lines.len() == 1 {
        assert(!occurs(text, crlf()));
        assert(lines =~= seq![line]);
    } else {
        let rest = joined(others);
        lemma_occurs_between(line, crlf(), rest);
        assert forall|at: int| 0 <= at < line.len() implies !occurs_at(text, crlf(), at) by {
            if occurs_at(text, crlf(), at) {
                assert(text.subrange(at, at + 2)[1] == text[at + 1]);
                if at + 1 < line.len() {
                    assert(line.subrange(at, at + 2) =~= text.subrange(at, at + 2));
                    assert(occurs_at(line, crlf(), at));
                }
            }
        }
        lemma_first_index(text, crlf(), line.len() as int);
        lemma_other_lines(lines);
        lemma_lines_of_joined(others);
        assert(lines =~= seq![line] + others);
    }
}

/// The bytes that carry a request are its lines, each with its end, an empty line, and the body it was
/// given, byte for byte; nothing where it was given none.
pub proof fn law_request_is_its_lines(request: RequestView, host: Seq<char>)
    ensures
        request.body matches Some((_, body)) ==> request.encoded(host) == encode_utf8(
            terminated(request_lines(request, host)) + crlf(),
        ) + body,
        request.body is None ==> request.encoded(host) == encode_utf8(
            terminated(request_lines(request, host)) + crlf(),
        ),
{
    lemma_head_is_lines(request, host);
    assert(request.body is None ==> request.encoded(host) =~= encode_utf8(request.head(host)));
}

/// The bytes that carry a request are read as it was made: the first empty line parts its head from
/// the body it was given, of which not a byte is changed, and the lines of the head are those of the
/// request.
pub proof fn law_request_reads_back(request: RequestView, host: Seq<char>)
    requires
        is_plain(request, host),
    ensures
        request.body matches Some((_, body)) ==> split_once(request.encoded(host), head_end())
            == Some((encode_utf8(joined(request_lines(request, host))), body)),
        request.body is None ==> split_once(request.encoded(host), head_end()) == Some(
            (encode_utf8(joined(request_lines(request, host))), Seq::<u8>::empty()),
        ),
        lines_of(joined(request_lines(request, host))) == request_lines(request, host),
{
    law_request_is_its_lines(request, host);
    lemma_request_lines(request, host);
    let lines = request_lines(request, host);
    assert(are_lines(lines)) by {
        assert forall|i: int| 0 <= i < lines.len() implies !occurs(#[trigger] lines[i], crlf()) by {
            assert(is_line(lines[i]));
        }
        assert forall|i: int| 0 < i < lines.len() implies (#[trigger] lines[i]).len() > 0 by {
            assert(is_line(lines[i]));
        }
    }
    let body = match request.body {
        Some((_, body)) => body,
        None => Seq::empty(),
    };
    lemma_bytes_of_lines(lines, body);
    lemma_lines_of_joined(lines);
    if request.body is None {
        let bytes = encode_utf8(terminated(lines) + crlf());
        assert(bytes + Seq::<u8>::empty() =~= bytes);
    }
}

/// A method that says that a body could follow is POST, PUT or PATCH, in any case.
pub proof fn law_three_methods_may_carry_body(method: Seq<char>)
    ensures
        may_carry_body(method) <==> alike(method, "POST"@) || alike(method, "PUT"@) || alike(
            method,
            "PATCH"@,
        ),
{
    law_case_makes_no_other_difference(method, "POST"@);
    law_case_makes_no_other_difference(method, "PUT"@);
    law_case_makes_no_other_difference(method, "PATCH"@);
}

/// The headers in lines are those in the first of them and those in the others.
pub proof fn lemma_fields_concat(a: Seq<Seq<char>>, b: Seq<Seq<char>>)
    ensures
        fields_in(a + b) == fields_in(a) + fields_in(b),
    decreases a.len(),
{
    if a.len() == 0 {
        assert(a + b =~= b);
        assert(fields_in(a) + fields_in(b) =~= fields_in(b));
    } else {
        lemma_fields_concat(a.drop_first(), b);
        assert((a + b).drop_first() =~= a.drop_first() + b);
        assert(fields_in(a + b) =~= fields_in(a) + fields_in(b));
    }
}

/// The header in a line made of a name, a colon, a space and a value.
proof fn lemma_field_in_line(name: Seq<char>, value: Seq<char>)
    requires
        !name.contains(':'),
    ensures
        field_in(name + seq![':', ' '] + value) == Some((name, trimmed(value))),
        fields_in(seq![name + seq![':', ' '] + value]) == seq![(name, trimmed(value))],
{
    let colon = seq![':'];
    let line = name + seq![':', ' '] + value;
    let after = seq![' '] + value;
    assert(line =~= name + colon + after);
    lemma_occurs_between(name, colon, after);
    assert forall|at: int| 0 <= at < name.len() implies !occurs_at(line, colon, at) by {
        if occurs_at(line, colon, at) {
            assert(line.subrange(at, at + 1)[0] == name[at]);
        }
    }
    lemma_first_index(line, colon, name.len() as int);
    assert(after.drop_first() =~= value);
    assert(trim_start(after) == trim_start(value));
    let lines = seq![line];
    assert(lines.drop_first() =~= Seq::empty());
    assert(fields_in(lines.drop_first()) =~= Seq::empty());
    assert(fields_in(lines) =~= seq![(name, trimmed(value))]);
}

/// Every request names its host first, says that the connection is to close after it, and asks for a
/// body that is not encoded.
pub proof fn law_request_names_host_and_closes(request: RequestView, host: Seq<char>)
    ensures
        ({
            let headers = fields_in(request_lines(request, host).drop_first());
            &&& headers.len() >= 3
            &&& headers[0] == ("Host"@, trimmed(host))
            &&& headers[1] == ("Connection"@, "close"@)
            &&& headers[2] == ("Accept-Encoding"@, "identity"@)
        }),
{
    reveal_strlit("Host: ");
    reveal_strlit("Host");
    reveal_strlit("Connection: close");
    reveal_strlit("Connection");
    reveal_strlit("close");
    reveal_strlit("Accept-Encoding: identity");
    reveal_strlit("Accept-Encoding");
    reveal_strlit("identity");
    let lines = request_lines(request, host).drop_first();
    let between = seq![':', ' '];
    let a = seq!["Host"@ + between + host];
    let b = seq!["Connection"@ + between + "close"@];
    let c = seq!["Accept-Encoding"@ + between + "identity"@];
    let rest = lines.skip(3);
    assert(a[0] =~= "Host: "@ + host);
    assert(b[0] =~= "Connection: close"@);
    assert(c[0] =~= "Accept-Encoding: identity"@);
    assert(lines =~= a + b + c + rest);
    lemma_fields_concat(a + b + c, rest);
    lemma_fields_concat(a + b, c);
    lemma_fields_concat(a, b);
    lemma_field_in_line("Host"@, host);
    lemma_field_in_line("Connection"@, "close"@);
    lemma_field_in_line("Accept-Encoding"@, "identity"@);
    assert(trimmed("close"@) == "close"@);
    assert(trimmed("identity"@) == "identity"@);
}

/// The length that a request gives is the length of its body, whatever headers it was given; one
/// that could carry a body and has none gives zero.
pub proof fn law_request_gives_length(request: RequestView, host: Seq<char>)
    requires
        request.body matches Some((_, body)) ==> body.len() <= usize::MAX,
        request.body is Some || may_carry_body(request.method),
    ensures
        content_length(fields_in(request_lines(request, host).drop_first())) == Some(
            match request.body {
                Some((_, body)) => body.len(),
                None => 0,
            },
        ),
{
    reveal_strlit("Content-Length: ");
    reveal_strlit("Content-Length: 0");
    reveal_strlit("Content-Length");
    let lines = request_lines(request, host).drop_first();
    let length = match request.body {
        Some((_, body)) => body.len(),
        None => 0,
    };
    let between = seq![':', ' '];
    let last = seq!["Content-Length"@ + between + decimal(length)];
    let front = lines.drop_last();
    assert(length == 0 ==> decimal(length) =~= seq!['0']);
    assert(last[0] =~= lines.last());
    assert(lines =~= front + last);
    lemma_fields_concat(front, last);
    lemma_field_in_line("Content-Length"@, decimal(length));
    lemma_number_text_reads(length, 10, usize::MAX as nat);
    let headers = fields_in(lines);
    assert(headers.last() == ("Content-Length"@, decimal(length)));
    reveal_strlit("content-length");
    assert(lower("Content-Length"@) =~= lower("content-length"@));
}

} // verus!
