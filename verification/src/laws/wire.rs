//! What a response on the wire says, from the text of its head on.
//!
//! A head is put together here from its parts; the laws say what is read of it.

use vstd::prelude::*;
use vstd::utf8::*;

use crate::error::ErrorView;
use crate::laws::number::{
    counts, law_decimal_counts, law_no_number_is_not_read, law_number_is_read, stands_for,
};
use crate::laws::request::{
    are_lines, joined, lemma_bytes_of_lines, lemma_fields_concat, lemma_lines_of_joined, terminated,
};
use crate::laws::sequence::{
    law_part_is_found_where_it_stands, law_split_undoes_joining, lemma_no_split_without_element,
    lemma_split_at_element, stands,
};
use crate::laws::text::{
    alike, all_blank, is_core, law_case_makes_no_other_difference, law_lower_changes_capitals_alone,
    law_trimming_leaves_the_core, same_letter,
};
use crate::number::{decimal, parse_number};
use crate::response::{
    chunked_body, crlf, crlf_bytes, field_in, fields_in, first_named, has_bad_length, head_end,
    head_of, is_bad_length, is_chunked, last_named, response_in, second_word, status_in, ChunkFault,
    Field, HeadView, ResponseView,
};
use crate::sequence::{occurs, split_once};
use crate::text::lower;

verus! {

/// A line ends with a carriage return and a line feed, and a head with two of them.
pub proof fn law_line_ends()
    ensures
        crlf() == seq!['\r', '\n'],
        crlf_bytes() == seq![13u8, 10u8],
        head_end() == seq![13u8, 10u8, 13u8, 10u8],
{
}

/// A line of a head after the first: a header, or something that is none.
pub enum HeadLine {
    Header { name: Seq<char>, left: Seq<char>, value: Seq<char>, right: Seq<char> },
    Other(Seq<char>),
}

impl HeadLine {
    /// The line as it is sent. A header is its name, a colon, and its value with white space around
    /// it.
    pub open spec fn text(self) -> Seq<char> {
        match self {
            HeadLine::Header { name, left, value, right } => name + seq![':'] + (left + value
                + right),
            HeadLine::Other(text) => text,
        }
    }

    /// The line is what it is said to be: no colon stands in the name of a header or in what is none,
    /// and no line ends before its end.
    pub open spec fn is_sound(self) -> bool {
        &&& self.text().len() > 0
        &&& !occurs(self.text(), crlf())
        &&& match self {
            HeadLine::Header { name, left, value, right } => !name.contains(':') && all_blank(left)
                && is_core(value) && all_blank(right),
            HeadLine::Other(text) => !text.contains(':'),
        }
    }
}

/// All the lines are what they are said to be.
pub open spec fn are_sound(lines: Seq<HeadLine>) -> bool {
    forall|i: int| 0 <= i < lines.len() ==> (#[trigger] lines[i]).is_sound()
}

/// The lines as they are sent.
pub open spec fn texts(lines: Seq<HeadLine>) -> Seq<Seq<char>> {
    lines.map_values(|line: HeadLine| line.text())
}

/// The names and values in the lines, every one of them and in their order.
pub open spec fn told(lines: Seq<HeadLine>) -> Seq<Field>
    decreases lines.len(),
{
    if lines.len() == 0 {
        Seq::empty()
    } else {
        match lines.last() {
            HeadLine::Header { name, value, .. } => told(lines.drop_last()).push((name, value)),
            HeadLine::Other(_) => told(lines.drop_last()),
        }
    }
}

/// The bytes of a response: its first line, its other lines, an empty line, and the rest.
pub open spec fn wire(first: Seq<char>, lines: Seq<HeadLine>, rest: Seq<u8>) -> Seq<u8> {
    encode_utf8(terminated(seq![first] + texts(lines)) + crlf()) + rest
}

/// A status line: a version, a space, a code, and after another space anything.
pub struct StatusLine {
    pub version: Seq<char>,
    pub code: Seq<char>,
    pub tail: Seq<char>,
}

impl StatusLine {
    /// The line as it is sent.
    pub open spec fn text(self) -> Seq<char> {
        self.version + seq![' '] + (self.code + self.tail)
    }

    /// The line is what it is said to be.
    pub open spec fn is_sound(self) -> bool {
        &&& !self.version.contains(' ')
        &&& !self.code.contains(' ')
        &&& self.tail.len() > 0 ==> self.tail[0] == ' '
        &&& !occurs(self.text(), crlf())
    }
}

/// The header has this name, in any case.
pub open spec fn is_named(field: Field, name: Seq<char>) -> bool {
    alike(field.0, name)
}

/// No header has this name.
pub open spec fn none_named(headers: Seq<Field>, name: Seq<char>) -> bool {
    forall|i: int| 0 <= i < headers.len() ==> !is_named(#[trigger] headers[i], name)
}

/// The last header with this name is the one at this index.
pub open spec fn is_last_named(headers: Seq<Field>, name: Seq<char>, at: int) -> bool {
    &&& 0 <= at < headers.len()
    &&& is_named(headers[at], name)
    &&& forall|i: int| at < i < headers.len() ==> !is_named(#[trigger] headers[i], name)
}

/// The text is a number of bytes that the machine can count.
pub open spec fn is_length(text: Seq<char>, length: nat) -> bool {
    stands_for(text, 10, length) && length <= usize::MAX
}

/// Some header named `Content-Length` has a value that is no length.
pub open spec fn misses_length(headers: Seq<Field>) -> bool {
    exists|i: int|
        0 <= i < headers.len() && is_named(#[trigger] headers[i], "content-length"@) && forall|n: nat|
            !is_length(headers[i].1, n)
}

/// `chunked` stands in the text, in any case.
pub open spec fn speaks_of_chunks(text: Seq<char>) -> bool {
    exists|at: int|
        0 <= at <= text.len() - 7 && #[trigger] alike(text.subrange(at, at + 7), "chunked"@)
}

/// The last header named `Transfer-Encoding` speaks of chunks.
pub open spec fn comes_in_chunks(headers: Seq<Field>) -> bool {
    exists|at: int| #[trigger]
        is_last_named(headers, "transfer-encoding"@, at) && speaks_of_chunks(headers[at].1)
}

/// The response has no body, whatever its headers say.
pub open spec fn has_no_body(status: nat, head_request: bool) -> bool {
    head_request || status / 100 == 1 || status == 204 || status == 304
}

/// The head of a response with this status and these headers.
pub open spec fn is_good_head(first: StatusLine, lines: Seq<HeadLine>, status: nat) -> bool {
    &&& first.is_sound()
    &&& are_sound(lines)
    &&& stands_for(first.code, 10, status)
    &&& status <= 65535
    &&& !misses_length(told(lines))
}

/// The response with this status, these headers and this body.
pub open spec fn response_of(status: nat, lines: Seq<HeadLine>, body: Seq<u8>) -> Result<
    Option<ResponseView>,
    ErrorView,
> {
    Ok(Some(ResponseView { status: status as u16, headers: told(lines), body }))
}

/// More is needed.
pub open spec fn waiting() -> Result<Option<ResponseView>, ErrorView> {
    Ok(None)
}

/// The response is malformed.
pub open spec fn malformed(detail: Seq<char>) -> Result<Option<ResponseView>, ErrorView> {
    Err(ErrorView::Protocol(detail))
}

/// The header in a line, or none.
proof fn lemma_line_is_read(line: HeadLine)
    requires
        line.is_sound(),
    ensures
        fields_in(seq![line.text()]) == told(seq![line]),
{
    let lines = seq![line];
    let sent = seq![line.text()];
    assert(sent.drop_first() =~= Seq::empty());
    assert(fields_in(sent.drop_first()) =~= Seq::empty());
    assert(lines.drop_last() =~= Seq::empty());
    assert(told(lines.drop_last()) =~= Seq::empty());
    match line {
        HeadLine::Header { name, left, value, right } => {
            lemma_split_at_element(name, ':', left + value + right);
            law_trimming_leaves_the_core(left, value, right);
            assert(field_in(line.text()) == Some((name, value)));
            assert(fields_in(sent) =~= told(lines));
        },
        HeadLine::Other(text) => {
            lemma_no_split_without_element(text, ':');
            assert(field_in(text) is None);
            assert(fields_in(sent) =~= told(lines));
        },
    }
}

/// The headers in lines are all that they tell.
proof fn lemma_lines_are_read(lines: Seq<HeadLine>)
    requires
        are_sound(lines),
    ensures
        fields_in(texts(lines)) == told(lines),
    decreases lines.len(),
{
    if lines.len() == 0 {
        assert(texts(lines) =~= Seq::empty());
        assert(fields_in(texts(lines)) =~= told(lines));
    } else {
        let front = lines.drop_last();
        let last = lines.last();
        assert(lines[lines.len() - 1].is_sound());
        assert(are_sound(front)) by {
            assert forall|i: int| 0 <= i < front.len() implies (#[trigger] front[i]).is_sound() by {
                assert(front[i] == lines[i]);
            }
        }
        lemma_lines_are_read(front);
        lemma_line_is_read(last);
        assert(texts(lines) =~= texts(front) + seq![last.text()]);
        lemma_fields_concat(texts(front), seq![last.text()]);
        let one = seq![last];
        assert(one.drop_last() =~= Seq::empty());
        assert(told(one.drop_last()) =~= Seq::empty());
        assert(told(lines) =~= told(front) + told(one));
    }
}

/// The bytes of a response are parted where its head ends, and its head into its lines.
proof fn lemma_wire_is_parted(first: Seq<char>, lines: Seq<HeadLine>, rest: Seq<u8>)
    requires
        !occurs(first, crlf()),
        are_sound(lines),
    ensures
        ({
            let text = joined(seq![first] + texts(lines));
            &&& split_once(wire(first, lines, rest), head_end()) == Some((encode_utf8(text), rest))
            &&& valid_utf8(encode_utf8(text))
            &&& decode_utf8(encode_utf8(text)) == text
            &&& head_of(text) == match status_in(first) {
                Some(status) => if has_bad_length(told(lines)) {
                    Err(ErrorView::Protocol("bad Content-Length"@))
                } else {
                    Ok(HeadView { status, headers: told(lines) })
                },
                None => Err(ErrorView::Protocol("bad status line"@)),
            }
        }),
{
    let all = seq![first] + texts(lines);
    assert forall|i: int| 0 <= i < all.len() implies !occurs(#[trigger] all[i], crlf()) by {
        if i > 0 {
            assert(all[i] == lines[i - 1].text());
            assert(lines[i - 1].is_sound());
        }
    }
    assert forall|i: int| 0 < i < all.len() implies (#[trigger] all[i]).len() > 0 by {
        assert(all[i] == lines[i - 1].text());
        assert(lines[i - 1].is_sound());
    }
    assert(are_lines(all));
    lemma_bytes_of_lines(all, rest);
    lemma_lines_of_joined(all);
    lemma_lines_are_read(lines);
    let text = joined(all);
    encode_utf8_valid_utf8(text);
    encode_utf8_decode_utf8(text);
    assert(all.drop_first() =~= texts(lines));
    assert(all[0] == first);
}

/// The status in a line is the number that its code is.
proof fn lemma_status_is_read(first: StatusLine)
    requires
        first.is_sound(),
    ensures
        status_in(first.text()) == parse_number(first.code, 10, 65535),
{
    let after = first.code + first.tail;
    lemma_split_at_element(first.version, ' ', after);
    if first.tail.len() == 0 {
        assert(after =~= first.code);
        lemma_no_split_without_element(after, ' ');
    } else {
        let tail = first.tail.skip(1);
        assert(after =~= first.code + seq![' '] + tail);
        lemma_split_at_element(first.code, ' ', tail);
    }
    assert(second_word(first.text()) == Some(first.code));
}

/// A `Content-Length` whose value is no length is told as one.
proof fn lemma_bad_length_is_told(headers: Seq<Field>)
    ensures
        has_bad_length(headers) <==> misses_length(headers),
{
    assert forall|i: int| 0 <= i < headers.len() implies (is_bad_length(#[trigger] headers[i])
        <==> is_named(headers[i], "content-length"@) && forall|n: nat| !is_length(
        headers[i].1,
        n,
    )) by {
        law_case_makes_no_other_difference(headers[i].0, "content-length"@);
        law_no_number_is_not_read(headers[i].1, 10, usize::MAX as nat);
        assert((forall|n: nat| !is_length(headers[i].1, n)) <==> (forall|n: nat|
            n <= usize::MAX ==> !stands_for(headers[i].1, 10, n))) by {
            if forall|n: nat| !is_length(headers[i].1, n) {
                assert forall|n: nat| n <= usize::MAX implies !stands_for(headers[i].1, 10, n) by {
                    assert(!is_length(headers[i].1, n));
                }
            }
        }
    }
}

/// The value of the last header of a name.
proof fn lemma_last_named(headers: Seq<Field>, name: Seq<char>)
    ensures
        last_named(headers, name) is None <==> none_named(headers, name),
        forall|at: int| #[trigger]
            is_last_named(headers, name, at) ==> last_named(headers, name) == Some(headers[at].1),
        last_named(headers, name) is Some ==> exists|at: int| is_last_named(headers, name, at),
    decreases headers.len(),
{
    if headers.len() > 0 {
        let front = headers.drop_last();
        let end = headers.len() - 1;
        law_case_makes_no_other_difference(headers[end].0, name);
        lemma_last_named(front, name);
        assert(headers.last() == headers[end]);
        if is_named(headers[end], name) {
            assert(is_last_named(headers, name, end));
            assert forall|at: int| #[trigger] is_last_named(headers, name, at) implies at == end by {
                if at < end {
                    assert(!is_named(headers[end], name));
                }
            }
        } else {
            assert forall|at: int| #[trigger] is_last_named(headers, name, at) implies is_last_named(
                front,
                name,
                at,
            ) && front[at] == headers[at] by {
                assert forall|i: int| at < i < front.len() implies !is_named(
                    #[trigger] front[i],
                    name,
                ) by {
                    assert(front[i] == headers[i]);
                }
            }
            if none_named(front, name) {
                assert forall|i: int| 0 <= i < headers.len() implies !is_named(
                    #[trigger] headers[i],
                    name,
                ) by {
                    if i < end {
                        assert(front[i] == headers[i]);
                    }
                }
            }
            if none_named(headers, name) {
                assert forall|i: int| 0 <= i < front.len() implies !is_named(
                    #[trigger] front[i],
                    name,
                ) by {
                    assert(front[i] == headers[i]);
                }
            }
            if last_named(front, name) is Some {
                let at = choose|at: int| is_last_named(front, name, at);
                assert(is_last_named(headers, name, at)) by {
                    assert(front[at] == headers[at]);
                    assert forall|i: int| at < i < headers.len() implies !is_named(
                        #[trigger] headers[i],
                        name,
                    ) by {
                        if i < end {
                            assert(front[i] == headers[i]);
                        }
                    }
                }
            }
        }
    }
}

/// A value speaks of chunks where its small form holds the word.
proof fn lemma_speaks_of_chunks(text: Seq<char>)
    ensures
        occurs(lower(text), "chunked"@) <==> speaks_of_chunks(text),
{
    reveal_strlit("chunked");
    let word = "chunked"@;
    law_part_is_found_where_it_stands(lower(text), word);
    law_lower_changes_capitals_alone(text);
    assert forall|at: int| 0 <= at <= text.len() - 7 implies (stands(lower(text), word, at)
        <==> #[trigger] alike(text.subrange(at, at + 7), word)) by {
        let part = text.subrange(at, at + 7);
        assert forall|i: int| 0 <= i < 7 implies (lower(text)[at + i] == #[trigger] word[i]
            <==> same_letter(part[i], word[i])) by {
            assert(part[i] == text[at + i]);
            assert(!('A' <= word[i] <= 'Z'));
            lemma_small_letter(text[at + i], lower(text)[at + i], word[i]);
        }
        if stands(lower(text), word, at) {
            assert forall|i: int| 0 <= i < 7 implies same_letter(#[trigger] part[i], word[i]) by {
                assert(lower(text)[at + i] == word[i]);
            }
        }
        if alike(part, word) {
            assert forall|i: int| 0 <= i < 7 implies lower(text)[at + i] == #[trigger] word[i] by {
                assert(same_letter(part[i], word[i]));
            }
        }
    }
    if exists|at: int| stands(lower(text), word, at) {
        let at = choose|at: int| stands(lower(text), word, at);
        assert(alike(text.subrange(at, at + 7), word));
    }
    if speaks_of_chunks(text) {
        let at = choose|at: int|
            0 <= at <= text.len() - 7 && #[trigger] alike(text.subrange(at, at + 7), word);
        assert(stands(lower(text), word, at));
    }
}

/// A character whose small form is a small letter is that letter, in either case.
proof fn lemma_small_letter(c: char, small: char, letter: char)
    requires
        !('A' <= letter <= 'Z'),
        'A' <= c <= 'Z' ==> small as int == c as int + 32,
        !('A' <= c <= 'Z') ==> small == c,
    ensures
        small == letter <==> same_letter(c, letter),
{
}

/// Headers say that the body comes in chunks where the last of them on the matter does.
proof fn lemma_comes_in_chunks(headers: Seq<Field>)
    ensures
        is_chunked(headers) <==> comes_in_chunks(headers),
{
    let name = "transfer-encoding"@;
    lemma_last_named(headers, name);
    if last_named(headers, name) is Some {
        let at = choose|at: int| is_last_named(headers, name, at);
        assert(is_last_named(headers, name, at));
        lemma_speaks_of_chunks(headers[at].1);
        assert forall|other: int| #[trigger] is_last_named(headers, name, other) implies headers[other].1
            == headers[at].1 by {}
    } else {
        assert forall|at: int| !#[trigger] is_last_named(headers, name, at) by {
            if is_last_named(headers, name, at) {
                assert(is_named(headers[at], name));
            }
        }
    }
}

/// What is read of a good head is all that it tells.
proof fn lemma_good_head(first: StatusLine, lines: Seq<HeadLine>, status: nat, rest: Seq<u8>)
    requires
        is_good_head(first, lines, status),
    ensures
        ({
            let text = joined(seq![first.text()] + texts(lines));
            &&& split_once(wire(first.text(), lines, rest), head_end()) == Some(
                (encode_utf8(text), rest),
            )
            &&& valid_utf8(encode_utf8(text))
            &&& decode_utf8(encode_utf8(text)) == text
            &&& head_of(text) == Ok::<HeadView, ErrorView>(
                HeadView { status, headers: told(lines) },
            )
        }),
{
    lemma_wire_is_parted(first.text(), lines, rest);
    lemma_status_is_read(first);
    law_number_is_read(first.code, 10, 65535, status);
    lemma_bad_length_is_told(told(lines));
}

/// A head made of a status line and of any number of other lines is read as the status that the code
/// stands for, and as exactly the names and the trimmed values of the headers among those lines, all
/// of them and in their order.
pub proof fn law_head_is_read(first: StatusLine, lines: Seq<HeadLine>, status: nat)
    requires
        is_good_head(first, lines, status),
    ensures
        head_of(joined(seq![first.text()] + texts(lines))) == Ok::<HeadView, ErrorView>(
            HeadView { status, headers: told(lines) },
        ),
{
    lemma_good_head(first, lines, status, Seq::empty());
}

/// As many headers are told as there are lines with one: a line more tells its header more, and leaves
/// those before it as they are.
pub proof fn law_every_header_is_told(
    lines: Seq<HeadLine>,
    name: Seq<char>,
    left: Seq<char>,
    value: Seq<char>,
    right: Seq<char>,
)
    ensures
        told(lines.push(HeadLine::Header { name, left, value, right })) == told(lines).push(
            (name, value),
        ),
        told(Seq::empty()) == Seq::<Field>::empty(),
{
    let line = HeadLine::Header { name, left, value, right };
    assert(lines.push(line).drop_last() =~= lines);
}

/// A first line whose second word is no status is refused, and so is one that has no second word.
pub proof fn law_bad_status_is_refused(
    first: StatusLine,
    line: Seq<char>,
    lines: Seq<HeadLine>,
    rest: Seq<u8>,
    at_eof: bool,
    head_request: bool,
)
    requires
        are_sound(lines),
    ensures
        first.is_sound() && (forall|n: nat| n <= 65535 ==> !stands_for(first.code, 10, n))
            ==> response_in(wire(first.text(), lines, rest), at_eof, head_request) == malformed(
            "bad status line"@,
        ),
        !line.contains(' ') && !occurs(line, crlf()) ==> response_in(
            wire(line, lines, rest),
            at_eof,
            head_request,
        ) == malformed("bad status line"@),
{
    if first.is_sound() && forall|n: nat| n <= 65535 ==> !stands_for(first.code, 10, n) {
        lemma_wire_is_parted(first.text(), lines, rest);
        lemma_status_is_read(first);
        law_no_number_is_not_read(first.code, 10, 65535);
    }
    if !line.contains(' ') && !occurs(line, crlf()) {
        lemma_wire_is_parted(line, lines, rest);
        lemma_no_split_without_element(line, ' ');
    }
}

/// A `Content-Length` that is no length is refused, whichever of the headers it is.
pub proof fn law_bad_length_is_refused(
    first: StatusLine,
    lines: Seq<HeadLine>,
    status: nat,
    rest: Seq<u8>,
    at_eof: bool,
    head_request: bool,
)
    requires
        first.is_sound(),
        are_sound(lines),
        stands_for(first.code, 10, status),
        status <= 65535,
        misses_length(told(lines)),
    ensures
        response_in(wire(first.text(), lines, rest), at_eof, head_request) == malformed(
            "bad Content-Length"@,
        ),
{
    lemma_wire_is_parted(first.text(), lines, rest);
    lemma_status_is_read(first);
    law_number_is_read(first.code, 10, 65535, status);
    lemma_bad_length_is_told(told(lines));
}

/// A head that is not UTF-8 is refused.
pub proof fn law_head_in_other_bytes_is_refused(
    head: Seq<u8>,
    rest: Seq<u8>,
    at_eof: bool,
    head_request: bool,
)
    requires
        !valid_utf8(head),
        forall|at: int|
            0 <= at < head.len() ==> !stands(
                head + seq![13u8, 10u8, 13u8, 10u8] + rest,
                seq![13u8, 10u8, 13u8, 10u8],
                at,
            ),
    ensures
        response_in(head + seq![13u8, 10u8, 13u8, 10u8] + rest, at_eof, head_request) == malformed(
            "headers are not UTF-8"@,
        ),
{
    law_split_undoes_joining(
        head + seq![13u8, 10u8, 13u8, 10u8] + rest,
        head_end(),
        head,
        rest,
    );
}

/// A response that can have no body is complete with its head, and what follows is not its body.
pub proof fn law_no_body_is_read(
    first: StatusLine,
    lines: Seq<HeadLine>,
    status: nat,
    rest: Seq<u8>,
    at_eof: bool,
    head_request: bool,
)
    requires
        is_good_head(first, lines, status),
        has_no_body(status, head_request),
    ensures
        response_in(wire(first.text(), lines, rest), at_eof, head_request) == response_of(
            status,
            lines,
            Seq::empty(),
        ),
{
    lemma_good_head(first, lines, status, rest);
}

/// Where the last `Content-Length` stands for a number of bytes, the body is exactly that many of the
/// bytes after the head; it waits while they are fewer, and is an error where no more will come.
pub proof fn law_length_is_read(
    first: StatusLine,
    lines: Seq<HeadLine>,
    status: nat,
    at: int,
    length: nat,
    rest: Seq<u8>,
    at_eof: bool,
    head_request: bool,
)
    requires
        is_good_head(first, lines, status),
        !has_no_body(status, head_request),
        !comes_in_chunks(told(lines)),
        is_last_named(told(lines), "content-length"@, at),
        is_length(told(lines)[at].1, length),
    ensures
        response_in(wire(first.text(), lines, rest), at_eof, head_request) == if rest.len()
            >= length {
            response_of(status, lines, rest.take(length as int))
        } else if at_eof {
            malformed("connection closed before the body ended"@)
        } else {
            waiting()
        },
{
    lemma_good_head(first, lines, status, rest);
    lemma_comes_in_chunks(told(lines));
    lemma_last_named(told(lines), "content-length"@);
    law_number_is_read(told(lines)[at].1, 10, usize::MAX as nat, length);
}

/// The same of a length in decimal.
pub proof fn law_decimal_length_is_read(
    first: StatusLine,
    lines: Seq<HeadLine>,
    status: nat,
    at: int,
    length: nat,
    rest: Seq<u8>,
    at_eof: bool,
    head_request: bool,
)
    requires
        is_good_head(first, lines, status),
        !has_no_body(status, head_request),
        !comes_in_chunks(told(lines)),
        is_last_named(told(lines), "content-length"@, at),
        told(lines)[at].1 == decimal(length),
        length <= usize::MAX,
    ensures
        counts(decimal(length), 10, length),
        response_in(wire(first.text(), lines, rest), at_eof, head_request) == if rest.len()
            >= length {
            response_of(status, lines, rest.take(length as int))
        } else if at_eof {
            malformed("connection closed before the body ended"@)
        } else {
            waiting()
        },
{
    law_decimal_counts(length);
    law_length_is_read(first, lines, status, at, length, rest, at_eof, head_request);
}

/// Where the last `Transfer-Encoding` speaks of chunks, the body is what the chunks make up, whatever
/// length is given.
pub proof fn law_chunks_are_read(
    first: StatusLine,
    lines: Seq<HeadLine>,
    status: nat,
    rest: Seq<u8>,
    at_eof: bool,
    head_request: bool,
)
    requires
        is_good_head(first, lines, status),
        !has_no_body(status, head_request),
        comes_in_chunks(told(lines)),
    ensures
        response_in(wire(first.text(), lines, rest), at_eof, head_request) == match chunked_body(
            rest,
        ) {
            Ok(Some(body)) => response_of(status, lines, body),
            Ok(None) => if at_eof {
                malformed("connection closed inside a chunked body"@)
            } else {
                waiting()
            },
            Err(ChunkFault::NotUtf8) => malformed("chunk size is not UTF-8"@),
            Err(ChunkFault::BadSize(_)) => malformed("bad chunk size"@),
        },
{
    lemma_good_head(first, lines, status, rest);
    lemma_comes_in_chunks(told(lines));
}

/// Where neither length nor chunks are spoken of, the body is all that follows the head until the
/// connection closes.
pub proof fn law_rest_is_read(
    first: StatusLine,
    lines: Seq<HeadLine>,
    status: nat,
    rest: Seq<u8>,
    at_eof: bool,
    head_request: bool,
)
    requires
        is_good_head(first, lines, status),
        !has_no_body(status, head_request),
        !comes_in_chunks(told(lines)),
        none_named(told(lines), "content-length"@),
    ensures
        response_in(wire(first.text(), lines, rest), at_eof, head_request) == if at_eof {
            response_of(status, lines, rest)
        } else {
            waiting()
        },
{
    lemma_good_head(first, lines, status, rest);
    lemma_comes_in_chunks(told(lines));
    lemma_last_named(told(lines), "content-length"@);
}

/// The header that is found by a name is the first of that name, in any case.
pub proof fn law_header_is_found(headers: Seq<Field>, name: Seq<char>, at: int)
    requires
        0 <= at < headers.len(),
        is_named(headers[at], name),
        forall|i: int| 0 <= i < at ==> !is_named(#[trigger] headers[i], name),
    ensures
        first_named(headers, name) == Some(headers[at].1),
    decreases headers.len(),
{
    law_case_makes_no_other_difference(headers[0].0, name);
    if at > 0 {
        assert(!is_named(headers[0], name));
        let others = headers.drop_first();
        assert forall|i: int| 0 <= i < at - 1 implies !is_named(#[trigger] others[i], name) by {
            assert(others[i] == headers[i + 1]);
        }
        law_header_is_found(others, name, at - 1);
    }
}

/// No header is found by a name that none has.
pub proof fn law_no_header_is_found(headers: Seq<Field>, name: Seq<char>)
    requires
        none_named(headers, name),
    ensures
        first_named(headers, name) is None,
    decreases headers.len(),
{
    if headers.len() > 0 {
        assert(!is_named(headers[0], name));
        law_case_makes_no_other_difference(headers[0].0, name);
        let others = headers.drop_first();
        assert forall|i: int| 0 <= i < others.len() implies !is_named(#[trigger] others[i], name) by {
            assert(others[i] == headers[i + 1]);
        }
        law_no_header_is_found(others, name);
    }
}

} // verus!
