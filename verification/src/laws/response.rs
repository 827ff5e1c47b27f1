//! What holds of responses.

use vstd::prelude::*;
use vstd::utf8::*;

use crate::encoding::lemma_occurrence_in_chars;
use crate::error::ErrorView;
use crate::number::{
    digit_value, lemma_number_text_reads, lemma_number_text_value, number_text,
};
use crate::response::{
    after_chunk, chunk_size, chunked_body, crlf, crlf_bytes, first_named, framing, head_end,
    head_of, is_bodiless, response_in, ChunkFault, Field, Framing, HeadView,
    ResponseView,
};
use crate::sequence::{
    first_index, is_first, lemma_first_index, lemma_occurrence_has_first, lemma_occurs_between,
    lemma_split_of_longer, occurs, occurs_at, split_once,
};
use crate::text::same_ignoring_case;

verus! {

/// Chunks that settle what the body is, or that it is malformed, settle it whatever follows them.
proof fn lemma_chunks_settled(bytes: Seq<u8>, more: Seq<u8>)
    requires
        chunked_body(bytes) != Ok::<Option<Seq<u8>>, ChunkFault>(None),
    ensures
        chunked_body(bytes + more) == chunked_body(bytes),
    decreases bytes.len(),
{
    lemma_split_of_longer(bytes, more, crlf_bytes());
    let (line, rest) = split_once(bytes, crlf_bytes())->0;
    if valid_utf8(line) {
        if let Some(size) = chunk_size(decode_utf8(line)) {
            if size > 0 {
                assert(rest.len() >= size + 2);
                assert((rest + more).take(size as int) =~= rest.take(size as int));
                assert((rest + more).skip(size as int + 2) =~= rest.skip(size as int + 2) + more);
                lemma_chunks_settled(rest.skip(size as int + 2), more);
            }
        }
    }
}

/// Once the bytes received settle what the response is, or that it is malformed, that stands:
/// neither more bytes nor the end of the connection change it.
pub proof fn law_settled_response_stands(
    buffer: Seq<u8>,
    more: Seq<u8>,
    at_eof: bool,
    head_request: bool,
)
    requires
        response_in(buffer, false, head_request) != Ok::<Option<ResponseView>, ErrorView>(None),
    ensures
        response_in(buffer + more, at_eof, head_request) == response_in(
            buffer,
            false,
            head_request,
        ),
{
    lemma_split_of_longer(buffer, more, head_end());
    let (head, rest) = split_once(buffer, head_end())->0;
    if valid_utf8(head) {
        if let Ok(head) = head_of(decode_utf8(head)) {
            match framing(head, head_request) {
                Framing::Chunked => {
                    lemma_chunks_settled(rest, more);
                },
                Framing::Length(length) => {
                    assert((rest + more).take(length as int) =~= rest.take(length as int));
                },
                _ => {},
            }
        }
    }
}

/// The end of the connection always settles it: there is a response, or an error.
pub proof fn law_end_settles(buffer: Seq<u8>, head_request: bool)
    ensures
        response_in(buffer, true, head_request) != Ok::<Option<ResponseView>, ErrorView>(None),
{
}

/// A response waits for the end of its headers, and is an error where the connection closes before
/// it.
pub proof fn law_headers_wait_for_their_end(buffer: Seq<u8>, head_request: bool)
    requires
        !occurs(buffer, head_end()),
    ensures
        response_in(buffer, false, head_request) == Ok::<Option<ResponseView>, ErrorView>(None),
        response_in(buffer, true, head_request) == Err::<Option<ResponseView>, ErrorView>(
            ErrorView::Protocol("connection closed before the headers ended"@),
        ),
{
    assert forall|at: int| !is_first(buffer, head_end(), at) by {
        if is_first(buffer, head_end(), at) {
            assert(occurs_at(buffer, head_end(), at));
        }
    }
}

/// `head` is what stands before the body of a response that says `said`.
pub open spec fn is_head(head: Seq<u8>, said: HeadView) -> bool {
    &&& first_index(head + head_end(), head_end()) == Some(head.len() as int)
    &&& valid_utf8(head)
    &&& head_of(decode_utf8(head)) == Ok::<HeadView, ErrorView>(said)
}

/// A response that says `said` and has the given body.
pub open spec fn response_with(said: HeadView, body: Seq<u8>) -> ResponseView {
    ResponseView { status: said.status as u16, headers: said.headers, body }
}

/// What is read after a head depends on what follows it alone.
proof fn lemma_after_head(head: Seq<u8>, said: HeadView, rest: Seq<u8>)
    requires
        is_head(head, said),
    ensures
        split_once(head + head_end() + rest, head_end()) == Some((head, rest)),
{
    lemma_split_of_longer(head + head_end(), rest, head_end());
    assert((head + head_end()).take(head.len() as int) =~= head);
    assert((head + head_end()).skip(head.len() as int + 4) + rest =~= rest);
}

/// A response to HEAD, and one with a 1xx, 204 or 304 status, has no body, whatever its headers say
/// and whatever follows them; it is complete as soon as its headers are.
pub proof fn law_bodiless_response(
    head: Seq<u8>,
    said: HeadView,
    rest: Seq<u8>,
    at_eof: bool,
    head_request: bool,
)
    requires
        is_head(head, said),
        is_bodiless(said.status, head_request),
    ensures
        response_in(head + head_end() + rest, at_eof, head_request) == Ok::<
            Option<ResponseView>,
            ErrorView,
        >(Some(response_with(said, Seq::empty()))),
{
    lemma_after_head(head, said, rest);
}

/// A body with a length waits for every byte, is an error where the connection closes before the
/// last of them, and once they are there is exactly those bytes, whatever follows.
pub proof fn law_length_waits_for_every_byte(
    head: Seq<u8>,
    said: HeadView,
    length: nat,
    rest: Seq<u8>,
    head_request: bool,
)
    requires
        is_head(head, said),
        framing(said, head_request) == Framing::Length(length),
    ensures
        rest.len() < length ==> {
            &&& response_in(head + head_end() + rest, false, head_request) == Ok::<
                Option<ResponseView>,
                ErrorView,
            >(None)
            &&& response_in(head + head_end() + rest, true, head_request) == Err::<
                Option<ResponseView>,
                ErrorView,
            >(ErrorView::Protocol("connection closed before the body ended"@))
        },
        rest.len() >= length ==> forall|at_eof: bool| #[trigger]
            response_in(head + head_end() + rest, at_eof, head_request) == Ok::<
                Option<ResponseView>,
                ErrorView,
            >(Some(response_with(said, rest.take(length as int)))),
{
    lemma_after_head(head, said, rest);
}

/// A body framed by neither length nor chunking ends where the connection does, and not before.
pub proof fn law_unframed_body_ends_at_eof(
    head: Seq<u8>,
    said: HeadView,
    rest: Seq<u8>,
    head_request: bool,
)
    requires
        is_head(head, said),
        framing(said, head_request) == Framing::UntilClose,
    ensures
        response_in(head + head_end() + rest, false, head_request) == Ok::<
            Option<ResponseView>,
            ErrorView,
        >(None),
        response_in(head + head_end() + rest, true, head_request) == Ok::<
            Option<ResponseView>,
            ErrorView,
        >(Some(response_with(said, rest))),
{
    lemma_after_head(head, said, rest);
}

/// A chunk of a body: the line that gives its size, and its bytes.
pub struct Chunk {
    pub line: Seq<char>,
    pub data: Seq<u8>,
}

/// A line that gives a size.
pub open spec fn is_size_line(line: Seq<char>, size: nat) -> bool {
    chunk_size(line) == Some(size) && !occurs(line, crlf())
}

/// A chunk that can be sent: it is not empty, and its line gives its size.
pub open spec fn is_chunk(chunk: Chunk) -> bool {
    chunk.data.len() > 0 && is_size_line(chunk.line, chunk.data.len())
}

/// The bytes of a line and its end.
pub open spec fn line_bytes(line: Seq<char>) -> Seq<u8> {
    encode_utf8(line) + crlf_bytes()
}

/// The bytes that carry chunks.
pub open spec fn chunks_bytes(chunks: Seq<Chunk>) -> Seq<u8>
    decreases chunks.len(),
{
    if chunks.len() == 0 {
        Seq::empty()
    } else {
        line_bytes(chunks[0].line) + (chunks[0].data + crlf_bytes() + chunks_bytes(
            chunks.drop_first(),
        ))
    }
}

/// The bytes that chunks make up.
pub open spec fn chunks_data(chunks: Seq<Chunk>) -> Seq<u8>
    decreases chunks.len(),
{
    if chunks.len() == 0 {
        Seq::empty()
    } else {
        chunks[0].data + chunks_data(chunks.drop_first())
    }
}

/// A line that no end of line cuts ends at the one that follows it.
proof fn lemma_line_ends(line: Seq<char>, rest: Seq<u8>)
    requires
        !occurs(line, crlf()),
    ensures
        split_once(line_bytes(line) + rest, crlf_bytes()) == Some((encode_utf8(line), rest)),
        valid_utf8(encode_utf8(line)),
        decode_utf8(encode_utf8(line)) == line,
{
    let bytes = encode_utf8(line);
    let whole = line_bytes(line) + rest;
    encode_utf8_valid_utf8(line);
    encode_utf8_decode_utf8(line);
    is_ascii_chars_encode_utf8(crlf());
    assert(encode_utf8(crlf()) =~= crlf_bytes()) by {
        assert(crlf()[0] as u8 == encode_utf8(crlf())[0]);
        assert(crlf()[1] as u8 == encode_utf8(crlf())[1]);
    }
    lemma_occurs_between(bytes, crlf_bytes(), rest);
    assert forall|at: int| 0 <= at < bytes.len() implies !occurs_at(whole, crlf_bytes(), at) by {
        if occurs_at(whole, crlf_bytes(), at) {
            assert(whole.subrange(at, at + 2)[1] == whole[at + 1]);
            if at + 1 < bytes.len() {
                assert(bytes.subrange(at, at + 2) =~= whole.subrange(at, at + 2));
                let index = lemma_occurrence_in_chars(line, crlf(), at);
            }
        }
    }
    lemma_first_index(whole, crlf_bytes(), bytes.len() as int);
}

/// A size in hexadecimal is read as that size, with or without an extension after a semicolon.
pub proof fn law_hexadecimal_size_is_read(size: nat, extension: Seq<char>)
    requires
        size <= usize::MAX,
        extension.len() > 0 ==> extension[0] == ';',
    ensures
        chunk_size(number_text(size, 16) + extension) == Some(size),
{
    let digits = number_text(size, 16);
    let line = digits + extension;
    let semicolon = seq![';'];
    lemma_number_text_value(size, 16);
    lemma_number_text_reads(size, 16, usize::MAX as nat);
    assert forall|at: int| 0 <= at < digits.len() implies !occurs_at(line, semicolon, at) by {
        if occurs_at(line, semicolon, at) {
            assert(line.subrange(at, at + 1)[0] == digits[at]);
            assert(digit_value(digits[at], 16) is Some);
        }
    }
    if extension.len() == 0 {
        assert(line =~= digits);
    } else {
        assert(line.subrange(digits.len() as int, digits.len() as int + 1) =~= semicolon);
        lemma_first_index(line, semicolon, digits.len() as int);
        assert(line.take(digits.len() as int) =~= digits);
    }
}

/// A body that was sent in chunks is the chunks put together, whatever their sizes and whatever
/// follows the empty chunk that ends it.
pub proof fn law_chunked_body_is_reassembled(
    chunks: Seq<Chunk>,
    last_line: Seq<char>,
    trailer: Seq<u8>,
)
    requires
        forall|i: int| 0 <= i < chunks.len() ==> is_chunk(#[trigger] chunks[i]),
        is_size_line(last_line, 0),
    ensures
        chunked_body(chunks_bytes(chunks) + (line_bytes(last_line) + trailer)) == Ok::<
            Option<Seq<u8>>,
            ChunkFault,
        >(Some(chunks_data(chunks))),
    decreases chunks.len(),
{
    let end = line_bytes(last_line) + trailer;
    if chunks.len() == 0 {
        assert(chunks_bytes(chunks) + end =~= end);
        lemma_line_ends(last_line, trailer);
    } else {
        assert(is_chunk(chunks[0]));
        lemma_first_chunk(chunks, end);
        law_chunked_body_is_reassembled(chunks.drop_first(), last_line, trailer);
    }
}

/// Fewer bytes than a line and its end hold no end of line.
proof fn lemma_line_waits(line: Seq<char>, rest: Seq<u8>, k: int)
    requires
        !occurs(line, crlf()),
        0 <= k < line_bytes(line).len(),
    ensures
        split_once((line_bytes(line) + rest).take(k), crlf_bytes()) is None,
{
    let whole = line_bytes(line) + rest;
    let part = whole.take(k);
    lemma_line_ends(line, rest);
    assert forall|at: int| !occurs_at(part, crlf_bytes(), at) by {
        if occurs_at(part, crlf_bytes(), at) {
            assert(whole.subrange(at, at + 2) =~= part.subrange(at, at + 2));
            assert(occurs_at(whole, crlf_bytes(), at));
            assert(is_first(whole, crlf_bytes(), encode_utf8(line).len() as int)) by {
                lemma_occurrence_has_first(whole, crlf_bytes(), at);
                assert(whole.take(first_index(whole, crlf_bytes())->0) == encode_utf8(line));
            }
        }
    }
}

/// Chunks are not a whole body until the empty one that ends them has arrived: anything short of
/// its last byte waits for more.
pub proof fn law_unfinished_chunks_wait(chunks: Seq<Chunk>, last_line: Seq<char>, k: int)
    requires
        forall|i: int| 0 <= i < chunks.len() ==> is_chunk(#[trigger] chunks[i]),
        is_size_line(last_line, 0),
        0 <= k < (chunks_bytes(chunks) + line_bytes(last_line)).len(),
    ensures
        chunked_body((chunks_bytes(chunks) + line_bytes(last_line)).take(k)) == Ok::<
            Option<Seq<u8>>,
            ChunkFault,
        >(None),
    decreases chunks.len(),
{
    let end = line_bytes(last_line);
    let whole = chunks_bytes(chunks) + end;
    let part = whole.take(k);
    if chunks.len() == 0 {
        assert(whole =~= end + Seq::<u8>::empty());
        lemma_line_waits(last_line, Seq::empty(), k);
    } else {
        let chunk = chunks[0];
        assert(is_chunk(chunk));
        let size = chunk.data.len() as int;
        let others = chunks_bytes(chunks.drop_first()) + end;
        let rest = chunk.data + crlf_bytes() + others;
        let n = line_bytes(chunk.line).len() as int;
        assert(whole =~= line_bytes(chunk.line) + rest);
        if k < n {
            lemma_line_waits(chunk.line, rest, k);
        } else {
            assert(part =~= line_bytes(chunk.line) + rest.take(k - n));
            lemma_line_ends(chunk.line, rest.take(k - n));
            if k - n >= size + 2 {
                assert(rest.take(k - n).skip(size + 2) =~= others.take(k - n - size - 2));
                law_unfinished_chunks_wait(chunks.drop_first(), last_line, k - n - size - 2);
            }
        }
    }
}

/// A response whose body comes in chunks is complete once the empty chunk has arrived, and its body
/// is the chunks put together, whatever follows.
pub proof fn law_chunked_response_is_reassembled(
    head: Seq<u8>,
    said: HeadView,
    chunks: Seq<Chunk>,
    last_line: Seq<char>,
    trailer: Seq<u8>,
    at_eof: bool,
    head_request: bool,
)
    requires
        is_head(head, said),
        framing(said, head_request) == Framing::Chunked,
        forall|i: int| 0 <= i < chunks.len() ==> is_chunk(#[trigger] chunks[i]),
        is_size_line(last_line, 0),
    ensures
        response_in(
            head + head_end() + (chunks_bytes(chunks) + (line_bytes(last_line) + trailer)),
            at_eof,
            head_request,
        ) == Ok::<Option<ResponseView>, ErrorView>(
            Some(response_with(said, chunks_data(chunks))),
        ),
{
    let rest = chunks_bytes(chunks) + (line_bytes(last_line) + trailer);
    lemma_after_head(head, said, rest);
    law_chunked_body_is_reassembled(chunks, last_line, trailer);
}

/// A response whose body comes in chunks waits for the last byte of the empty chunk, and is an error
/// where the connection closes before it.
pub proof fn law_unfinished_chunked_response_waits(
    head: Seq<u8>,
    said: HeadView,
    chunks: Seq<Chunk>,
    last_line: Seq<char>,
    k: int,
    head_request: bool,
)
    requires
        is_head(head, said),
        framing(said, head_request) == Framing::Chunked,
        forall|i: int| 0 <= i < chunks.len() ==> is_chunk(#[trigger] chunks[i]),
        is_size_line(last_line, 0),
        0 <= k < (chunks_bytes(chunks) + line_bytes(last_line)).len(),
    ensures
        ({
            let received = head + head_end() + (chunks_bytes(chunks) + line_bytes(last_line)).take(
                k,
            );
            &&& response_in(received, false, head_request) == Ok::<
                Option<ResponseView>,
                ErrorView,
            >(None)
            &&& response_in(received, true, head_request) == Err::<
                Option<ResponseView>,
                ErrorView,
            >(ErrorView::Protocol("connection closed inside a chunked body"@))
        }),
{
    let rest = (chunks_bytes(chunks) + line_bytes(last_line)).take(k);
    lemma_after_head(head, said, rest);
    law_unfinished_chunks_wait(chunks, last_line, k);
}

/// Reading chunks reads the first one, and then the others.
proof fn lemma_first_chunk(chunks: Seq<Chunk>, end: Seq<u8>)
    requires
        chunks.len() > 0,
        is_chunk(chunks[0]),
    ensures
        chunked_body(chunks_bytes(chunks) + end) == after_chunk(
            chunks[0].data,
            chunked_body(chunks_bytes(chunks.drop_first()) + end),
        ),
{
    let chunk = chunks[0];
    let size = chunk.data.len();
    let others = chunks_bytes(chunks.drop_first()) + end;
    let rest = chunk.data + crlf_bytes() + others;
    let whole = chunks_bytes(chunks) + end;
    assert(whole =~= line_bytes(chunk.line) + rest);
    lemma_line_ends(chunk.line, rest);
    assert(rest.take(size as int) =~= chunk.data);
    assert(rest.skip(size as int + 2) =~= others);
}

/// The case of a header's name makes no difference to what is found.
pub proof fn law_header_names_ignore_case(headers: Seq<Field>, a: Seq<char>, b: Seq<char>)
    requires
        same_ignoring_case(a, b),
    ensures
        first_named(headers, a) == first_named(headers, b),
    decreases headers.len(),
{
    if headers.len() > 0 {
        law_header_names_ignore_case(headers.drop_first(), a, b);
    }
}

/// Of several headers with one name the first is found, whatever stands after it.
pub proof fn law_first_header_is_found(
    before: Seq<Field>,
    field: Field,
    after: Seq<Field>,
    name: Seq<char>,
)
    requires
        same_ignoring_case(field.0, name),
        forall|i: int|
            0 <= i < before.len() ==> !same_ignoring_case((#[trigger] before[i]).0, name),
    ensures
        first_named(before + seq![field] + after, name) == Some(field.1),
    decreases before.len(),
{
    let headers = before + seq![field] + after;
    if before.len() == 0 {
        assert(headers[0] == field);
    } else {
        assert(headers[0] == before[0]);
        assert(!same_ignoring_case(before[0].0, name));
        assert forall|i: int| 0 <= i < before.drop_first().len() implies !same_ignoring_case(
            (#[trigger] before.drop_first()[i]).0,
            name,
        ) by {
            assert(before.drop_first()[i] == before[i + 1]);
        }
        law_first_header_is_found(before.drop_first(), field, after, name);
        assert(headers.drop_first() =~= before.drop_first() + seq![field] + after);
    }
}

/// An error with one of the fixed texts, none of which holds anything that the peer sent.
pub open spec fn quotes_nothing(error: ErrorView) -> bool {
    ||| error == ErrorView::Protocol("connection closed before the headers ended"@)
    ||| error == ErrorView::Protocol("headers are not UTF-8"@)
    ||| error == ErrorView::Protocol("bad status line"@)
    ||| error == ErrorView::Protocol("bad Content-Length"@)
    ||| error == ErrorView::Protocol("chunk size is not UTF-8"@)
    ||| error == ErrorView::Protocol("bad chunk size"@)
    ||| error == ErrorView::Protocol("connection closed inside a chunked body"@)
    ||| error == ErrorView::Protocol("connection closed before the body ended"@)
}

/// An error in a response quotes nothing that the peer sent, which may be the request itself.
pub proof fn law_errors_quote_nothing(buffer: Seq<u8>, at_eof: bool, head_request: bool)
    ensures
        response_in(buffer, at_eof, head_request) matches Err(error) ==> quotes_nothing(error),
{
}

/// None of the fixed texts holds a slash.
pub proof fn lemma_fixed_texts_hold_no_slash(error: ErrorView)
    requires
        quotes_nothing(error),
    ensures
        !error.message().contains('/'),
{
    reveal_strlit("malformed response: ");
    reveal_strlit("connection closed before the headers ended");
    reveal_strlit("headers are not UTF-8");
    reveal_strlit("bad status line");
    reveal_strlit("bad Content-Length");
    reveal_strlit("chunk size is not UTF-8");
    reveal_strlit("bad chunk size");
    reveal_strlit("connection closed inside a chunked body");
    reveal_strlit("connection closed before the body ended");
}

} // verus!
