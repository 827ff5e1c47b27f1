//! What the chunks of a body mean, one after the other.

use vstd::prelude::*;
use vstd::utf8::*;

use crate::error::ErrorView;
use crate::laws::number::{law_number_is_read, stands_for};
use crate::laws::sequence::{
    law_split_undoes_joining, lemma_no_split_without_element, lemma_split_at_element, stands,
};
use crate::laws::text::{all_blank, is_blank, is_core, law_trimming_leaves_the_core};
use crate::response::{chunk_size, chunked_body, ChunkFault};

verus! {

/// A line that introduces a chunk: a number with white space around it, and an extension.
pub struct SizeLine {
    pub left: Seq<char>,
    pub number: Seq<char>,
    pub right: Seq<char>,
    pub extension: Seq<char>,
}

impl SizeLine {
    /// The line as it is sent.
    pub open spec fn text(self) -> Seq<char> {
        self.left + self.number + self.right + self.extension
    }

    /// The line is what it is said to be: no semicolon stands before the one that starts the
    /// extension.
    pub open spec fn is_sound(self) -> bool {
        &&& all_blank(self.left)
        &&& is_core(self.number)
        &&& !self.number.contains(';')
        &&& all_blank(self.right)
        &&& self.extension.len() > 0 ==> self.extension[0] == ';'
    }
}

/// The size of a chunk is the hexadecimal number before any semicolon, whatever the case of its digits
/// and the white space around it, and there is none where no such number that the machine can count
/// stands there.
pub proof fn law_size_is_read(line: SizeLine, size: nat)
    requires
        line.is_sound(),
    ensures
        chunk_size(line.text()) == Some(size) <==> stands_for(line.number, 16, size) && size
            <= usize::MAX,
{
    let field = line.left + line.number + line.right;
    law_trimming_leaves_the_core(line.left, line.number, line.right);
    law_number_is_read(line.number, 16, usize::MAX as nat, size);
    assert(!field.contains(';')) by {
        if field.contains(';') {
            let i = choose|i: int| 0 <= i < field.len() && field[i] == ';';
            let n = line.left.len() as int;
            let m = n + line.number.len();
            if i < n {
                assert(is_blank(line.left[i]));
            } else if i < m {
                assert(line.number[i - n] == ';');
            } else {
                assert(is_blank(line.right[i - m]));
            }
        }
    }
    if line.extension.len() == 0 {
        assert(line.text() =~= field);
        lemma_no_split_without_element(field, ';');
    } else {
        let after = line.extension.skip(1);
        assert(line.text() =~= field + seq![';'] + after);
        lemma_split_at_element(field, ';', after);
    }
}

/// A chunk is its line, a line end, its bytes and another line end. A body is the bytes of its first
/// chunk and then the body that the other chunks make up; it ends with a chunk of size zero, whatever
/// follows; and it waits for every line and every byte of a chunk.
pub proof fn law_chunk_by_chunk(line: Seq<u8>, rest: Seq<u8>)
    requires
        forall|at: int|
            0 <= at < line.len() ==> !stands(
                line + seq![13u8, 10u8] + rest,
                seq![13u8, 10u8],
                at,
            ),
    ensures
        ({
            let read = chunked_body(line + seq![13u8, 10u8] + rest);
            if !valid_utf8(line) {
                read == Err::<Option<Seq<u8>>, ChunkFault>(ChunkFault::NotUtf8)
            } else {
                match chunk_size(decode_utf8(line)) {
                    None => read == Err::<Option<Seq<u8>>, ChunkFault>(
                        ChunkFault::BadSize(decode_utf8(line)),
                    ),
                    Some(size) => if size == 0 {
                        read == Ok::<Option<Seq<u8>>, ChunkFault>(Some(Seq::empty()))
                    } else if rest.len() < size + 2 {
                        read == Ok::<Option<Seq<u8>>, ChunkFault>(None)
                    } else {
                        match chunked_body(rest.skip(size as int + 2)) {
                            Ok(Some(body)) => read == Ok::<Option<Seq<u8>>, ChunkFault>(
                                Some(rest.take(size as int) + body),
                            ),
                            other => read == other,
                        }
                    },
                }
            }
        }),
{
    law_split_undoes_joining(
        line + seq![13u8, 10u8] + rest,
        seq![13u8, 10u8],
        line,
        rest,
    );
}

/// Bytes without a line end are no chunk yet.
pub proof fn law_no_line_waits(bytes: Seq<u8>)
    requires
        forall|at: int| !stands(bytes, seq![13u8, 10u8], at),
    ensures
        chunked_body(bytes) == Ok::<Option<Seq<u8>>, ChunkFault>(None),
{
    law_split_undoes_joining(bytes, seq![13u8, 10u8], bytes, bytes);
}

/// A fault in a line is told with the line in full, or without it.
pub proof fn law_fault_is_told(line: Seq<char>)
    ensures
        ChunkFault::BadSize(line).quoted() == ErrorView::Protocol("bad chunk size: "@ + line),
        ChunkFault::NotUtf8.quoted() == ErrorView::Protocol("chunk size is not UTF-8"@),
        ChunkFault::BadSize(line).unquoted() == ErrorView::Protocol("bad chunk size"@),
        ChunkFault::NotUtf8.unquoted() == ErrorView::Protocol("chunk size is not UTF-8"@),
{
}

} // verus!
