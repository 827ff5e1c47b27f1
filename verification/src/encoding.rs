//! How the characters of a text lie in its UTF-8 bytes.

use vstd::prelude::*;
use vstd::utf8::*;

use crate::sequence::{lemma_cut_at_occurrence, lemma_occurs_between, occurs_at};

verus! {

/// Every character takes at least one byte and at most four.
pub proof fn lemma_encode_scalar_len(c: char)
    ensures
        1 <= encode_scalar(c as u32).len() <= 4,
{
}

/// The bytes of a concatenation are the concatenated bytes.
pub proof fn lemma_encode_concat(a: Seq<char>, b: Seq<char>)
    ensures
        encode_utf8(a + b) == encode_utf8(a) + encode_utf8(b),
    decreases a.len(),
{
    if a.len() == 0 {
        assert(a + b =~= b);
        assert(encode_utf8(a) + encode_utf8(b) =~= encode_utf8(b));
    } else {
        lemma_encode_concat(a.drop_first(), b);
        assert((a + b).drop_first() =~= a.drop_first() + b);
        assert(encode_utf8(a + b) =~= encode_utf8(a) + encode_utf8(b));
    }
}

/// A text has no more characters than bytes.
pub proof fn lemma_encode_len(a: Seq<char>)
    ensures
        a.len() <= encode_utf8(a).len(),
    decreases a.len(),
{
    if a.len() > 0 {
        lemma_encode_scalar_len(a[0]);
        lemma_encode_len(a.drop_first());
    }
}

/// A strict prefix has strictly fewer bytes.
pub proof fn lemma_encode_prefix_len(a: Seq<char>, k: int)
    requires
        0 <= k < a.len(),
    ensures
        encode_utf8(a.take(k)).len() < encode_utf8(a).len(),
{
    assert(a =~= a.take(k) + a.skip(k));
    lemma_encode_concat(a.take(k), a.skip(k));
    lemma_encode_len(a.skip(k));
}

/// Two texts with the same bytes are the same text.
pub proof fn lemma_encode_injective(a: Seq<char>, b: Seq<char>)
    requires
        encode_utf8(a) == encode_utf8(b),
    ensures
        a == b,
{
    encode_utf8_decode_utf8(a);
    encode_utf8_decode_utf8(b);
}

/// A text that starts with ASCII bytes can be cut after them.
pub proof fn lemma_boundary_after_ascii(bytes: Seq<u8>, k: int)
    requires
        valid_utf8(bytes),
        0 <= k <= bytes.len(),
        forall|i: int| 0 <= i < k ==> #[trigger] bytes[i] <= 0x7f,
    ensures
        is_char_boundary(bytes, k),
    decreases k,
{
    if k > 0 {
        assert(bytes[0] <= 0x7f);
        let rest = pop_first_scalar(bytes);
        assert(rest =~= bytes.skip(1));
        assert forall|i: int| 0 <= i < k - 1 implies #[trigger] rest[i] <= 0x7f by {
            assert(rest[i] == bytes[i + 1]);
        }
        lemma_boundary_after_ascii(rest, k - 1);
    }
}

/// A text can be cut before any of its ASCII bytes.
pub proof fn lemma_boundary_before_ascii(bytes: Seq<u8>, k: int)
    requires
        valid_utf8(bytes),
        0 <= k < bytes.len(),
        bytes[k] <= 0x7f,
    ensures
        is_char_boundary(bytes, k),
{
    is_char_boundary_iff_not_is_continuation_byte(bytes, k);
    assert(!is_continuation_byte(bytes[k]));
}

/// Where an ASCII `part` stands among the bytes of `text`, it stands in `text`.
pub proof fn lemma_occurrence_in_chars(text: Seq<char>, part: Seq<char>, at: int) -> (index: int)
    requires
        is_ascii_chars(part),
        part.len() > 0,
        occurs_at(encode_utf8(text), encode_utf8(part), at),
    ensures
        occurs_at(text, part, index),
        encode_utf8(text.take(index)).len() == at,
{
    let bytes = encode_utf8(text);
    let part_bytes = encode_utf8(part);
    encode_utf8_valid_utf8(text);
    encode_utf8_decode_utf8(text);
    encode_utf8_decode_utf8(part);
    is_ascii_chars_encode_utf8(part);
    assert forall|i: int| 0 <= i < part_bytes.len() implies bytes[at + i] == #[trigger] part_bytes[i]
        && part_bytes[i] <= 0x7f by {
        assert(bytes.subrange(at, at + part_bytes.len())[i] == bytes[at + i]);
        assert(part[i] as u8 == part_bytes[i]);
        assert('\0' <= part[i] <= '\u{7f}');
    }
    assert(bytes[at] == part_bytes[0]);
    lemma_boundary_before_ascii(bytes, at);
    valid_utf8_split(bytes, at);
    decode_utf8_split(bytes, at);
    let front = bytes.subrange(0, at);
    let back = bytes.subrange(at, bytes.len() as int);
    decode_utf8_encode_utf8(front);
    let n = part_bytes.len() as int;
    assert forall|i: int| 0 <= i < n implies #[trigger] back[i] <= 0x7f by {
        assert(back[i] == part_bytes[i]);
    }
    lemma_boundary_after_ascii(back, n);
    decode_utf8_split(back, n);
    assert(back.subrange(0, n) =~= part_bytes);
    let before = decode_utf8(front);
    let after = decode_utf8(back.subrange(n, back.len() as int));
    assert(text =~= before + part + after);
    lemma_occurs_between(before, part, after);
    before.len() as int
}

/// Where `part` stands in `text`, its bytes stand among the bytes of `text`.
pub proof fn lemma_occurrence_in_bytes(text: Seq<char>, part: Seq<char>, index: int)
    requires
        occurs_at(text, part, index),
    ensures
        occurs_at(encode_utf8(text), encode_utf8(part), encode_utf8(text.take(index)).len() as int),
{
    let before = text.take(index);
    let after = text.skip(index + part.len());
    lemma_cut_at_occurrence(text, part, index);
    lemma_encode_concat(before + part, after);
    lemma_encode_concat(before, part);
    lemma_occurs_between(encode_utf8(before), encode_utf8(part), encode_utf8(after));
}

/// A text can be cut before and after an ASCII part of it.
pub proof fn lemma_ascii_boundaries(text: Seq<char>, part: Seq<char>, at: int)
    requires
        is_ascii_chars(part),
        part.len() > 0,
        occurs_at(encode_utf8(text), encode_utf8(part), at),
    ensures
        is_char_boundary(encode_utf8(text), at),
        is_char_boundary(
            encode_utf8(text).subrange(at, encode_utf8(text).len() as int),
            part.len() as int,
        ),
        valid_utf8(encode_utf8(text).subrange(at, encode_utf8(text).len() as int)),
{
    let bytes = encode_utf8(text);
    let part_bytes = encode_utf8(part);
    let back = bytes.subrange(at, bytes.len() as int);
    encode_utf8_valid_utf8(text);
    is_ascii_chars_encode_utf8(part);
    assert forall|i: int| 0 <= i < part_bytes.len() implies #[trigger] back[i] <= 0x7f by {
        assert(bytes.subrange(at, at + part_bytes.len())[i] == back[i]);
        assert(part[i] as u8 == part_bytes[i]);
        assert('\0' <= part[i] <= '\u{7f}');
    }
    assert(back[0] == bytes[at]);
    lemma_boundary_before_ascii(bytes, at);
    valid_utf8_split(bytes, at);
    lemma_boundary_after_ascii(back, part_bytes.len() as int);
}

/// An ASCII character stands in the bytes where the bytes before it end.
pub proof fn lemma_ascii_char_in_bytes(text: Seq<char>, index: int)
    requires
        0 <= index < text.len(),
    ensures
        text[index] <= '\u{7f}' ==> {
            let at = encode_utf8(text.take(index)).len() as int;
            at < encode_utf8(text).len() && encode_utf8(text)[at] == text[index] as u8
        },
{
    let c = seq![text[index]];
    assert(text =~= text.take(index) + c + text.skip(index + 1));
    lemma_encode_concat(text.take(index) + c, text.skip(index + 1));
    lemma_encode_concat(text.take(index), c);
    if text[index] <= '\u{7f}' {
        lemma_least_char(c[0]);
        assert(is_ascii_chars(c));
        is_ascii_chars_encode_utf8(c);
        assert(c[0] as u8 == encode_utf8(c)[0]);
    }
}

/// A text whose first byte is ASCII starts with that character.
pub proof fn lemma_first_char_from_ascii(text: Seq<char>)
    requires
        text.len() > 0,
        encode_utf8(text)[0] <= 0x7f,
    ensures
        text[0] == encode_utf8(text)[0] as char,
{
    let b = encode_utf8(text)[0];
    encode_utf8_first_scalar(text);
    assert(b & 0x7f == b) by (bit_vector)
        requires
            b <= 0x7f,
    ;
    char_u32_cast(text[0], b as u32);
}

/// No character lies below the first one.
proof fn lemma_least_char(c: char)
    ensures
        '\0' <= c,
{
}

} // verus!
