//! Reading text: splitting it, trimming it, and comparing it without regard to ASCII case.

use vstd::prelude::*;
use vstd::string::{StrSliceExecFns, StringExecFns};
use vstd::utf8::*;

use crate::encoding::{
    lemma_ascii_boundaries, lemma_encode_concat, lemma_encode_injective, lemma_encode_len,
    lemma_encode_prefix_len, lemma_occurrence_in_bytes, lemma_occurrence_in_chars,
};
use crate::sequence::{
    find, first_index, last_index, lemma_cut_at_occurrence, lemma_first_index, lemma_last_index,
    matches_at, occurs, occurs_at, rfind, rsplit_once, split_once, starts_with,
};

verus! {

/// The ASCII lower-case form of a character; one that is not an ASCII capital stays as it is.
pub open spec fn lower_char(c: char) -> char {
    if 'A' <= c <= 'Z' {
        ((c as u32) + 32) as char
    } else {
        c
    }
}

/// `text` with its ASCII capitals in lower case.
pub open spec fn lower(text: Seq<char>) -> Seq<char> {
    text.map_values(|c: char| lower_char(c))
}

/// The two texts are equal but for the case of ASCII letters.
pub open spec fn same_ignoring_case(a: Seq<char>, b: Seq<char>) -> bool {
    lower(a) == lower(b)
}

/// The characters with the Unicode property `White_Space`.
pub open spec fn is_white_space(c: char) -> bool {
    ||| '\u{9}' <= c <= '\u{d}'
    ||| c == '\u{20}'
    ||| c == '\u{85}'
    ||| c == '\u{a0}'
    ||| c == '\u{1680}'
    ||| '\u{2000}' <= c <= '\u{200a}'
    ||| c == '\u{2028}'
    ||| c == '\u{2029}'
    ||| c == '\u{202f}'
    ||| c == '\u{205f}'
    ||| c == '\u{3000}'
}

/// `text` without the white space it starts with.
pub open spec fn trim_start(text: Seq<char>) -> Seq<char>
    decreases text.len(),
{
    if text.len() > 0 && is_white_space(text[0]) {
        trim_start(text.drop_first())
    } else {
        text
    }
}

/// `text` without the white space it ends with.
pub open spec fn trim_end(text: Seq<char>) -> Seq<char>
    decreases text.len(),
{
    if text.len() > 0 && is_white_space(text.last()) {
        trim_end(text.drop_last())
    } else {
        text
    }
}

/// `text` without the white space at its two ends.
pub open spec fn trimmed(text: Seq<char>) -> Seq<char> {
    trim_end(trim_start(text))
}

/// The view of an optional pair of texts.
pub open spec fn pair_view(pair: Option<(&str, &str)>) -> Option<(Seq<char>, Seq<char>)> {
    match pair {
        Some((a, b)) => Some((a@, b@)),
        None => None,
    }
}

/// Cuts `text` around the `part` whose bytes stand at `at`.
fn cut_around<'a>(text: &'a str, part: &str, at: usize) -> (sides: (&'a str, &'a str))
    requires
        is_ascii_chars(part@),
        part@.len() > 0,
        occurs_at(encode_utf8(text@), encode_utf8(part@), at as int),
    ensures
        occurs_at(text@, part@, sides.0@.len() as int),
        sides.0@ == text@.take(sides.0@.len() as int),
        sides.1@ == text@.skip((sides.0@.len() + part@.len()) as int),
        encode_utf8(sides.0@).len() == at,
{
    proof {
        is_ascii_chars_encode_utf8(part@);
        lemma_ascii_boundaries(text@, part@, at as int);
    }
    let (before, rest) = text.split_at(at);
    let (_, after) = rest.split_at(part.as_bytes().len());
    proof {
        let index = lemma_occurrence_in_chars(text@, part@, at as int);
        let front = text@.take(index);
        let back = text@.skip(index + part@.len());
        lemma_cut_at_occurrence(text@, part@, index);
        lemma_encode_concat(front + part@, back);
        lemma_encode_concat(front, part@);
        assert(encode_utf8(before@) =~= encode_utf8(front));
        assert(encode_utf8(after@) =~= encode_utf8(back));
        lemma_encode_injective(before@, front);
        lemma_encode_injective(after@, back);
    }
    (before, after)
}

/// What stands before and after the first `separator` in `text`, if there is one.
pub fn split_text<'a>(text: &'a str, separator: &str) -> (split: Option<(&'a str, &'a str)>)
    requires
        is_ascii_chars(separator@),
        separator@.len() > 0,
    ensures
        pair_view(split) == split_once(text@, separator@),
{
    proof {
        is_ascii_chars_encode_utf8(separator@);
    }
    match find(text.as_bytes(), separator.as_bytes()) {
        Some(at) => {
            let (before, after) = cut_around(text, separator, at);
            proof {
                assert forall|earlier: int| 0 <= earlier < before@.len() implies !occurs_at(
                    text@,
                    separator@,
                    earlier,
                ) by {
                    if occurs_at(text@, separator@, earlier) {
                        lemma_occurrence_in_bytes(text@, separator@, earlier);
                        lemma_encode_prefix_len(before@, earlier);
                        assert(before@.take(earlier) =~= text@.take(earlier));
                    }
                }
                lemma_first_index(text@, separator@, before@.len() as int);
            }
            Some((before, after))
        },
        None => {
            proof {
                lemma_absent(text@, separator@);
            }
            None
        },
    }
}

/// What stands before and after the last `separator` in `text`, if there is one.
pub fn rsplit_text<'a>(text: &'a str, separator: &str) -> (split: Option<(&'a str, &'a str)>)
    requires
        is_ascii_chars(separator@),
        separator@.len() > 0,
    ensures
        pair_view(split) == rsplit_once(text@, separator@),
{
    proof {
        is_ascii_chars_encode_utf8(separator@);
    }
    match rfind(text.as_bytes(), separator.as_bytes()) {
        Some(at) => {
            let (before, after) = cut_around(text, separator, at);
            proof {
                assert forall|later: int| before@.len() < later implies !occurs_at(
                    text@,
                    separator@,
                    later,
                ) by {
                    if occurs_at(text@, separator@, later) {
                        lemma_occurrence_in_bytes(text@, separator@, later);
                        lemma_encode_prefix_len(text@.take(later), before@.len() as int);
                        assert(text@.take(later).take(before@.len() as int) =~= before@);
                    }
                }
                lemma_last_index(text@, separator@, before@.len() as int);
            }
            Some((before, after))
        },
        None => {
            proof {
                lemma_absent(text@, separator@);
            }
            None
        },
    }
}

/// What follows `prefix` in `text`, if `text` starts with it.
pub fn strip_text<'a>(text: &'a str, prefix: &str) -> (rest: Option<&'a str>)
    requires
        is_ascii_chars(prefix@),
        prefix@.len() > 0,
    ensures
        match rest {
            Some(rest) => starts_with(text@, prefix@) && rest@ == text@.skip(prefix@.len() as int),
            None => !starts_with(text@, prefix@),
        },
{
    let bytes = text.as_bytes();
    let prefix_bytes = prefix.as_bytes();
    proof {
        is_ascii_chars_encode_utf8(prefix@);
        if starts_with(text@, prefix@) {
            lemma_occurrence_in_bytes(text@, prefix@, 0);
            assert(encode_utf8(text@.take(0)).len() == 0);
        }
    }
    if prefix_bytes.len() <= bytes.len() && matches_at(bytes, prefix_bytes, 0) {
        let (before, rest) = cut_around(text, prefix, 0);
        proof {
            lemma_encode_len(before@);
        }
        Some(rest)
    } else {
        None
    }
}

/// Whether `part` stands somewhere in `text`.
pub fn contains_text(text: &str, part: &str) -> (found: bool)
    requires
        is_ascii_chars(part@),
        part@.len() > 0,
    ensures
        found == occurs(text@, part@),
{
    proof {
        is_ascii_chars_encode_utf8(part@);
    }
    match find(text.as_bytes(), part.as_bytes()) {
        Some(at) => {
            proof {
                let index = lemma_occurrence_in_chars(text@, part@, at as int);
            }
            true
        },
        None => {
            proof {
                lemma_absent(text@, part@);
            }
            false
        },
    }
}

/// A text does not hold a part whose bytes it does not hold.
proof fn lemma_absent(text: Seq<char>, part: Seq<char>)
    requires
        !occurs(encode_utf8(text), encode_utf8(part)),
    ensures
        !occurs(text, part),
        first_index(text, part) is None,
        last_index(text, part) is None,
{
    assert forall|index: int| !occurs_at(text, part, index) by {
        if occurs_at(text, part, index) {
            lemma_occurrence_in_bytes(text, part, index);
        }
    }
}

/// The ASCII lower-case form of a byte; one that is not an ASCII capital stays as it is.
pub open spec fn lower_byte(b: u8) -> u8 {
    if 0x41 <= b <= 0x5a {
        (b + 32) as u8
    } else {
        b
    }
}

/// A byte string with its ASCII capitals in lower case.
pub open spec fn lower_bytes(bytes: Seq<u8>) -> Seq<u8> {
    bytes.map_values(|b: u8| lower_byte(b))
}

/// Lower-casing a character lower-cases its bytes.
proof fn lemma_encode_lower_char(c: char)
    ensures
        encode_scalar(lower_char(c) as u32) == lower_bytes(encode_scalar(c as u32)),
{
    let v = c as u32;
    char_is_scalar(c);
    if v <= 0x7f {
        let w = lower_char(c) as u32;
        assert(v & 0x7f == v) by (bit_vector)
            requires
                v <= 0x7f,
        ;
        assert(w & 0x7f == w) by (bit_vector)
            requires
                w <= 0x7f,
        ;
        assert(encode_scalar(w) =~= lower_bytes(encode_scalar(v)));
    } else {
        assert(0xC0 | ((v >> 6) & 0x1F) as u8 >= 0x80) by (bit_vector);
        assert(0xE0 | ((v >> 12) & 0x0F) as u8 >= 0x80) by (bit_vector);
        assert(0xF0 | ((v >> 18) & 0x7) as u8 >= 0x80) by (bit_vector);
        assert(0x80 | (v & 0x3F) as u8 >= 0x80) by (bit_vector);
        assert(0x80 | ((v >> 6) & 0x3F) as u8 >= 0x80) by (bit_vector);
        assert(0x80 | ((v >> 12) & 0x3F) as u8 >= 0x80) by (bit_vector);
        assert(encode_scalar(v) =~= lower_bytes(encode_scalar(v)));
    }
}

/// Lower-casing a text lower-cases its bytes.
proof fn lemma_encode_lower(text: Seq<char>)
    ensures
        encode_utf8(lower(text)) == lower_bytes(encode_utf8(text)),
    decreases text.len(),
{
    if text.len() == 0 {
        assert(encode_utf8(lower(text)) =~= lower_bytes(encode_utf8(text)));
    } else {
        lemma_encode_lower_char(text[0]);
        lemma_encode_lower(text.drop_first());
        assert(lower(text).drop_first() =~= lower(text.drop_first()));
        assert(encode_utf8(lower(text)) =~= lower_bytes(encode_utf8(text)));
    }
}

/// The ASCII lower-case form of a byte.
fn to_lower_byte(b: u8) -> (lowered: u8)
    ensures
        lowered == lower_byte(b),
{
    if 0x41 <= b && b <= 0x5a {
        b + 32
    } else {
        b
    }
}

/// Whether the two texts are equal but for the case of ASCII letters.
pub fn equal_ignoring_case(a: &str, b: &str) -> (equal: bool)
    ensures
        equal == same_ignoring_case(a@, b@),
{
    let x = a.as_bytes();
    let y = b.as_bytes();
    proof {
        lemma_encode_lower(a@);
        lemma_encode_lower(b@);
        if lower_bytes(x@) == lower_bytes(y@) {
            lemma_encode_injective(lower(a@), lower(b@));
        }
    }
    if x.len() != y.len() {
        assert(lower_bytes(x@).len() != lower_bytes(y@).len());
        return false;
    }
    let mut i: usize = 0;
    while i < x.len()
        invariant
            x@.len() == y@.len(),
            i <= x@.len(),
            forall|j: int| 0 <= j < i ==> lower_byte(x@[j]) == lower_byte(y@[j]),
            lower_bytes(x@) == lower_bytes(y@) <==> same_ignoring_case(a@, b@),
        decreases x@.len() - i,
    {
        if to_lower_byte(x[i]) != to_lower_byte(y[i]) {
            assert(lower_bytes(x@)[i as int] != lower_bytes(y@)[i as int]);
            return false;
        }
        i = i + 1;
    }
    assert(lower_bytes(x@) =~= lower_bytes(y@));
    true
}

/// Whether `part` stands in the lower-case form of `text`.
pub fn lower_contains(text: &str, part: &str) -> (found: bool)
    requires
        is_ascii_chars(part@),
        part@.len() > 0,
    ensures
        found == occurs(lower(text@), part@),
{
    let bytes = text.as_bytes();
    let mut lowered: Vec<u8> = Vec::new();
    let mut i: usize = 0;
    while i < bytes.len()
        invariant
            i <= bytes@.len(),
            lowered@ == lower_bytes(bytes@.take(i as int)),
        decreases bytes@.len() - i,
    {
        lowered.push(to_lower_byte(bytes[i]));
        i = i + 1;
        assert(lowered@ =~= lower_bytes(bytes@.take(i as int)));
    }
    proof {
        is_ascii_chars_encode_utf8(part@);
        lemma_encode_lower(text@);
        assert(bytes@.take(i as int) =~= bytes@);
    }
    match find(lowered.as_slice(), part.as_bytes()) {
        Some(at) => {
            proof {
                let index = lemma_occurrence_in_chars(lower(text@), part@, at as int);
            }
            true
        },
        None => {
            proof {
                lemma_absent(lower(text@), part@);
            }
            false
        },
    }
}

/// Whether a character has the Unicode property `White_Space`.
pub fn white_space(c: char) -> (found: bool)
    ensures
        found == is_white_space(c),
{
    ('\u{9}' <= c && c <= '\u{d}') || c == '\u{20}' || c == '\u{85}' || c == '\u{a0}' || c
        == '\u{1680}' || ('\u{2000}' <= c && c <= '\u{200a}') || c == '\u{2028}' || c == '\u{2029}'
        || c == '\u{202f}' || c == '\u{205f}' || c == '\u{3000}'
}

/// Skipping the white space at the front leaves the text trimmed at the front.
proof fn lemma_trim_start(text: Seq<char>, start: int)
    requires
        0 <= start <= text.len(),
        forall|i: int| 0 <= i < start ==> is_white_space(#[trigger] text[i]),
        start < text.len() ==> !is_white_space(text[start]),
    ensures
        trim_start(text) == text.skip(start),
    decreases start,
{
    if start > 0 {
        assert(is_white_space(text[0]));
        assert forall|i: int| 0 <= i < start - 1 implies is_white_space(
            #[trigger] text.drop_first()[i],
        ) by {
            assert(is_white_space(text[i + 1]));
        }
        lemma_trim_start(text.drop_first(), start - 1);
        assert(text.drop_first().skip(start - 1) =~= text.skip(start));
    } else {
        assert(text.skip(0) =~= text);
    }
}

/// Dropping the white space at the back leaves the text trimmed at the back.
proof fn lemma_trim_end(text: Seq<char>, end: int)
    requires
        0 <= end <= text.len(),
        forall|i: int| end <= i < text.len() ==> is_white_space(#[trigger] text[i]),
        end > 0 ==> !is_white_space(text[end - 1]),
    ensures
        trim_end(text) == text.take(end),
    decreases text.len() - end,
{
    if end < text.len() {
        assert(is_white_space(text[text.len() - 1]));
        lemma_trim_end(text.drop_last(), end);
        assert(text.drop_last().take(end) =~= text.take(end));
    } else {
        assert(text.take(end) =~= text);
    }
}

/// `text` without the white space at its two ends.
pub fn trim_text<'a>(text: &'a str) -> (inner: &'a str)
    ensures
        inner@ == trimmed(text@),
{
    let bytes = text.as_bytes();
    proof {
        lemma_encode_len(text@);
    }
    let mut seen: usize = 0;
    let mut start: usize = 0;
    let mut end: usize = 0;
    for c in chars: text.chars()
        invariant
            chars.seq() == text@,
            text@.len() <= bytes.len(),
            seen == chars.index(),
            start <= end <= seen || (end == 0 && start == seen),
            forall|i: int| 0 <= i < start ==> is_white_space(#[trigger] text@[i]),
            start < seen ==> start < end && !is_white_space(text@[start as int]),
            forall|i: int| end <= i < seen ==> is_white_space(#[trigger] text@[i]),
            end > 0 ==> !is_white_space(text@[end - 1]),
    {
        if white_space(c) {
            if start == seen {
                start = seen + 1;
            }
        } else {
            end = seen + 1;
        }
        seen = seen + 1;
    }
    if end < start {
        proof {
            lemma_trim_start(text@, start as int);
            assert(text@.skip(start as int) =~= Seq::<char>::empty());
            assert(text@.subrange(start as int, start as int) =~= Seq::<char>::empty());
        }
        text.substring_char(start, start)
    } else {
        proof {
            lemma_trim_start(text@, start as int);
            let rest = text@.skip(start as int);
            lemma_trim_end(rest, end - start);
            assert(rest.take(end - start) =~= text@.subrange(start as int, end as int));
        }
        text.substring_char(start, end)
    }
}

/// Whether the two texts are equal.
pub fn equal_text(a: &str, b: &str) -> (equal: bool)
    ensures
        equal == (a@ == b@),
{
    let x = a.as_bytes();
    let y = b.as_bytes();
    if x.len() == y.len() && matches_at(x, y, 0) {
        proof {
            assert(x@.subrange(0, y@.len() as int) =~= x@);
            lemma_encode_injective(a@, b@);
        }
        true
    } else {
        proof {
            if a@ == b@ {
                assert(x@.subrange(0, y@.len() as int) =~= y@);
            }
        }
        false
    }
}

/// Two texts in one.
pub fn join(first: &str, second: &str) -> (joined: String)
    ensures
        joined@ == first@ + second@,
{
    let mut joined = String::from_str(first);
    joined.append(second);
    joined
}

/// Three texts in one.
pub fn join3(first: &str, second: &str, third: &str) -> (joined: String)
    ensures
        joined@ == first@ + second@ + third@,
{
    let mut joined = String::from_str(first);
    joined.append(second);
    joined.append(third);
    joined
}

} // verus!
