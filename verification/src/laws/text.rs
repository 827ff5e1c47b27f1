//! What case and white space mean.

use vstd::prelude::*;

use crate::text::{
    is_white_space, lower, lower_char, same_ignoring_case, trim_end, trim_start, trimmed,
};

verus! {

/// The two characters are the same, or the capital and the small form of one ASCII letter.
pub open spec fn same_letter(a: char, b: char) -> bool {
    ||| a == b
    ||| 'A' <= a <= 'Z' && b as int == a as int + 32
    ||| 'A' <= b <= 'Z' && a as int == b as int + 32
}

/// The two texts are the same, letter by letter.
pub open spec fn alike(a: Seq<char>, b: Seq<char>) -> bool {
    a.len() == b.len() && forall|i: int|
        0 <= i < a.len() ==> same_letter(#[trigger] a[i], b[i])
}

/// Two characters have one small form exactly where they are the same letter.
proof fn lemma_same_letter(a: char, b: char)
    ensures
        lower_char(a) == lower_char(b) <==> same_letter(a, b),
{
}

/// Two texts are equal but for case exactly where they are the same, letter by letter.
pub proof fn law_case_makes_no_other_difference(a: Seq<char>, b: Seq<char>)
    ensures
        same_ignoring_case(a, b) <==> alike(a, b),
{
    if same_ignoring_case(a, b) {
        assert(lower(a).len() == a.len() && lower(b).len() == b.len());
        assert forall|i: int| 0 <= i < a.len() implies same_letter(#[trigger] a[i], b[i]) by {
            assert(lower(a)[i] == lower(b)[i]);
            lemma_same_letter(a[i], b[i]);
        }
    }
    if alike(a, b) {
        assert forall|i: int| 0 <= i < a.len() implies lower(a)[i] == lower(b)[i] by {
            assert(same_letter(a[i], b[i]));
            lemma_same_letter(a[i], b[i]);
        }
        assert(lower(a) =~= lower(b));
    }
}

/// The small form of a text has small letters where the text has capitals, and is the text elsewhere.
pub proof fn law_lower_changes_capitals_alone(text: Seq<char>)
    ensures
        lower(text).len() == text.len(),
        forall|i: int|
            0 <= i < text.len() ==> {
                if 'A' <= text[i] <= 'Z' {
                    #[trigger] lower(text)[i] as int == text[i] as int + 32
                } else {
                    lower(text)[i] == text[i]
                }
            },
{
    assert forall|i: int| 0 <= i < text.len() implies {
        if 'A' <= text[i] <= 'Z' {
            #[trigger] lower(text)[i] as int == text[i] as int + 32
        } else {
            lower(text)[i] == text[i]
        }
    } by {
        lemma_lower_char(text[i]);
    }
}

/// The small form of a character.
proof fn lemma_lower_char(c: char)
    ensures
        'A' <= c <= 'Z' ==> lower_char(c) as int == c as int + 32,
        !('A' <= c <= 'Z') ==> lower_char(c) == c,
{
}

/// The character is one of the Unicode white space characters, by its number.
pub open spec fn is_blank(c: char) -> bool {
    let n = c as int;
    9 <= n <= 13 || n == 32 || n == 133 || n == 160 || n == 5760 || 8192 <= n <= 8202 || n == 8232
        || n == 8233 || n == 8239 || n == 8287 || n == 12288
}

/// The text is white space, or empty.
pub open spec fn all_blank(text: Seq<char>) -> bool {
    forall|i: int| 0 <= i < text.len() ==> is_blank(#[trigger] text[i])
}

/// The text neither starts nor ends with white space.
pub open spec fn is_core(text: Seq<char>) -> bool {
    text.len() > 0 ==> !is_blank(text[0]) && !is_blank(text[text.len() - 1])
}

/// White space is what Unicode says it is.
pub proof fn law_white_space_is_by_number(c: char)
    ensures
        is_white_space(c) <==> is_blank(c),
{
}

/// Trimming takes the white space around a text away, and nothing of the text.
pub proof fn law_trimming_leaves_the_core(left: Seq<char>, core: Seq<char>, right: Seq<char>)
    requires
        all_blank(left),
        all_blank(right),
        is_core(core),
    ensures
        trimmed(left + core + right) == core,
{
    let rest = core + right;
    assert(left + core + right =~= left + rest);
    lemma_trim_front(left, rest);
    if core.len() == 0 {
        lemma_trim_front(right, Seq::empty());
        assert(right + Seq::<char>::empty() =~= right);
        assert(rest =~= right);
        assert(trim_start(rest) =~= core);
        assert(trim_end(core) =~= core);
    } else {
        assert(rest[0] == core[0]);
        law_white_space_is_by_number(core[0]);
        assert(trim_start(rest) == rest);
        lemma_trim_back(core, right);
        law_white_space_is_by_number(core[core.len() - 1]);
        assert(trim_end(core) == core);
    }
}

/// White space at the front is taken away.
proof fn lemma_trim_front(left: Seq<char>, rest: Seq<char>)
    requires
        all_blank(left),
    ensures
        trim_start(left + rest) == trim_start(rest),
    decreases left.len(),
{
    if left.len() == 0 {
        assert(left + rest =~= rest);
    } else {
        assert(is_blank(left[0]));
        law_white_space_is_by_number(left[0]);
        assert forall|i: int| 0 <= i < left.drop_first().len() implies is_blank(
            #[trigger] left.drop_first()[i],
        ) by {
            assert(left.drop_first()[i] == left[i + 1]);
        }
        lemma_trim_front(left.drop_first(), rest);
        assert((left + rest).drop_first() =~= left.drop_first() + rest);
    }
}

/// White space at the back is taken away.
proof fn lemma_trim_back(front: Seq<char>, right: Seq<char>)
    requires
        all_blank(right),
    ensures
        trim_end(front + right) == trim_end(front),
    decreases right.len(),
{
    if right.len() == 0 {
        assert(front + right =~= front);
    } else {
        assert(is_blank(right[right.len() - 1]));
        law_white_space_is_by_number(right[right.len() - 1]);
        assert forall|i: int| 0 <= i < right.drop_last().len() implies is_blank(
            #[trigger] right.drop_last()[i],
        ) by {
            assert(right.drop_last()[i] == right[i]);
        }
        lemma_trim_back(front, right.drop_last());
        assert((front + right).drop_last() =~= front + right.drop_last());
    }
}

} // verus!
