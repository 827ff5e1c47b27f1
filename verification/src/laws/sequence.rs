//! What finding and splitting mean, element by element.

use vstd::prelude::*;

use crate::sequence::{
    first_index, is_first, is_last, last_index, lemma_first_index, lemma_last_index,
    lemma_occurrence_has_first, occurs, occurs_at, rsplit_once, split_once, starts_with,
};

verus! {

/// The elements of `part` stand in `whole`, one after the other, from index `at` on.
pub open spec fn stands<T>(whole: Seq<T>, part: Seq<T>, at: int) -> bool {
    &&& 0 <= at
    &&& at + part.len() <= whole.len()
    &&& forall|i: int| 0 <= i < part.len() ==> whole[at + i] == #[trigger] part[i]
}

/// A part occurs at an index exactly where its elements stand there.
pub proof fn law_occurrence_is_elementwise<T>(whole: Seq<T>, part: Seq<T>, at: int)
    ensures
        occurs_at(whole, part, at) <==> stands(whole, part, at),
{
    if stands(whole, part, at) {
        assert(whole.subrange(at, at + part.len()) =~= part);
    }
    if occurs_at(whole, part, at) {
        assert forall|i: int| 0 <= i < part.len() implies whole[at + i] == #[trigger] part[i] by {
            assert(whole.subrange(at, at + part.len())[i] == whole[at + i]);
        }
    }
}

/// The same at every index.
pub proof fn lemma_occurrences_are_elementwise<T>(whole: Seq<T>, part: Seq<T>)
    ensures
        forall|at: int| #[trigger] occurs_at(whole, part, at) <==> stands(whole, part, at),
        forall|at: int| occurs_at(whole, part, at) <==> #[trigger] stands(whole, part, at),
{
    assert forall|at: int| #[trigger] occurs_at(whole, part, at) <==> stands(whole, part, at) by {
        law_occurrence_is_elementwise(whole, part, at);
    }
    assert forall|at: int| occurs_at(whole, part, at) <==> #[trigger] stands(whole, part, at) by {
        law_occurrence_is_elementwise(whole, part, at);
    }
}

/// A part occurs in a whole exactly where its elements stand somewhere in it, and the whole starts
/// with it exactly where they stand at its start.
pub proof fn law_part_is_found_where_it_stands<T>(whole: Seq<T>, part: Seq<T>)
    ensures
        occurs(whole, part) <==> exists|at: int| stands(whole, part, at),
        starts_with(whole, part) <==> stands(whole, part, 0),
{
    lemma_occurrences_are_elementwise(whole, part);
    if exists|at: int| stands(whole, part, at) {
        let at = choose|at: int| stands(whole, part, at);
        assert(occurs_at(whole, part, at));
    }
    if occurs(whole, part) {
        let at = choose|at: int| occurs_at(whole, part, at);
        assert(stands(whole, part, at));
    }
    assert(occurs_at(whole, part, 0) <==> stands(whole, part, 0));
}

/// The first index is the one at which the part stands and before which it does not; there is none
/// exactly where it stands nowhere.
pub proof fn law_first_index_is_the_first<T>(whole: Seq<T>, part: Seq<T>, at: int)
    ensures
        first_index(whole, part) == Some(at) <==> {
            &&& stands(whole, part, at)
            &&& forall|earlier: int| 0 <= earlier < at ==> !stands(whole, part, earlier)
        },
        first_index(whole, part) is None <==> forall|i: int| !stands(whole, part, i),
{
    lemma_occurrences_are_elementwise(whole, part);
    if first_index(whole, part) is Some {
        let first = first_index(whole, part)->0;
        assert(is_first(whole, part, first));
        assert(stands(whole, part, first));
    } else {
        assert forall|i: int| !stands(whole, part, i) by {
            if stands(whole, part, i) {
                assert(occurs_at(whole, part, i));
                lemma_occurrence_has_first(whole, part, i);
            }
        }
    }
    if stands(whole, part, at) && forall|earlier: int|
        0 <= earlier < at ==> !stands(whole, part, earlier) {
        assert(is_first(whole, part, at));
        lemma_first_index(whole, part, at);
    }
}

/// Where a part occurs at all, it has a last index.
proof fn lemma_occurrence_has_last<T>(whole: Seq<T>, part: Seq<T>, at: int)
    requires
        occurs_at(whole, part, at),
    ensures
        last_index(whole, part) is Some,
    decreases whole.len() - at,
{
    if exists|later: int| at < later && occurs_at(whole, part, later) {
        let later = choose|later: int| at < later && occurs_at(whole, part, later);
        lemma_occurrence_has_last(whole, part, later);
    } else {
        assert(is_last(whole, part, at));
        lemma_last_index(whole, part, at);
    }
}

/// The last index is the one at which the part stands and after which it does not; there is none
/// exactly where it stands nowhere.
pub proof fn law_last_index_is_the_last<T>(whole: Seq<T>, part: Seq<T>, at: int)
    ensures
        last_index(whole, part) == Some(at) <==> {
            &&& stands(whole, part, at)
            &&& forall|later: int| at < later ==> !stands(whole, part, later)
        },
        last_index(whole, part) is None <==> forall|i: int| !stands(whole, part, i),
{
    lemma_occurrences_are_elementwise(whole, part);
    if last_index(whole, part) is Some {
        let last = last_index(whole, part)->0;
        assert(is_last(whole, part, last));
        assert(stands(whole, part, last));
    } else {
        assert forall|i: int| !stands(whole, part, i) by {
            if stands(whole, part, i) {
                assert(occurs_at(whole, part, i));
                lemma_occurrence_has_last(whole, part, i);
            }
        }
    }
    if stands(whole, part, at) && forall|later: int| at < later ==> !stands(whole, part, later) {
        assert(is_last(whole, part, at));
        lemma_last_index(whole, part, at);
    }
}

/// Two sides and the separator between them, in which it does not stand earlier, are split into those
/// two sides; what is split is nothing else; and what does not hold the separator is not split.
pub proof fn law_split_undoes_joining<T>(
    whole: Seq<T>,
    separator: Seq<T>,
    before: Seq<T>,
    after: Seq<T>,
)
    ensures
        split_once(whole, separator) == Some((before, after)) <==> {
            &&& whole == before + separator + after
            &&& forall|earlier: int|
                0 <= earlier < before.len() ==> !stands(whole, separator, earlier)
        },
        split_once(whole, separator) is None <==> forall|i: int| !stands(whole, separator, i),
{
    let at = before.len() as int;
    law_first_index_is_the_first(whole, separator, at);
    if whole == before + separator + after && forall|earlier: int|
        0 <= earlier < before.len() ==> !stands(whole, separator, earlier) {
        assert(stands(whole, separator, at));
        assert(whole.take(at) =~= before);
        assert(whole.skip(at + separator.len()) =~= after);
    }
    if split_once(whole, separator) == Some((before, after)) {
        let first = first_index(whole, separator)->0;
        law_first_index_is_the_first(whole, separator, first);
        assert(first == at);
        assert(whole =~= before + separator + after);
    }
}

/// Two sides and the separator between them, in which it does not stand later, are split from the
/// back into those two sides; what is split is nothing else; and what does not hold the separator is
/// not split.
pub proof fn law_rsplit_undoes_joining<T>(
    whole: Seq<T>,
    separator: Seq<T>,
    before: Seq<T>,
    after: Seq<T>,
)
    ensures
        rsplit_once(whole, separator) == Some((before, after)) <==> {
            &&& whole == before + separator + after
            &&& forall|later: int| before.len() < later ==> !stands(whole, separator, later)
        },
        rsplit_once(whole, separator) is None <==> forall|i: int| !stands(whole, separator, i),
{
    let at = before.len() as int;
    law_last_index_is_the_last(whole, separator, at);
    if whole == before + separator + after && forall|later: int|
        before.len() < later ==> !stands(whole, separator, later) {
        assert(stands(whole, separator, at));
        assert(whole.take(at) =~= before);
        assert(whole.skip(at + separator.len()) =~= after);
    }
    if rsplit_once(whole, separator) == Some((before, after)) {
        let last = last_index(whole, separator)->0;
        law_last_index_is_the_last(whole, separator, last);
        assert(last == at);
        assert(whole =~= before + separator + after);
    }
}

/// Sides that a single element parts, where the first of them does not hold it.
pub proof fn lemma_split_at_element<T>(before: Seq<T>, separator: T, after: Seq<T>)
    requires
        !before.contains(separator),
    ensures
        split_once(before + seq![separator] + after, seq![separator]) == Some((before, after)),
{
    let whole = before + seq![separator] + after;
    assert forall|earlier: int| 0 <= earlier < before.len() implies !stands(
        whole,
        seq![separator],
        earlier,
    ) by {
        assert(whole[earlier + 0] == before[earlier]);
        assert(seq![separator][0] == separator);
    }
    law_split_undoes_joining(whole, seq![separator], before, after);
}

/// Sides that a single element parts, where the second of them does not hold it.
pub proof fn lemma_rsplit_at_element<T>(before: Seq<T>, separator: T, after: Seq<T>)
    requires
        !after.contains(separator),
    ensures
        rsplit_once(before + seq![separator] + after, seq![separator]) == Some((before, after)),
{
    let whole = before + seq![separator] + after;
    assert forall|later: int| before.len() < later implies !stands(
        whole,
        seq![separator],
        later,
    ) by {
        if stands(whole, seq![separator], later) {
            assert(whole[later + 0] == after[later - before.len() - 1]);
            assert(seq![separator][0] == separator);
        }
    }
    law_rsplit_undoes_joining(whole, seq![separator], before, after);
}

/// What does not hold an element is not split at it.
pub proof fn lemma_no_split_without_element<T>(whole: Seq<T>, separator: T)
    requires
        !whole.contains(separator),
    ensures
        split_once(whole, seq![separator]) is None,
        rsplit_once(whole, seq![separator]) is None,
        !occurs(whole, seq![separator]),
{
    assert forall|i: int| !stands(whole, seq![separator], i) by {
        if stands(whole, seq![separator], i) {
            assert(whole[i + 0] == seq![separator][0]);
        }
    }
    law_split_undoes_joining(whole, seq![separator], whole, whole);
    law_rsplit_undoes_joining(whole, seq![separator], whole, whole);
    law_part_is_found_where_it_stands(whole, seq![separator]);
}

} // verus!
