//! Finding one sequence inside another, for bytes and for characters alike.

use vstd::prelude::*;

verus! {

/// `part` stands in `whole` at index `at`.
pub open spec fn occurs_at<T>(whole: Seq<T>, part: Seq<T>, at: int) -> bool {
    &&& 0 <= at <= whole.len() - part.len()
    &&& whole.subrange(at, at + part.len()) == part
}

/// `part` stands somewhere in `whole`.
pub open spec fn occurs<T>(whole: Seq<T>, part: Seq<T>) -> bool {
    exists|at: int| occurs_at(whole, part, at)
}

/// `at` is the first index at which `part` stands in `whole`.
pub open spec fn is_first<T>(whole: Seq<T>, part: Seq<T>, at: int) -> bool {
    &&& occurs_at(whole, part, at)
    &&& forall|earlier: int| 0 <= earlier < at ==> !occurs_at(whole, part, earlier)
}

/// `at` is the last index at which `part` stands in `whole`.
pub open spec fn is_last<T>(whole: Seq<T>, part: Seq<T>, at: int) -> bool {
    &&& occurs_at(whole, part, at)
    &&& forall|later: int| at < later ==> !occurs_at(whole, part, later)
}

/// The first index at which `part` stands in `whole`, if there is one.
pub open spec fn first_index<T>(whole: Seq<T>, part: Seq<T>) -> Option<int> {
    if exists|at: int| is_first(whole, part, at) {
        Some(choose|at: int| is_first(whole, part, at))
    } else {
        None
    }
}

/// The last index at which `part` stands in `whole`, if there is one.
pub open spec fn last_index<T>(whole: Seq<T>, part: Seq<T>) -> Option<int> {
    if exists|at: int| is_last(whole, part, at) {
        Some(choose|at: int| is_last(whole, part, at))
    } else {
        None
    }
}

/// What stands before and after the first `separator` in `whole`, if there is one.
pub open spec fn split_once<T>(whole: Seq<T>, separator: Seq<T>) -> Option<(Seq<T>, Seq<T>)> {
    match first_index(whole, separator) {
        Some(at) => Some((whole.take(at), whole.skip(at + separator.len()))),
        None => None,
    }
}

/// What stands before and after the last `separator` in `whole`, if there is one.
pub open spec fn rsplit_once<T>(whole: Seq<T>, separator: Seq<T>) -> Option<(Seq<T>, Seq<T>)> {
    match last_index(whole, separator) {
        Some(at) => Some((whole.take(at), whole.skip(at + separator.len()))),
        None => None,
    }
}

/// `whole` begins with `part`.
pub open spec fn starts_with<T>(whole: Seq<T>, part: Seq<T>) -> bool {
    occurs_at(whole, part, 0)
}

/// The first index is the only one of its kind.
pub proof fn lemma_first_index<T>(whole: Seq<T>, part: Seq<T>, at: int)
    requires
        is_first(whole, part, at),
    ensures
        first_index(whole, part) == Some(at),
{
    let chosen = choose|i: int| is_first(whole, part, i);
    assert(is_first(whole, part, chosen));
    if chosen < at {
        assert(!occurs_at(whole, part, chosen));
    } else if at < chosen {
        assert(!occurs_at(whole, part, at));
    }
}

/// The last index is the only one of its kind.
pub proof fn lemma_last_index<T>(whole: Seq<T>, part: Seq<T>, at: int)
    requires
        is_last(whole, part, at),
    ensures
        last_index(whole, part) == Some(at),
{
    let chosen = choose|i: int| is_last(whole, part, i);
    assert(is_last(whole, part, chosen));
    if chosen < at {
        assert(!occurs_at(whole, part, at));
    } else if at < chosen {
        assert(!occurs_at(whole, part, chosen));
    }
}

/// Where `part` stands in `whole` at all, it has a first index.
pub proof fn lemma_occurrence_has_first<T>(whole: Seq<T>, part: Seq<T>, at: int)
    requires
        occurs_at(whole, part, at),
    ensures
        first_index(whole, part) is Some,
        is_first(whole, part, first_index(whole, part)->0),
        first_index(whole, part)->0 <= at,
    decreases at,
{
    if exists|earlier: int| 0 <= earlier < at && occurs_at(whole, part, earlier) {
        let earlier = choose|earlier: int| 0 <= earlier < at && occurs_at(whole, part, earlier);
        lemma_occurrence_has_first(whole, part, earlier);
    } else {
        assert(is_first(whole, part, at));
        lemma_first_index(whole, part, at);
    }
}

/// An occurrence that `whole` already holds stays the first one, whatever follows.
pub proof fn lemma_first_index_of_longer<T>(whole: Seq<T>, more: Seq<T>, part: Seq<T>)
    requires
        first_index(whole, part) is Some,
    ensures
        first_index(whole + more, part) == first_index(whole, part),
{
    let at = first_index(whole, part)->0;
    assert(is_first(whole, part, at));
    assert((whole + more).subrange(at, at + part.len()) =~= part);
    assert forall|earlier: int| 0 <= earlier < at implies !occurs_at(
        whole + more,
        part,
        earlier,
    ) by {
        if occurs_at(whole + more, part, earlier) {
            assert(whole.subrange(earlier, earlier + part.len()) =~= part);
            assert(occurs_at(whole, part, earlier));
        }
    }
    lemma_first_index(whole + more, part, at);
}

/// A split that `whole` already allows stays, whatever follows.
pub proof fn lemma_split_of_longer<T>(whole: Seq<T>, more: Seq<T>, separator: Seq<T>)
    requires
        split_once(whole, separator) is Some,
    ensures
        split_once(whole + more, separator) == Some(
            (
                (split_once(whole, separator)->0).0,
                (split_once(whole, separator)->0).1 + more,
            ),
        ),
{
    lemma_first_index_of_longer(whole, more, separator);
    let at = first_index(whole, separator)->0;
    assert(is_first(whole, separator, at));
    assert((whole + more).take(at) =~= whole.take(at));
    assert((whole + more).skip(at + separator.len()) =~= whole.skip(at + separator.len()) + more);
}

/// `part` stands in `whole` where the two sides of a split leave room for it.
pub proof fn lemma_occurs_between<T>(before: Seq<T>, part: Seq<T>, after: Seq<T>)
    ensures
        occurs_at(before + part + after, part, before.len() as int),
        (before + part + after).take(before.len() as int) == before,
        (before + part + after).skip((before.len() + part.len()) as int) == after,
{
    let whole = before + part + after;
    assert(whole.subrange(before.len() as int, (before.len() + part.len()) as int) =~= part);
    assert(whole.take(before.len() as int) =~= before);
    assert(whole.skip((before.len() + part.len()) as int) =~= after);
}

/// An occurrence cuts `whole` into what stands before it, itself, and what stands after it.
pub proof fn lemma_cut_at_occurrence<T>(whole: Seq<T>, part: Seq<T>, at: int)
    requires
        occurs_at(whole, part, at),
    ensures
        whole == whole.take(at) + part + whole.skip(at + part.len()),
{
    assert(whole =~= whole.take(at) + whole.subrange(at, at + part.len()) + whole.skip(
        at + part.len(),
    ));
}

/// Finds `needle` in `haystack`: the first index at which it stands there.
pub fn find(haystack: &[u8], needle: &[u8]) -> (found: Option<usize>)
    requires
        needle@.len() > 0,
    ensures
        match found {
            Some(at) => first_index(haystack@, needle@) == Some(at as int) && is_first(
                haystack@,
                needle@,
                at as int,
            ),
            None => first_index(haystack@, needle@) is None && !occurs(haystack@, needle@),
        },
{
    if haystack.len() < needle.len() {
        return None;
    }
    let last: usize = haystack.len() - needle.len();
    let mut at: usize = 0;
    while at <= last
        invariant
            needle@.len() > 0,
            last == haystack.len() - needle.len(),
            at <= last + 1,
            forall|earlier: int| 0 <= earlier < at ==> !occurs_at(haystack@, needle@, earlier),
        decreases last + 1 - at,
    {
        if matches_at(haystack, needle, at) {
            proof {
                lemma_first_index(haystack@, needle@, at as int);
            }
            return Some(at);
        }
        at = at + 1;
    }
    None
}

/// Finds `needle` in `haystack` from the back: the last index at which it stands there.
pub fn rfind(haystack: &[u8], needle: &[u8]) -> (found: Option<usize>)
    requires
        needle@.len() > 0,
    ensures
        match found {
            Some(at) => last_index(haystack@, needle@) == Some(at as int) && is_last(
                haystack@,
                needle@,
                at as int,
            ),
            None => last_index(haystack@, needle@) is None && !occurs(haystack@, needle@),
        },
{
    if haystack.len() < needle.len() {
        return None;
    }
    let mut end: usize = haystack.len() - needle.len() + 1;
    while end > 0
        invariant
            needle@.len() > 0,
            end <= haystack.len() - needle.len() + 1,
            forall|later: int| end <= later ==> !occurs_at(haystack@, needle@, later),
        decreases end,
    {
        end = end - 1;
        if matches_at(haystack, needle, end) {
            proof {
                lemma_last_index(haystack@, needle@, end as int);
            }
            return Some(end);
        }
    }
    None
}

/// Whether `needle` stands in `haystack` at index `at`.
pub fn matches_at(haystack: &[u8], needle: &[u8], at: usize) -> (matched: bool)
    requires
        at + needle@.len() <= haystack@.len(),
    ensures
        matched == occurs_at(haystack@, needle@, at as int),
{
    let mut i: usize = 0;
    while i < needle.len()
        invariant
            at + needle@.len() <= haystack.len(),
            i <= needle@.len(),
            forall|j: int| 0 <= j < i ==> haystack@[at + j] == needle@[j],
        decreases needle@.len() - i,
    {
        if haystack[at + i] != needle[i] {
            assert(haystack@.subrange(at as int, at + needle@.len())[i as int] != needle@[i as int]);
            return false;
        }
        i = i + 1;
    }
    assert(haystack@.subrange(at as int, at + needle@.len()) =~= needle@);
    true
}

} // verus!
