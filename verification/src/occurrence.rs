//! What it means for a pattern to occur in a line: character by character,
//! exactly or up to the search engine's case folding, and the list of
//! occurrences that a left-to-right search reports.

use vstd::prelude::*;

verus! {

/// Whether the search engine, folding case, lets the pattern character
/// `wanted` stand for the text character `seen`. The relation is the
/// engine's own table of Unicode simple case foldings.
pub uninterp spec fn folds_with(wanted: char, seen: char) -> bool;

/// Whether two characters are the same letter of the ASCII alphabet, one
/// in upper and one in lower case.
pub open spec fn same_ascii_letter(a: char, b: char) -> bool {
    ||| 'a' as u32 <= a as u32 <= 'z' as u32 && b as u32 + 32 == a as u32
    ||| 'a' as u32 <= b as u32 <= 'z' as u32 && a as u32 + 32 == b as u32
}

/// Whether a pattern character agrees with a text character: they are the
/// same character or, when case is folded, the same ASCII letter in
/// either case, or characters that the engine's table folds together.
pub open spec fn chars_agree(fold: bool, wanted: char, seen: char) -> bool {
    wanted == seen || (fold && (same_ascii_letter(wanted, seen) || folds_with(wanted, seen)))
}

/// With case folded, a letter of the ASCII alphabet agrees with itself in
/// either case.
pub proof fn lemma_ascii_letters_agree_when_folded(wanted: char, seen: char)
    requires
        same_ascii_letter(wanted, seen),
    ensures
        chars_agree(true, wanted, seen),
        chars_agree(true, seen, wanted),
{
}

/// Whether `pattern` occurs in `line` starting at character index `at`.
pub open spec fn occurs_at(line: Seq<char>, pattern: Seq<char>, fold: bool, at: int) -> bool {
    &&& 0 <= at
    &&& at + pattern.len() <= line.len()
    &&& forall|k: int|
        0 <= k < pattern.len() ==> chars_agree(fold, #[trigger] pattern[k], line[at + k])
}

/// Whether `line` contains `pattern` as a substring under the case rule.
pub open spec fn occurs(line: Seq<char>, pattern: Seq<char>, fold: bool) -> bool {
    exists|at: int| occurs_at(line, pattern, fold, at)
}

/// The starting indices of the occurrences that a search from `from`
/// reports: the leftmost one first, then the leftmost one that starts at or
/// after the end of the one before, so that no two overlap.
pub open spec fn occurrences_from(line: Seq<char>, pattern: Seq<char>, fold: bool, from: int) -> Seq<
    int,
>
    decreases line.len() - from,
{
    if pattern.len() == 0 || from < 0 || from + pattern.len() > line.len() {
        Seq::empty()
    } else if occurs_at(line, pattern, fold, from) {
        seq![from] + occurrences_from(line, pattern, fold, from + pattern.len())
    } else {
        occurrences_from(line, pattern, fold, from + 1)
    }
}

/// The occurrences of `pattern` in the whole of `line`.
pub open spec fn occurrences(line: Seq<char>, pattern: Seq<char>, fold: bool) -> Seq<int> {
    occurrences_from(line, pattern, fold, 0)
}

/// What a search reports are occurrences, each within the line, in
/// increasing order and without overlap.
pub proof fn lemma_occurrences_in_order(
    line: Seq<char>,
    pattern: Seq<char>,
    fold: bool,
    from: int,
)
    requires
        0 <= from,
    ensures
        ({
            let found = occurrences_from(line, pattern, fold, from);
            forall|j: int|
                0 <= j < found.len() ==> {
                    &&& from <= #[trigger] found[j]
                    &&& found[j] + pattern.len() <= line.len()
                    &&& occurs_at(line, pattern, fold, found[j])
                    &&& j + 1 < found.len() ==> found[j] + pattern.len() <= found[j + 1]
                }
        }),
    decreases line.len() - from,
{
    if pattern.len() == 0 || from + pattern.len() > line.len() {
        assert(occurrences_from(line, pattern, fold, from) =~= Seq::<int>::empty());
    } else if occurs_at(line, pattern, fold, from) {
        let rest = occurrences_from(line, pattern, fold, from + pattern.len());
        lemma_occurrences_in_order(line, pattern, fold, from + pattern.len());
        let found = occurrences_from(line, pattern, fold, from);
        assert(found =~= seq![from] + rest);
        assert forall|j: int| 0 <= j < found.len() implies {
            &&& from <= #[trigger] found[j]
            &&& found[j] + pattern.len() <= line.len()
            &&& occurs_at(line, pattern, fold, found[j])
            &&& j + 1 < found.len() ==> found[j] + pattern.len() <= found[j + 1]
        } by {
            if j > 0 {
                assert(found[j] == rest[j - 1]);
            }
            if j + 1 < found.len() {
                assert(found[j + 1] == rest[j]);
            }
        }
    } else {
        lemma_occurrences_in_order(line, pattern, fold, from + 1);
        assert(occurrences_from(line, pattern, fold, from) == occurrences_from(
            line,
            pattern,
            fold,
            from + 1,
        ));
    }
}

/// A search from `from` reports something whenever the pattern occurs at
/// or after `from`.
pub proof fn lemma_occurrence_is_reported(
    line: Seq<char>,
    pattern: Seq<char>,
    fold: bool,
    from: int,
    at: int,
)
    requires
        pattern.len() > 0,
        0 <= from <= at,
        occurs_at(line, pattern, fold, at),
    ensures
        occurrences_from(line, pattern, fold, from).len() > 0,
    decreases at - from,
{
    if !occurs_at(line, pattern, fold, from) {
        lemma_occurrence_is_reported(line, pattern, fold, from + 1, at);
    }
}

/// A line contains a pattern that is not empty exactly when the search
/// reports an occurrence.
pub proof fn lemma_occurs_iff_reported(line: Seq<char>, pattern: Seq<char>, fold: bool)
    requires
        pattern.len() > 0,
    ensures
        occurs(line, pattern, fold) <==> occurrences(line, pattern, fold).len() > 0,
{
    if occurs(line, pattern, fold) {
        let at = choose|at: int| occurs_at(line, pattern, fold, at);
        lemma_occurrence_is_reported(line, pattern, fold, 0, at);
    }
    if occurrences(line, pattern, fold).len() > 0 {
        lemma_occurrences_in_order(line, pattern, fold, 0);
        assert(occurs_at(line, pattern, fold, occurrences(line, pattern, fold)[0]));
    }
}

} // verus!
