//! The emission rule: which lines a search hands on, given whether they
//! matched and whether the search is inverted.

use vstd::prelude::*;

verus! {

/// Whether a line is eligible for output: a plain search keeps the lines
/// that matched, an inverted search keeps exactly the others.
pub open spec fn eligible(invert_match: bool, pattern_found: bool) -> bool {
    pattern_found != invert_match
}

/// Decides whether a line is to be printed.
pub fn should_print(invert_match: bool, pattern_found: bool) -> (print: bool)
    ensures
        print == eligible(invert_match, pattern_found),
{
    if invert_match {
        !pattern_found
    } else {
        pattern_found
    }
}

/// Inverting a search selects the complement: whatever a line's match
/// result, it is eligible under exactly one of the two settings.
pub proof fn lemma_invert_is_complement(pattern_found: bool)
    ensures
        eligible(true, pattern_found) == !eligible(false, pattern_found),
{
}

} // verus!
