//! The regular-expression engine behind the matcher. The engine is only
//! ever given escaped literals, and the contracts here say what it does
//! with them.

use crate::occurrence::{folds_with, occurrences, occurs, same_ascii_letter};
use crate::offsets::located;
use regex::Regex;
use regex::RegexBuilder;
use vstd::prelude::*;

verus! {

/// `regex::Regex`, a compiled expression. Nothing of its inside is known
/// here.
#[verifier::external_type_specification]
#[verifier::external_body]
pub struct ExRegex(regex::Regex);

/// `regex::Error`, the reason why an expression was not compiled. Nothing
/// of its inside is known here.
#[verifier::external_type_specification]
#[verifier::external_body]
pub struct ExRegexError(regex::Error);

/// The expression text that an engine was built from, as `Regex::as_str`
/// gives it back.
pub uninterp spec fn engine_source(engine: Regex) -> Seq<char>;

/// Whether an engine was built to fold case, as
/// `RegexBuilder::case_insensitive` was told.
pub uninterp spec fn engine_folds(engine: Regex) -> bool;

/// Whether the engine can be built from an expression text with a case
/// rule: whether `RegexBuilder::build` succeeds on them. That depends on
/// the text and the settings alone.
pub uninterp spec fn engine_takes(source: Seq<char>, fold: bool) -> bool;

/// Whether a character has a meaning of its own in an expression.
pub open spec fn is_meta(c: char) -> bool {
    c == '\\' || c == '.' || c == '+' || c == '*' || c == '?' || c == '(' || c == ')' || c == '|'
        || c == '[' || c == ']' || c == '{' || c == '}' || c == '^' || c == '$' || c == '#' || c
        == '&' || c == '-' || c == '~'
}

/// `text` with a backslash put before each character that has a meaning in
/// an expression.
pub open spec fn escaped(text: Seq<char>) -> Seq<char>
    decreases text.len(),
{
    if text.len() == 0 {
        text
    } else if is_meta(text.last()) {
        escaped(text.drop_last()) + seq!['\\', text.last()]
    } else {
        escaped(text.drop_last()) + seq![text.last()]
    }
}

/// Whether `found` lists, as pairs of byte offsets into `line`, the
/// occurrences of `pattern` in reporting order.
pub open spec fn reports(
    found: Seq<(usize, usize)>,
    line: Seq<char>,
    pattern: Seq<char>,
    fold: bool,
) -> bool {
    located(found, line, occurrences(line, pattern, fold), pattern.len() as int)
}

/// Calls `regex::escape`, which writes a backslash before every
/// character for which `regex_syntax::is_meta_character` holds and copies
/// the others.
#[verifier::external_body]
pub(crate) fn escape_literal(pattern: &str) -> (source: String)
    ensures
        source@ == escaped(pattern@),
{
    regex::escape(pattern)
}

/// Calls `RegexBuilder::new(..).case_insensitive(..).unicode(true).build()`.
/// Whether an engine comes back depends on the text and the case rule
/// alone, and is what `engine_takes` names; an engine that comes back
/// was built from `source` with the given case rule.
#[verifier::external_body]
pub(crate) fn build_engine(source: &str, fold: bool) -> (built: Result<Regex, regex::Error>)
    ensures
        built is Ok <==> engine_takes(source@, fold),
        built matches Ok(engine) ==> engine_source(engine) == source@ && engine_folds(engine)
            == fold,
{
    RegexBuilder::new(source).case_insensitive(fold).unicode(true).build()
}

/// Calls `Regex::is_match`. For an engine built from an escaped literal
/// the answer is whether the literal occurs in the line: the escaped form
/// matches the literal's characters one by one, each either exactly or,
/// when the engine folds case, within its case-folding class. That class
/// holds, for a letter of the ASCII alphabet, the same letter in the
/// other case, as the first entries of the table `CASE_FOLDING_SIMPLE` of
/// `regex_syntax` show. The second clause is the first on a literal and a
/// line of one character each: it is what `folds_with` names.
#[verifier::external_body]
pub(crate) fn engine_is_match(engine: &Regex, line: &str) -> (hit: bool)
    ensures
        forall|pattern: Seq<char>|
            #[trigger] escaped(pattern) == engine_source(*engine) && pattern.len() > 0 ==> hit
                == occurs(line@, pattern, engine_folds(*engine)),
        forall|wanted: char|
            #[trigger] escaped(seq![wanted]) == engine_source(*engine) && engine_folds(*engine)
                && line@.len() == 1 ==> hit == (wanted == line@[0] || same_ascii_letter(
                wanted,
                line@[0],
            ) || folds_with(wanted, line@[0])),
{
    engine.is_match(line)
}

/// Calls `Regex::find_iter` and hands out each match as its pair of byte
/// offsets, `Match::start` and `Match::end`. For an engine built from an
/// escaped literal these are the successive non-overlapping occurrences
/// of the literal, leftmost first.
#[verifier::external_body]
pub(crate) fn engine_find_all(engine: &Regex, line: &str) -> (found: Vec<(usize, usize)>)
    ensures
        forall|pattern: Seq<char>|
            #[trigger] escaped(pattern) == engine_source(*engine) && pattern.len() > 0
                ==> reports(found@, line@, pattern, engine_folds(*engine)),
{
    engine.find_iter(line).map(|m| (m.start(), m.end())).collect()
}

} // verus!
