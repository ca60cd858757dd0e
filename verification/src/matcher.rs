//! The matcher: whether a line contains the pattern, and the line's
//! display text with the matches highlighted.

use crate::engine::{
    build_engine, engine_find_all, engine_folds, engine_is_match, engine_source, engine_takes,
    escape_literal, escaped, reports,
};
use crate::highlight::{
    lemma_ordered_bounds, lemma_strip_restores_line, marks_of, ordered, padding, paint_red, reach,
    rendered, settle, stripped, unwoven, woven, Highlight, Mark,
};
use crate::occurrence::{lemma_occurrences_in_order, occurrences, occurs};
use crate::offsets::{byte_offset, lemma_offsets, located, slice_between};
use regex::Regex;
use vstd::prelude::*;
use vstd::string::{StrSliceExecFns, StringExecFns};

verus! {

/// Why no matcher could be made for a pattern.
#[derive(Clone, Copy, Debug, PartialEq, Eq, Structural)]
pub enum PatternError {
    /// The pattern is empty.
    Empty,
    /// The search engine did not accept the pattern.
    Rejected,
}

impl PatternError {
    /// The text of the message for this error.
    pub open spec fn message_text(self) -> Seq<char> {
        match self {
            PatternError::Empty => "Error: No pattern provided"@,
            PatternError::Rejected => "Could not create regex builder for pattern"@,
        }
    }

    /// The message to show for this error.
    pub fn message(&self) -> (text: String)
        ensures
            text@ == self.message_text(),
    {
        match self {
            PatternError::Empty => "Error: No pattern provided".to_owned(),
            PatternError::Rejected => "Could not create regex builder for pattern".to_owned(),
        }
    }
}

/// Whether a matcher can be made for a pattern: the pattern is not
/// empty, and the search engine takes its escaped form with the case
/// rule.
pub open spec fn accepted(pattern: Seq<char>, fold: bool) -> bool {
    pattern.len() > 0 && engine_takes(escaped(pattern), fold)
}

/// Why no matcher is made for a pattern that is not accepted.
pub open spec fn refusal(pattern: Seq<char>) -> PatternError {
    if pattern.len() == 0 {
        PatternError::Empty
    } else {
        PatternError::Rejected
    }
}

/// A pattern made ready for searching lines.
#[derive(Debug)]
pub struct Matcher {
    pattern: String,
    case_insensitive: bool,
    engine: Regex,
}

/// The result of evaluating one line.
#[derive(Debug, PartialEq, Eq)]
pub struct LineMatch {
    matched: bool,
    display_text: String,
    highlights: Vec<Highlight>,
}

/// The mathematical content of a [`LineMatch`].
pub struct Decision {
    /// Whether the line contains the pattern.
    pub matched: bool,
    /// The line as it is to be shown.
    pub display_text: Seq<char>,
    /// The stretches of the line that are highlighted in the display text.
    pub marks: Seq<Mark>,
}

impl Decision {
    /// The display text without its highlight markers.
    pub open spec fn plain(self) -> Seq<char> {
        stripped(self.display_text, self.marks)
    }
}

/// Whether the marks lie exactly on the stretches of `width` characters
/// that begin at `starts`.
pub open spec fn marks_on(marks: Seq<Mark>, starts: Seq<int>, width: int) -> bool {
    &&& marks.len() == starts.len()
    &&& forall|j: int|
        0 <= j < marks.len() ==> (#[trigger] marks[j]).start == starts[j] && marks[j].end
            == starts[j] + width
}

/// Whether a decision is the one that evaluating `line` owes: the line
/// matches when it contains the pattern; when it matches and highlighting
/// is asked for, the marks lie on the occurrences that a left-to-right
/// search reports, and otherwise there are none; and the display text is
/// the line with those marks woven in.
pub open spec fn decides(
    decision: Decision,
    line: Seq<char>,
    pattern: Seq<char>,
    fold: bool,
    colorize: bool,
) -> bool {
    &&& decision.matched == occurs(line, pattern, fold)
    &&& if decision.matched && colorize {
        marks_on(decision.marks, occurrences(line, pattern, fold), pattern.len() as int)
    } else {
        decision.marks.len() == 0
    }
    &&& decision.display_text == rendered(line, decision.marks)
}

/// Whether the stretches of `width` characters that begin at `starts`
/// follow one another without overlap within `limit` characters.
pub open spec fn spaced(starts: Seq<int>, width: int, limit: int) -> bool {
    forall|k: int|
        0 <= k < starts.len() ==> {
            &&& 0 <= #[trigger] starts[k]
            &&& starts[k] + width <= limit
            &&& k + 1 < starts.len() ==> starts[k] + width <= starts[k + 1]
        }
}

/// Marks that lie on stretches which follow one another are in order and
/// end within the line.
pub proof fn lemma_marks_on_spaced_are_ordered(
    marks: Seq<Mark>,
    starts: Seq<int>,
    width: int,
    limit: int,
)
    requires
        0 <= width,
        0 <= limit,
        spaced(starts, width, limit),
        marks_on(marks, starts, width),
    ensures
        ordered(marks),
        reach(marks) <= limit,
    decreases marks.len(),
{
    if marks.len() > 0 {
        let fewer = starts.drop_last();
        assert(spaced(fewer, width, limit)) by {
            assert forall|k: int| 0 <= k < fewer.len() implies fewer[k] == starts[k] by {}
        }
        assert(marks_on(marks.drop_last(), fewer, width));
        lemma_marks_on_spaced_are_ordered(marks.drop_last(), fewer, width, limit);
    }
}

/// Highlighting round trip: whatever a line, a pattern and the settings,
/// the display text that evaluating the line owes is the line again once
/// its highlight markers are taken out.
pub proof fn lemma_display_text_strips_to_line(
    decision: Decision,
    line: Seq<char>,
    pattern: Seq<char>,
    fold: bool,
    colorize: bool,
)
    requires
        decides(decision, line, pattern, fold, colorize),
    ensures
        decision.plain() == line,
{
    if decision.matched && colorize {
        lemma_occurrences_in_order(line, pattern, fold, 0);
        lemma_marks_on_spaced_are_ordered(
            decision.marks,
            occurrences(line, pattern, fold),
            pattern.len() as int,
            line.len() as int,
        );
    }
    lemma_strip_restores_line(line, decision.marks);
}

/// Marks stay on their stretches when one more stretch gets its mark.
proof fn lemma_one_more_mark(
    before: Seq<Mark>,
    after: Seq<Mark>,
    starts: Seq<int>,
    width: int,
    j: int,
)
    requires
        0 <= j < starts.len(),
        marks_on(before, starts.take(j), width),
        after.len() == j + 1,
        after.drop_last() == before,
        after.last().start == starts[j],
        after.last().end == starts[j] + width,
    ensures
        marks_on(after, starts.take(j + 1), width),
{
    assert forall|k: int| 0 <= k < after.len() implies (#[trigger] after[k]).start == starts.take(
        j + 1,
    )[k] && after[k].end == starts.take(j + 1)[k] + width by {
        if k < j {
            assert(after[k] == before[k]);
        }
    }
}

/// Builds the display text of a line from the occurrences found in it:
/// the text between the occurrences as it is, and each occurrence as the
/// painter and [`settle`] leave it.
fn weave(
    line: &str,
    found: &Vec<(usize, usize)>,
    Ghost(starts): Ghost<Seq<int>>,
    Ghost(width): Ghost<int>,
) -> (woven_line: (String, Vec<Highlight>))
    requires
        0 <= width,
        spaced(starts, width, line@.len() as int),
        located(found@, line@, starts, width),
    ensures
        marks_on(marks_of(woven_line.1@), starts, width),
        ordered(marks_of(woven_line.1@)),
        reach(marks_of(woven_line.1@)) <= line@.len(),
        woven_line.0@ == rendered(line@, marks_of(woven_line.1@)),
{
    let total = line.unicode_len();
    let bytes = line.as_bytes().len();
    let mut display = String::new();
    let mut highlights: Vec<Highlight> = Vec::new();
    let mut at_byte: usize = 0;
    let mut at_char: usize = 0;
    let mut j: usize = 0;
    proof {
        lemma_offsets(line@, 0, 0);
    }
    while j < found.len()
        invariant
            0 <= width,
            spaced(starts, width, line@.len() as int),
            located(found@, line@, starts, width),
            total == line@.len(),
            j <= found.len(),
            marks_on(marks_of(highlights@), starts.take(j as int), width),
            ordered(marks_of(highlights@)),
            at_char == reach(marks_of(highlights@)),
            at_char <= line@.len(),
            j > 0 ==> at_char == starts[j - 1] + width,
            at_byte == byte_offset(line@, at_char as int),
            display@ == woven(line@, marks_of(highlights@)),
        decreases found.len() - j,
    {
        let (from, to) = found[j];
        let ghost start_at = starts[j as int];
        let ghost before = marks_of(highlights@);
        let gap = slice_between(line, at_byte, from, Ghost(at_char as int), Ghost(start_at));
        let text = slice_between(line, from, to, Ghost(start_at), Ghost(start_at + width));
        let start = at_char + gap.unicode_len();
        let end = start + text.unicode_len();
        let (piece, painted) = settle(text, paint_red(text));
        display.append(gap);
        display.append(piece.as_str());
        highlights.push(Highlight { start, end, painted });
        proof {
            let after = marks_of(highlights@);
            assert(after.drop_last() =~= before);
            lemma_one_more_mark(before, after, starts, width, j as int);
        }
        at_byte = to;
        at_char = end;
        j += 1;
    }
    proof {
        lemma_offsets(line@, at_char as int, line@.len() as int);
    }
    let tail = slice_between(line, at_byte, bytes, Ghost(at_char as int), Ghost(line@.len() as int));
    display.append(tail);
    (display, highlights)
}

impl View for LineMatch {
    type V = Decision;

    closed spec fn view(&self) -> Decision {
        Decision {
            matched: self.matched,
            display_text: self.display_text@,
            marks: marks_of(self.highlights@),
        }
    }
}

impl LineMatch {
    #[verifier::type_invariant]
    spec fn fits(&self) -> bool {
        &&& ordered(marks_of(self.highlights@))
        &&& reach(marks_of(self.highlights@)) + padding(marks_of(self.highlights@))
            <= self.display_text@.len()
    }

    /// Whether the line contains the pattern.
    pub fn matched(&self) -> (matched: bool)
        ensures
            matched == self@.matched,
    {
        self.matched
    }

    /// The line as it is to be shown.
    pub fn display_text(&self) -> (text: &str)
        ensures
            text@ == self@.display_text,
    {
        self.display_text.as_str()
    }

    /// The stretches of the line that are highlighted in the display text.
    pub fn highlights(&self) -> (highlights: &Vec<Highlight>)
        ensures
            marks_of(highlights@) == self@.marks,
    {
        &self.highlights
    }

    /// The display text with the highlight markers taken out.
    pub fn plain_text(&self) -> (plain: String)
        ensures
            plain@ == self@.plain(),
    {
        proof {
            use_type_invariant(self);
        }
        let display = self.display_text.as_str();
        let total = display.unicode_len();
        let ghost marks = marks_of(self.highlights@);
        let mut plain = String::new();
        let mut pos: usize = 0;
        let mut shift: usize = 0;
        let mut k: usize = 0;
        proof {
            lemma_ordered_bounds(marks);
        }
        while k < self.highlights.len()
            invariant
                k <= self.highlights.len(),
                marks == marks_of(self.highlights@),
                display@ == self.display_text@,
                total == display@.len(),
                ordered(marks),
                reach(marks) + padding(marks) <= total,
                pos == reach(marks.take(k as int)),
                shift == padding(marks.take(k as int)),
                plain@ == unwoven(display@, marks.take(k as int)),
            decreases self.highlights.len() - k,
        {
            let mark = self.highlights[k];
            proof {
                lemma_ordered_bounds(marks);
                assert(marks.take(k as int + 1).drop_last() =~= marks.take(k as int));
                assert(ordered(marks.take(k as int + 1)));
                reveal_strlit("\u{1b}[31m");
                reveal_strlit("\u{1b}[0m");
            }
            let lead: usize = if mark.painted { 5 } else { 0 };
            let trail: usize = if mark.painted { 4 } else { 0 };
            plain.append(display.substring_char(pos + shift, mark.start + shift));
            plain.append(display.substring_char(mark.start + shift + lead, mark.end + shift + lead));
            pos = mark.end;
            shift = shift + lead + trail;
            k += 1;
        }
        proof {
            assert(marks.take(k as int) =~= marks);
        }
        plain.append(display.substring_char(pos + shift, total));
        plain
    }
}

impl Matcher {
    #[verifier::type_invariant]
    spec fn ready(&self) -> bool {
        &&& self.pattern@.len() > 0
        &&& engine_source(self.engine) == escaped(self.pattern@)
        &&& engine_folds(self.engine) == self.case_insensitive
    }

    /// The text that the matcher looks for.
    pub closed spec fn pattern_text(&self) -> Seq<char> {
        self.pattern@
    }

    /// Whether the matcher disregards case.
    pub closed spec fn folds_case(&self) -> bool {
        self.case_insensitive
    }

    /// Makes a matcher for a pattern. An empty pattern is refused, and so
    /// is one whose escaped form the search engine does not take; for
    /// every other pattern there is a matcher.
    pub fn new(pattern: &str, case_insensitive: bool) -> (made: Result<Matcher, PatternError>)
        ensures
            made is Ok <==> accepted(pattern@, case_insensitive),
            made matches Err(error) ==> error == refusal(pattern@),
            made matches Ok(matcher) ==> matcher.pattern_text() == pattern@
                && matcher.folds_case() == case_insensitive,
    {
        if pattern.is_empty() {
            return Err(PatternError::Empty);
        }
        let source = escape_literal(pattern);
        let built = build_engine(source.as_str(), case_insensitive);
        Matcher::with_engine(pattern, case_insensitive, built)
    }

    /// Makes a matcher from what building the engine gave: the matcher
    /// when there is an engine, and otherwise the report that the pattern
    /// was rejected.
    pub fn with_engine(
        pattern: &str,
        case_insensitive: bool,
        built: Result<Regex, regex::Error>,
    ) -> (made: Result<Matcher, PatternError>)
        requires
            pattern@.len() > 0,
            built matches Ok(engine) ==> engine_source(engine) == escaped(pattern@)
                && engine_folds(engine) == case_insensitive,
        ensures
            built is Ok ==> made is Ok,
            built is Err ==> made == Err::<Matcher, PatternError>(PatternError::Rejected),
            made matches Ok(matcher) ==> matcher.pattern_text() == pattern@
                && matcher.folds_case() == case_insensitive,
    {
        match built {
            Ok(engine) => Ok(Matcher { pattern: String::from_str(pattern), case_insensitive, engine }),
            Err(_) => Err(PatternError::Rejected),
        }
    }

    /// Whether the line contains the pattern.
    pub fn is_match(&self, line: &str) -> (hit: bool)
        ensures
            hit == occurs(line@, self.pattern_text(), self.folds_case()),
    {
        proof {
            use_type_invariant(self);
        }
        engine_is_match(&self.engine, line)
    }

    /// The occurrences of the pattern in the line, as the pairs of byte
    /// offsets that the engine reports.
    fn find_all(&self, line: &str) -> (found: Vec<(usize, usize)>)
        ensures
            reports(found@, line@, self.pattern_text(), self.folds_case()),
    {
        proof {
            use_type_invariant(self);
        }
        engine_find_all(&self.engine, line)
    }

    /// Evaluates one line. The line matches when it contains the pattern.
    /// When it does and highlighting is asked for, every occurrence that a
    /// left-to-right search reports is marked in the display text; whether
    /// a mark is painted is for the painter to say. In every other case the
    /// display text is the line.
    pub fn evaluate(&self, line: &str, colorize: bool) -> (result: LineMatch)
        ensures
            decides(result@, line@, self.pattern_text(), self.folds_case(), colorize),
            !(result@.matched && colorize) ==> result@.display_text == line@,
            result@.plain() == line@,
    {
        let hit = self.is_match(line);
        if !hit || !colorize {
            let result = LineMatch {
                matched: hit,
                display_text: String::from_str(line),
                highlights: Vec::new(),
            };
            proof {
                let none = marks_of(result.highlights@);
                lemma_strip_restores_line(line@, none);
                assert(rendered(line@, none) =~= line@);
            }
            return result;
        }
        let found = self.find_all(line);
        let ghost starts = occurrences(line@, self.pattern_text(), self.folds_case());
        let ghost width = self.pattern_text().len() as int;
        proof {
            lemma_occurrences_in_order(line@, self.pattern_text(), self.folds_case(), 0);
        }
        let (display, highlights) = weave(line, &found, Ghost(starts), Ghost(width));
        proof {
            let marks = marks_of(highlights@);
            lemma_strip_restores_line(line@, marks);
            lemma_ordered_bounds(marks);
        }
        LineMatch { matched: true, display_text: display, highlights }
    }

    /// The text that the matcher looks for.
    pub fn pattern(&self) -> (pattern: &str)
        ensures
            pattern@ == self.pattern_text(),
            pattern@.len() > 0,
    {
        proof {
            use_type_invariant(self);
        }
        self.pattern.as_str()
    }

    /// Whether the matcher disregards case.
    pub fn case_insensitive(&self) -> (fold: bool)
        ensures
            fold == self.folds_case(),
    {
        self.case_insensitive
    }
}

/// Evaluates one line for a pattern given as text. A pattern that is not
/// accepted is refused; for every other the result is what
/// [`Matcher::evaluate`] gives.
pub fn evaluate(pattern: &str, line: &str, case_insensitive: bool, colorize: bool) -> (outcome:
    Result<LineMatch, PatternError>)
    ensures
        outcome is Ok <==> accepted(pattern@, case_insensitive),
        outcome matches Err(error) ==> error == refusal(pattern@),
        outcome matches Ok(result) ==> decides(
            result@,
            line@,
            pattern@,
            case_insensitive,
            colorize,
        ) && result@.plain() == line@,
{
    match Matcher::new(pattern, case_insensitive) {
        Ok(matcher) => Ok(matcher.evaluate(line, colorize)),
        Err(error) => Err(error),
    }
}

} // verus!
