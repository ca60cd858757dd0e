//! Highlighted display text: where the markers go, and how to take them
//! out again.

use crate::text::same_text;
use colored::Colorize;
use vstd::prelude::*;
use vstd::string::StringExecFns;

verus! {

/// A stretch of a line that was found to match. Offsets count characters
/// from the start of the line; `end` is one past the last character.
#[derive(Clone, Copy, Debug, PartialEq, Eq)]
pub struct Highlight {
    pub start: usize,
    pub end: usize,
    /// Whether the stretch stands between markers in the display text.
    pub painted: bool,
}

/// The mathematical content of a [`Highlight`].
pub struct Mark {
    pub start: int,
    pub end: int,
    pub painted: bool,
}

impl View for Highlight {
    type V = Mark;

    open spec fn view(&self) -> Mark {
        Mark { start: self.start as int, end: self.end as int, painted: self.painted }
    }
}

/// The marks that a list of highlights stands for.
pub open spec fn marks_of(highlights: Seq<Highlight>) -> Seq<Mark> {
    Seq::new(highlights.len(), |k: int| highlights[k]@)
}

/// The marker that opens a highlighted stretch: the escape sequence that
/// switches a terminal to red.
pub open spec fn marker_open() -> Seq<char> {
    "\u{1b}[31m"@
}

/// The marker that closes a highlighted stretch: the escape sequence that
/// resets a terminal's colours.
pub open spec fn marker_close() -> Seq<char> {
    "\u{1b}[0m"@
}

/// The opening marker.
pub fn open_marker() -> (marker: &'static str)
    ensures
        marker@ == marker_open(),
        marker@.len() == 5,
{
    proof {
        reveal_strlit("\u{1b}[31m");
    }
    "\u{1b}[31m"
}

/// The closing marker.
pub fn close_marker() -> (marker: &'static str)
    ensures
        marker@ == marker_close(),
        marker@.len() == 4,
{
    proof {
        reveal_strlit("\u{1b}[0m");
    }
    "\u{1b}[0m"
}

/// How a matched stretch is shown: between the two markers when it is
/// painted, as it is when not.
pub open spec fn shown(text: Seq<char>, painted: bool) -> Seq<char> {
    if painted {
        marker_open() + text + marker_close()
    } else {
        text
    }
}

/// The number of marker characters that a mark adds to the display.
pub open spec fn weight(mark: Mark) -> int {
    if mark.painted {
        (marker_open().len() + marker_close().len()) as int
    } else {
        0
    }
}

/// The number of characters by which the text of a mark is pushed to the
/// right inside its own shown form.
pub open spec fn lead(mark: Mark) -> int {
    if mark.painted {
        marker_open().len() as int
    } else {
        0
    }
}

/// How far into the line a list of marks reaches: the end of the last one.
pub open spec fn reach(marks: Seq<Mark>) -> int {
    if marks.len() == 0 {
        0
    } else {
        marks.last().end
    }
}

/// Whether the marks lie one after the other, without overlap.
pub open spec fn ordered(marks: Seq<Mark>) -> bool
    decreases marks.len(),
{
    marks.len() > 0 ==> {
        &&& ordered(marks.drop_last())
        &&& reach(marks.drop_last()) <= marks.last().start <= marks.last().end
    }
}

/// The number of marker characters that a list of marks adds to the
/// display.
pub open spec fn padding(marks: Seq<Mark>) -> int
    decreases marks.len(),
{
    if marks.len() == 0 {
        0
    } else {
        padding(marks.drop_last()) + weight(marks.last())
    }
}

/// The display of the part of `line` that ends with the last mark: the
/// text between the marks as it is, and each marked stretch as it is
/// shown.
pub open spec fn woven(line: Seq<char>, marks: Seq<Mark>) -> Seq<char>
    decreases marks.len(),
{
    if marks.len() == 0 {
        Seq::empty()
    } else {
        let before = marks.drop_last();
        let mark = marks.last();
        woven(line, before) + line.subrange(reach(before), mark.start) + shown(
            line.subrange(mark.start, mark.end),
            mark.painted,
        )
    }
}

/// The display text of `line` with the given marks.
pub open spec fn rendered(line: Seq<char>, marks: Seq<Mark>) -> Seq<char> {
    woven(line, marks) + line.subrange(reach(marks), line.len() as int)
}

/// The text that the part of `display` up to the end of the last mark
/// stands for: the display without the markers that the marks account for.
pub open spec fn unwoven(display: Seq<char>, marks: Seq<Mark>) -> Seq<char>
    decreases marks.len(),
{
    if marks.len() == 0 {
        Seq::empty()
    } else {
        let before = marks.drop_last();
        let mark = marks.last();
        let shift = padding(before);
        unwoven(display, before) + display.subrange(reach(before) + shift, mark.start + shift)
            + display.subrange(mark.start + shift + lead(mark), mark.end + shift + lead(mark))
    }
}

/// `display` with the highlight markers taken out.
pub open spec fn stripped(display: Seq<char>, marks: Seq<Mark>) -> Seq<char> {
    unwoven(display, marks) + display.subrange(
        reach(marks) + padding(marks),
        display.len() as int,
    )
}

/// Calls `Colorize::red` on the text and renders the coloured string with
/// `to_string`. Whether any colour comes out depends on the process: on
/// the variables `NO_COLOR`, `CLICOLOR` and `CLICOLOR_FORCE`, on whether
/// the output is a terminal, and on the overrides of `colored::control`.
/// Nothing is promised of the result; [`settle`] looks at it.
#[verifier::external_body]
pub(crate) fn paint_red(text: &str) -> (painted: String) {
    text.red().to_string()
}

/// Decides how a matched stretch is shown, given what the painter made of
/// it. The painter's form is kept when it is the text between the two
/// markers; in every other case the text is shown as it is.
pub fn settle(text: &str, painted: String) -> (choice: (String, bool))
    ensures
        choice.1 == (painted@ == marker_open() + text@ + marker_close()),
        choice.0@ == shown(text@, choice.1),
{
    let mut wanted = String::from_str(open_marker());
    wanted.append(text);
    wanted.append(close_marker());
    if same_text(painted.as_str(), wanted.as_str()) {
        (painted, true)
    } else {
        (String::from_str(text), false)
    }
}

/// Marks that are in order stay in order when the later ones are left
/// out, and every shorter list reaches less far, with less padding.
pub proof fn lemma_ordered_bounds(marks: Seq<Mark>)
    requires
        ordered(marks),
    ensures
        0 <= reach(marks),
        0 <= padding(marks),
        forall|k: int| 0 <= k <= marks.len() ==> #[trigger] ordered(marks.take(k)),
        forall|k: int|
            0 <= k <= marks.len() ==> 0 <= reach(#[trigger] marks.take(k)) <= reach(marks) && 0
                <= padding(marks.take(k)) <= padding(marks),
    decreases marks.len(),
{
    assert(marks.take(marks.len() as int) =~= marks);
    if marks.len() > 0 {
        let before = marks.drop_last();
        lemma_ordered_bounds(before);
        assert forall|k: int| 0 <= k < marks.len() implies marks.take(k) == before.take(k) by {
            assert(marks.take(k) =~= before.take(k));
        }
    }
}

/// The woven display of a line is as long as the part of the line it
/// covers and its markers together, and taking the markers out of it,
/// whatever follows it, gives that part of the line back.
pub proof fn lemma_unweave(line: Seq<char>, marks: Seq<Mark>, rest: Seq<char>)
    requires
        ordered(marks),
        reach(marks) <= line.len(),
    ensures
        woven(line, marks).len() == reach(marks) + padding(marks),
        unwoven(woven(line, marks) + rest, marks) == line.subrange(0, reach(marks)),
    decreases marks.len(),
{
    if marks.len() > 0 {
        let before = marks.drop_last();
        let mark = marks.last();
        let gap = line.subrange(reach(before), mark.start);
        let piece = shown(line.subrange(mark.start, mark.end), mark.painted);
        lemma_ordered_bounds(before);
        lemma_unweave(line, before, gap + piece + rest);
        assert(woven(line, marks) + rest =~= woven(line, before) + (gap + piece + rest));
    }
}

/// Taking the markers out of a line's display text gives the line back:
/// rendering neither drops nor reorders a character.
pub proof fn lemma_strip_restores_line(line: Seq<char>, marks: Seq<Mark>)
    requires
        ordered(marks),
        reach(marks) <= line.len(),
    ensures
        rendered(line, marks).len() == line.len() + padding(marks),
        stripped(rendered(line, marks), marks) == line,
{
    lemma_ordered_bounds(marks);
    lemma_unweave(line, marks, line.subrange(reach(marks), line.len() as int));
}

} // verus!
