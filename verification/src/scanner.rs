//! The line scanner: which lines of a file are handed on, under which
//! numbers, and where reading the file stops.

use crate::config::{Config, Settings};
use crate::lines::{lines_of, reads_of, LineRead};
use crate::matcher::{accepted, decides, refusal, Decision, LineMatch, Matcher, PatternError};
use crate::occurrence::occurs;
use crate::record::{decimal, decimal_text, format_record, record_text};
use crate::select::{eligible, should_print};
use crate::text::texts;
use vstd::prelude::*;
use vstd::string::StringExecFns;

verus! {

/// Why a file could not be searched to its end.
#[derive(Clone, Debug, PartialEq, Eq)]
pub enum ScanError {
    /// The file with this path could not be opened.
    Open(String),
    /// The line with this number of the file with this path could not be
    /// read as text.
    Read(String, usize),
    /// No matcher could be made for the pattern.
    Pattern(PatternError),
}

/// The mathematical content of a [`ScanError`].
pub enum ScanFailure {
    Open(Seq<char>),
    Read(Seq<char>, nat),
    Pattern(PatternError),
}

impl View for ScanError {
    type V = ScanFailure;

    open spec fn view(&self) -> ScanFailure {
        match self {
            ScanError::Open(path) => ScanFailure::Open(path@),
            ScanError::Read(path, line_number) => ScanFailure::Read(path@, *line_number as nat),
            ScanError::Pattern(error) => ScanFailure::Pattern(*error),
        }
    }
}

impl ScanFailure {
    /// The text of the message for this failure.
    pub open spec fn message_text(self) -> Seq<char> {
        match self {
            ScanFailure::Open(path) => "Could not open file: "@ + path,
            ScanFailure::Read(path, line_number) => "Could not read line "@ + decimal_text(
                line_number,
            ) + " from "@ + path,
            ScanFailure::Pattern(error) => error.message_text(),
        }
    }
}

impl ScanError {
    /// The message to show for this error.
    pub fn message(&self) -> (text: String)
        ensures
            text@ == self@.message_text(),
    {
        match self {
            ScanError::Open(path) => {
                let mut text = String::from_str("Could not open file: ");
                text.append(path.as_str());
                text
            },
            ScanError::Read(path, line_number) => {
                let mut text = String::from_str("Could not read line ");
                let number = decimal(*line_number);
                text.append(number.as_str());
                text.append(" from ");
                text.append(path.as_str());
                text
            },
            ScanError::Pattern(error) => error.message(),
        }
    }
}

/// A line that the scan hands on.
#[derive(Debug, PartialEq, Eq)]
pub struct Emitted {
    /// The line's number in its file, counted from one.
    pub line_number: usize,
    /// What evaluating the line gave.
    pub decision: LineMatch,
}

/// The mathematical content of an [`Emitted`].
pub struct EmittedLine {
    pub line_number: int,
    pub decision: Decision,
}

impl View for Emitted {
    type V = EmittedLine;

    open spec fn view(&self) -> EmittedLine {
        EmittedLine { line_number: self.line_number as int, decision: self.decision@ }
    }
}

/// What a list of emitted lines stands for.
pub open spec fn emitted_of(emitted: Seq<Emitted>) -> Seq<EmittedLine> {
    Seq::new(emitted.len(), |k: int| emitted[k]@)
}

/// What the scan makes of one line.
#[derive(Debug, PartialEq, Eq)]
pub enum ScanStep {
    /// The line is passed over.
    Skip,
    /// The line is handed on.
    Emit(Emitted),
    /// The scan of this file ends here.
    Fail(ScanError),
}

/// Whether a search hands a line on: a plain search when the line
/// contains the pattern under the case rule, an inverted search when it
/// does not.
pub open spec fn emits(line: Seq<char>, pattern: Seq<char>, fold: bool, invert: bool) -> bool {
    eligible(invert, occurs(line, pattern, fold))
}

/// Scans one line: evaluates it and applies the inversion rule. A line
/// that could not be decoded ends the scan, under its number.
pub fn scan_line(
    matcher: &Matcher,
    invert: bool,
    colorize: bool,
    file_path: &str,
    line_number: usize,
    read: &LineRead,
) -> (step: ScanStep)
    ensures
        match read@ {
            None => step matches ScanStep::Fail(error) && error@ == ScanFailure::Read(
                file_path@,
                line_number as nat,
            ),
            Some(line) => if emits(line, matcher.pattern_text(), matcher.folds_case(), invert) {
                step matches ScanStep::Emit(emitted) && emitted@.line_number == line_number
                    && decides(
                    emitted@.decision,
                    line,
                    matcher.pattern_text(),
                    matcher.folds_case(),
                    colorize,
                )
            } else {
                step is Skip
            },
        },
{
    match read {
        LineRead::Undecodable => ScanStep::Fail(
            ScanError::Read(String::from_str(file_path), line_number),
        ),
        LineRead::Text(line) => {
            let decision = matcher.evaluate(line.as_str(), colorize);
            if should_print(invert, decision.matched()) {
                ScanStep::Emit(Emitted { line_number, decision })
            } else {
                ScanStep::Skip
            }
        },
    }
}

/// What scanning a file gave: the lines handed on, in the order of the
/// file, and why the scan ended early if it did.
#[derive(Debug, PartialEq, Eq)]
pub struct ScanReport {
    pub emitted: Vec<Emitted>,
    pub failure: Option<ScanError>,
}

/// The mathematical content of a [`ScanReport`].
pub struct Scan {
    pub emitted: Seq<EmittedLine>,
    pub failure: Option<ScanFailure>,
}

impl View for ScanReport {
    type V = Scan;

    open spec fn view(&self) -> Scan {
        Scan {
            emitted: emitted_of(self.emitted@),
            failure: match self.failure {
                Some(error) => Some(error@),
                None => None,
            },
        }
    }
}

/// The number of lines before the first that could not be decoded: all
/// of them when every line could.
pub open spec fn readable(reads: Seq<Option<Seq<char>>>) -> int
    decreases reads.len(),
{
    if reads.len() == 0 || reads[0] is None {
        0
    } else {
        1 + readable(reads.drop_first())
    }
}

/// Whether the line with the given number is among the emitted lines.
pub open spec fn lists(emitted: Seq<EmittedLine>, line_number: int) -> bool {
    exists|j: int| 0 <= j < emitted.len() && (#[trigger] emitted[j]).line_number == line_number
}

/// Whether the emitted lines are those that a scan of the first `upto`
/// lines owes: each is a line among them that the search hands on, under
/// its number and with the decision that evaluating it owes; they come in
/// the order of the file; and none that the search hands on is left out.
pub open spec fn covers(
    emitted: Seq<EmittedLine>,
    reads: Seq<Option<Seq<char>>>,
    upto: int,
    pattern: Seq<char>,
    fold: bool,
    invert: bool,
    colorize: bool,
) -> bool {
    &&& forall|j: int|
        0 <= j < emitted.len() ==> {
            let number = (#[trigger] emitted[j]).line_number;
            &&& 1 <= number <= upto
            &&& reads[number - 1] matches Some(line) && emits(line, pattern, fold, invert)
                && decides(emitted[j].decision, line, pattern, fold, colorize)
        }
    &&& forall|i: int, j: int|
        0 <= i < j < emitted.len() ==> (#[trigger] emitted[i]).line_number < (
        #[trigger] emitted[j]).line_number
    &&& forall|k: int|
        0 <= k < upto && emits((#[trigger] reads[k])->0, pattern, fold, invert) ==> lists(
            emitted,
            k + 1,
        )
}

/// Whether a scan is the one that the lines of a file owe: the lines
/// before the first that could not be decoded are covered, and the scan
/// fails on that line, under its number, if there is one.
pub open spec fn scanned(
    scan: Scan,
    reads: Seq<Option<Seq<char>>>,
    file_path: Seq<char>,
    pattern: Seq<char>,
    fold: bool,
    invert: bool,
    colorize: bool,
) -> bool {
    let upto = readable(reads);
    &&& covers(scan.emitted, reads, upto, pattern, fold, invert, colorize)
    &&& scan.failure == if upto < reads.len() {
        Some(ScanFailure::Read(file_path, (upto + 1) as nat))
    } else {
        None
    }
}

/// Where every line before `upto` could be decoded and the line at
/// `upto`, if there is one, could not, `upto` lines are readable.
pub proof fn lemma_readable_upto(reads: Seq<Option<Seq<char>>>, upto: int)
    requires
        0 <= upto <= reads.len(),
        forall|k: int| 0 <= k < upto ==> (#[trigger] reads[k]) is Some,
        upto < reads.len() ==> reads[upto] is None,
    ensures
        readable(reads) == upto,
    decreases upto,
{
    if upto > 0 {
        let rest = reads.drop_first();
        assert forall|k: int| 0 <= k < upto - 1 implies (#[trigger] rest[k]) is Some by {
            assert(rest[k] == reads[k + 1]);
        }
        lemma_readable_upto(rest, upto - 1);
    }
}

/// Every line before the first that could not be decoded could be
/// decoded.
pub proof fn lemma_readable_lines_decode(reads: Seq<Option<Seq<char>>>, k: int)
    requires
        0 <= k < readable(reads),
    ensures
        k < reads.len(),
        reads[k] is Some,
    decreases reads.len(),
{
    if k > 0 {
        lemma_readable_lines_decode(reads.drop_first(), k - 1);
    }
}

/// A scan hands on exactly the lines that the search hands on, among
/// those before the first that could not be decoded.
pub proof fn lemma_scan_emits_what_the_search_emits(
    scan: Scan,
    reads: Seq<Option<Seq<char>>>,
    file_path: Seq<char>,
    pattern: Seq<char>,
    fold: bool,
    invert: bool,
    colorize: bool,
    k: int,
)
    requires
        scanned(scan, reads, file_path, pattern, fold, invert, colorize),
        0 <= k < readable(reads),
    ensures
        lists(scan.emitted, k + 1) <==> emits(reads[k]->0, pattern, fold, invert),
{
    lemma_readable_lines_decode(reads, k);
    if lists(scan.emitted, k + 1) {
        let j = choose|j: int|
            0 <= j < scan.emitted.len() && (#[trigger] scan.emitted[j]).line_number == k + 1;
        assert(emits(reads[scan.emitted[j].line_number - 1]->0, pattern, fold, invert));
    }
}

/// A plain scan hands a line on exactly when the line contains the
/// pattern under the case rule.
pub proof fn lemma_plain_scan_emits_the_matches(
    scan: Scan,
    reads: Seq<Option<Seq<char>>>,
    file_path: Seq<char>,
    pattern: Seq<char>,
    fold: bool,
    colorize: bool,
    k: int,
)
    requires
        scanned(scan, reads, file_path, pattern, fold, false, colorize),
        0 <= k < readable(reads),
    ensures
        lists(scan.emitted, k + 1) <==> occurs(reads[k]->0, pattern, fold),
{
    lemma_scan_emits_what_the_search_emits(
        scan,
        reads,
        file_path,
        pattern,
        fold,
        false,
        colorize,
        k,
    );
}

/// An inverted scan hands on exactly the lines that the plain scan of the
/// same file with the same case rule passes over: every line is handed on
/// by one of the two, and none by both.
pub proof fn lemma_inverted_scan_emits_the_rest(
    plain: Scan,
    inverted: Scan,
    reads: Seq<Option<Seq<char>>>,
    file_path: Seq<char>,
    pattern: Seq<char>,
    fold: bool,
    plain_colorize: bool,
    inverted_colorize: bool,
    k: int,
)
    requires
        scanned(plain, reads, file_path, pattern, fold, false, plain_colorize),
        scanned(inverted, reads, file_path, pattern, fold, true, inverted_colorize),
        0 <= k < readable(reads),
    ensures
        lists(inverted.emitted, k + 1) <==> !lists(plain.emitted, k + 1),
{
    lemma_scan_emits_what_the_search_emits(
        plain,
        reads,
        file_path,
        pattern,
        fold,
        false,
        plain_colorize,
        k,
    );
    lemma_scan_emits_what_the_search_emits(
        inverted,
        reads,
        file_path,
        pattern,
        fold,
        true,
        inverted_colorize,
        k,
    );
}

/// A scan that covers some lines covers one more once that line has been
/// dealt with: handed on under its number, or passed over.
pub proof fn lemma_covers_one_more(
    before: Seq<EmittedLine>,
    after: Seq<EmittedLine>,
    reads: Seq<Option<Seq<char>>>,
    upto: int,
    pattern: Seq<char>,
    fold: bool,
    invert: bool,
    colorize: bool,
)
    requires
        0 <= upto < reads.len(),
        covers(before, reads, upto, pattern, fold, invert, colorize),
        reads[upto] is Some,
        if emits(reads[upto]->0, pattern, fold, invert) {
            &&& after.len() == before.len() + 1
            &&& after.drop_last() == before
            &&& after.last().line_number == upto + 1
            &&& decides(after.last().decision, reads[upto]->0, pattern, fold, colorize)
        } else {
            after == before
        },
    ensures
        covers(after, reads, upto + 1, pattern, fold, invert, colorize),
{
    assert forall|k: int|
        0 <= k < upto + 1 && emits((#[trigger] reads[k])->0, pattern, fold, invert) implies lists(
        after,
        k + 1,
    ) by {
        if k < upto {
            let j = choose|j: int|
                0 <= j < before.len() && (#[trigger] before[j]).line_number == k + 1;
            assert(after[j] == before[j]);
        } else {
            assert(after[after.len() - 1].line_number == k + 1);
        }
    }
    assert forall|j: int| 0 <= j < after.len() implies {
        let number = (#[trigger] after[j]).line_number;
        &&& 1 <= number <= upto + 1
        &&& reads[number - 1] matches Some(line) && emits(line, pattern, fold, invert) && decides(
            after[j].decision,
            line,
            pattern,
            fold,
            colorize,
        )
    } by {
        if j < before.len() {
            assert(after[j] == before[j]);
        }
    }
    assert forall|i: int, j: int| 0 <= i < j < after.len() implies (
    #[trigger] after[i]).line_number < (#[trigger] after[j]).line_number by {
        assert(after[i] == before[i]);
        if j < before.len() {
            assert(after[j] == before[j]);
        }
    }
}

/// Scans the lines of a file in order, as far as they can be decoded.
pub fn scan(
    matcher: &Matcher,
    invert: bool,
    colorize: bool,
    file_path: &str,
    lines: &Vec<LineRead>,
) -> (report: ScanReport)
    ensures
        scanned(
            report@,
            reads_of(lines@),
            file_path@,
            matcher.pattern_text(),
            matcher.folds_case(),
            invert,
            colorize,
        ),
{
    let ghost reads = reads_of(lines@);
    let ghost pattern = matcher.pattern_text();
    let ghost fold = matcher.folds_case();
    let mut emitted: Vec<Emitted> = Vec::new();
    let mut i: usize = 0;
    while i < lines.len()
        invariant
            reads == reads_of(lines@),
            pattern == matcher.pattern_text(),
            fold == matcher.folds_case(),
            i <= lines.len(),
            forall|k: int| 0 <= k < i ==> (#[trigger] reads[k]) is Some,
            covers(emitted_of(emitted@), reads, i as int, pattern, fold, invert, colorize),
        decreases lines.len() - i,
    {
        let ghost before = emitted_of(emitted@);
        match scan_line(matcher, invert, colorize, file_path, i + 1, &lines[i]) {
            ScanStep::Fail(error) => {
                proof {
                    lemma_readable_upto(reads, i as int);
                }
                return ScanReport { emitted, failure: Some(error) };
            },
            ScanStep::Emit(line) => {
                emitted.push(line);
                proof {
                    assert(emitted_of(emitted@).drop_last() =~= before);
                }
            },
            ScanStep::Skip => {},
        }
        proof {
            lemma_covers_one_more(
                before,
                emitted_of(emitted@),
                reads,
                i as int,
                pattern,
                fold,
                invert,
                colorize,
            );
        }
        i += 1;
    }
    proof {
        lemma_readable_upto(reads, i as int);
    }
    ScanReport { emitted, failure: None }
}

/// The records of a list of emitted lines: for each its printed form,
/// with the display text as the line.
pub open spec fn formatted(
    emitted: Seq<EmittedLine>,
    print_filenames: bool,
    print_line_numbers: bool,
    file_path: Seq<char>,
) -> Seq<Seq<char>> {
    Seq::new(
        emitted.len(),
        |j: int|
            record_text(
                print_filenames,
                print_line_numbers,
                file_path,
                emitted[j].line_number as nat,
                emitted[j].decision.display_text,
            ),
    )
}

/// Puts together the records of the lines that a scan handed on.
pub fn format_report(config: &Config, file_path: &str, report: &ScanReport) -> (records: Vec<
    String,
>)
    ensures
        texts(records@) == formatted(
            report@.emitted,
            config.print_filenames,
            config.print_line_numbers,
            file_path@,
        ),
{
    let mut records: Vec<String> = Vec::new();
    let mut j: usize = 0;
    while j < report.emitted.len()
        invariant
            j <= report.emitted.len(),
            records@.len() == j,
            forall|k: int|
                0 <= k < j ==> (#[trigger] records@[k])@ == record_text(
                    config.print_filenames,
                    config.print_line_numbers,
                    file_path@,
                    report.emitted@[k].line_number as nat,
                    report.emitted@[k].decision@.display_text,
                ),
        decreases report.emitted.len() - j,
    {
        let line = &report.emitted[j];
        let record = format_record(
            config.print_filenames,
            config.print_line_numbers,
            file_path,
            line.line_number,
            line.decision.display_text(),
        );
        records.push(record);
        j += 1;
    }
    records
}

/// What opening a file and reading it gave.
#[derive(Clone, Debug, PartialEq, Eq)]
pub enum FileContent {
    /// The file could not be opened.
    Unopened,
    /// The bytes of the file.
    Bytes(Vec<u8>),
}

/// What searching a file gave: the scan, and the record to print for each
/// line that the scan handed on.
#[derive(Debug, PartialEq, Eq)]
pub struct FileSearch {
    pub report: ScanReport,
    pub records: Vec<String>,
}

/// A scan that handed nothing on and ended with the given failure.
pub open spec fn failed_scan(failure: ScanFailure) -> Scan {
    Scan { emitted: Seq::empty(), failure: Some(failure) }
}

/// Whether `found` is what searching a file owes. A file that could not
/// be opened, and a pattern that is not accepted, end the search before
/// any line is looked at. Otherwise the lines of the file are scanned,
/// and there is a record for each line that the scan hands on.
pub open spec fn file_searched(
    found: FileSearch,
    file_path: Seq<char>,
    config: Settings,
    content: FileContent,
) -> bool {
    &&& texts(found.records@) == formatted(
        found.report@.emitted,
        config.print_filenames,
        config.print_line_numbers,
        file_path,
    )
    &&& match content {
        FileContent::Unopened => found.report@ == failed_scan(ScanFailure::Open(file_path)),
        FileContent::Bytes(bytes) => if !accepted(config.pattern, config.case_insensitive) {
            found.report@ == failed_scan(ScanFailure::Pattern(refusal(config.pattern)))
        } else {
            scanned(
                found.report@,
                lines_of(bytes@),
                file_path,
                config.pattern,
                config.case_insensitive,
                config.invert_match,
                config.colored_output,
            )
        },
    }
}

/// A file to search: its path, and what opening and reading it gave.
#[derive(Clone, Debug, PartialEq, Eq)]
pub struct FileInput {
    pub path: String,
    pub content: FileContent,
}

/// Whether `searches` are what searching the files in order owes, the
/// first failure ending the run: there is a search for each file up to
/// and including the first whose search fails, and for no file after it.
pub open spec fn files_searched(
    searches: Seq<FileSearch>,
    files: Seq<FileInput>,
    config: Settings,
) -> bool {
    &&& searches.len() <= files.len()
    &&& forall|i: int|
        0 <= i < searches.len() ==> file_searched(
            #[trigger] searches[i],
            files[i].path@,
            config,
            files[i].content,
        )
    &&& forall|i: int|
        0 <= i < searches.len() - 1 ==> (#[trigger] searches[i]).report.failure is None
    &&& searches.len() < files.len() ==> searches.len() > 0
        && searches.last().report.failure is Some
}

} // verus!
