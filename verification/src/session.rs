//! A search as it runs: which file is to be opened next, whether another
//! line is to be read, under which number a line is scanned, and when
//! the search is over. The caller opens, reads and prints; every decision
//! is made here.

use crate::config::{Config, Settings};
use crate::lines::{
    decode_line, decoded, lemma_lines_are_read_one_by_one, line_content, lines_of, raws_of,
    reads_from, split_raw, LineRead,
};
use crate::matcher::{accepted, decides, refusal, Matcher};
use crate::record::{format_record, record_text};
use crate::scanner::{
    covers, emits, emitted_of, file_searched, files_searched, formatted, lemma_covers_one_more,
    lemma_readable_upto, scan_line, Emitted, EmittedLine, FileContent, FileInput, FileSearch,
    ScanError, ScanFailure, ScanReport, ScanStep,
};
use crate::text::texts;
use vstd::prelude::*;
use vstd::slice::slice_to_vec;
use vstd::string::StringExecFns;

verus! {

/// What the search asks of its caller next.
#[derive(Clone, Debug, PartialEq, Eq)]
pub enum Wanted {
    /// Open the file with this path and say whether that worked.
    Open(String),
    /// Read the next line of the open file and hand it in.
    Line,
    /// Nothing more: the search is over.
    Nothing,
}

/// What reading on in the open file gave.
#[derive(Clone, Debug, PartialEq, Eq)]
pub enum LineEvent {
    /// The bytes of the next line, from its start to its line feed, or to
    /// the end of the file where no line feed follows.
    Raw(Vec<u8>),
    /// The next line could not be read.
    Unreadable,
    /// The file has no further line.
    End,
}

/// What the search makes of a line event.
#[derive(Debug, PartialEq, Eq)]
pub enum Outcome {
    /// There is nothing to print.
    Nothing,
    /// A line was handed on: the line, and the record to print for it.
    Record { line: Emitted, text: String },
    /// The search ends with this failure.
    Failure(ScanError),
}

/// A search over a list of files, in the order of the list.
#[derive(Debug)]
pub struct Session<'a> {
    config: &'a Config,
    files: Vec<String>,
    at: usize,
    matcher: Option<Matcher>,
    seen: usize,
    stopped: bool,
}

/// The mathematical content of a [`Session`].
pub struct Progress {
    /// What is searched for, and how.
    pub config: Settings,
    /// The files to search.
    pub files: Seq<Seq<char>>,
    /// How many files were searched to their end.
    pub at: int,
    /// Whether the file after those is open.
    pub open: bool,
    /// How many lines of the open file were handed in.
    pub seen: int,
    /// Whether a failure has ended the search.
    pub stopped: bool,
}

impl Progress {
    /// The progress after a failure.
    pub open spec fn halted(self) -> Progress {
        Progress { stopped: true, ..self }
    }

    /// What the search asks for at this point: nothing once it has failed
    /// or has searched every file; the next line while a file is open;
    /// else that the next file be opened.
    pub open spec fn wanted(self) -> Option<Option<Seq<char>>> {
        if self.stopped || self.at >= self.files.len() {
            None
        } else if self.open {
            Some(None)
        } else {
            Some(Some(self.files[self.at]))
        }
    }
}

impl View for Wanted {
    type V = Option<Option<Seq<char>>>;

    open spec fn view(&self) -> Option<Option<Seq<char>>> {
        match self {
            Wanted::Nothing => None,
            Wanted::Line => Some(None),
            Wanted::Open(path) => Some(Some(path@)),
        }
    }
}

impl<'a> View for Session<'a> {
    type V = Progress;

    closed spec fn view(&self) -> Progress {
        Progress {
            config: self.config@,
            files: texts(self.files@),
            at: self.at as int,
            open: self.matcher is Some,
            seen: self.seen as int,
            stopped: self.stopped,
        }
    }
}

impl<'a> Session<'a> {
    /// Whether the session is in order.
    pub closed spec fn wf(&self) -> bool {
        &&& self.at <= self.files.len()
        &&& self.matcher matches Some(matcher) ==> {
            &&& self.at < self.files.len()
            &&& matcher.pattern_text() == self.config.pattern@
            &&& matcher.folds_case() == self.config.case_insensitive
        }
    }

    /// A search of the given files that has not begun.
    pub fn new(config: &'a Config, files: Vec<String>) -> (session: Session<'a>)
        ensures
            session.wf(),
            session@ == (Progress {
                config: config@,
                files: texts(files@),
                at: 0,
                open: false,
                seen: 0,
                stopped: false,
            }),
    {
        Session { config, files, at: 0, matcher: None, seen: 0, stopped: false }
    }

    /// What the search asks of its caller next.
    pub fn wanted(&self) -> (wanted: Wanted)
        requires
            self.wf(),
        ensures
            wanted@ == self@.wanted(),
    {
        if self.stopped || self.at >= self.files.len() {
            Wanted::Nothing
        } else if self.matcher.is_some() {
            Wanted::Line
        } else {
            Wanted::Open(self.files[self.at].clone())
        }
    }

    /// How many lines of the open file were handed in.
    pub fn lines_seen(&self) -> (seen: usize)
        ensures
            seen == self@.seen,
    {
        self.seen
    }

    /// Takes in whether the file that was asked for could be opened. A
    /// file that could not be opened ends the search, and so does a
    /// pattern that is not accepted; otherwise the file is open and its
    /// lines are asked for, counted from one.
    pub fn opened(&mut self, worked: bool) -> (failure: Option<ScanError>)
        requires
            old(self).wf(),
            old(self)@.wanted() matches Some(Some(_)),
        ensures
            final(self).wf(),
            ({
                let before = old(self)@;
                let path = before.files[before.at];
                if !worked {
                    &&& final(self)@ == before.halted()
                    &&& failure matches Some(error) && error@ == ScanFailure::Open(path)
                } else if !accepted(before.config.pattern, before.config.case_insensitive) {
                    &&& final(self)@ == before.halted()
                    &&& failure matches Some(error) && error@ == ScanFailure::Pattern(
                        refusal(before.config.pattern),
                    )
                } else {
                    &&& final(self)@ == (Progress { open: true, seen: 0, ..before })
                    &&& failure is None
                }
            }),
    {
        if !worked {
            self.stopped = true;
            return Some(ScanError::Open(self.files[self.at].clone()));
        }
        match Matcher::new(self.config.pattern.as_str(), self.config.case_insensitive) {
            Err(error) => {
                self.stopped = true;
                Some(ScanError::Pattern(error))
            },
            Ok(matcher) => {
                self.matcher = Some(matcher);
                self.seen = 0;
                None
            },
        }
    }

    /// Takes in what reading on in the open file gave. The end of the
    /// file closes it, and the search goes on to the next file. A line is
    /// scanned under the number that follows that of the line before it;
    /// a line that could not be read or decoded ends the search.
    pub fn line(&mut self, event: &LineEvent) -> (outcome: Outcome)
        requires
            old(self).wf(),
            old(self)@.wanted() == Some(None::<Seq<char>>),
            !(event is End) ==> old(self)@.seen < usize::MAX,
        ensures
            final(self).wf(),
            ({
                let before = old(self)@;
                let path = before.files[before.at];
                let number = before.seen + 1;
                let read = match event {
                    LineEvent::Raw(raw) => decoded(line_content(raw@)),
                    _ => None,
                };
                if event is End {
                    &&& final(self)@ == (Progress {
                        at: before.at + 1,
                        open: false,
                        seen: 0,
                        ..before
                    })
                    &&& outcome is Nothing
                } else if read is None {
                    &&& final(self)@ == before.halted()
                    &&& outcome matches Outcome::Failure(error) && error@ == ScanFailure::Read(
                        path,
                        number as nat,
                    )
                } else {
                    &&& final(self)@ == (Progress { seen: number, ..before })
                    &&& if emits(
                        read->0,
                        before.config.pattern,
                        before.config.case_insensitive,
                        before.config.invert_match,
                    ) {
                        &&& outcome matches Outcome::Record { line, text }
                        &&& outcome->line@.line_number == number
                        &&& decides(
                            outcome->line@.decision,
                            read->0,
                            before.config.pattern,
                            before.config.case_insensitive,
                            before.config.colored_output,
                        )
                        &&& outcome->text@ == record_text(
                            before.config.print_filenames,
                            before.config.print_line_numbers,
                            path,
                            number as nat,
                            outcome->line@.decision.display_text,
                        )
                    } else {
                        outcome is Nothing
                    }
                }
            }),
    {
        let read = match event {
            LineEvent::End => {
                self.matcher = None;
                self.seen = 0;
                self.at = self.at + 1;
                return Outcome::Nothing;
            },
            LineEvent::Unreadable => LineRead::Undecodable,
            LineEvent::Raw(raw) => decode_line(raw.as_slice()),
        };
        let number = self.seen + 1;
        let step = match &self.matcher {
            Some(matcher) => scan_line(
                matcher,
                self.config.invert_match,
                self.config.colored_output,
                self.files[self.at].as_str(),
                number,
                &read,
            ),
            None => ScanStep::Skip,
        };
        match step {
            ScanStep::Fail(error) => {
                self.stopped = true;
                Outcome::Failure(error)
            },
            ScanStep::Skip => {
                self.seen = number;
                Outcome::Nothing
            },
            ScanStep::Emit(line) => {
                self.seen = number;
                let text = format_record(
                    self.config.print_filenames,
                    self.config.print_line_numbers,
                    self.files[self.at].as_str(),
                    line.line_number,
                    line.decision.display_text(),
                );
                Outcome::Record { line, text }
            },
        }
    }
}

/// The paths of a list of files to search.
pub open spec fn input_paths(files: Seq<FileInput>) -> Seq<Seq<char>> {
    Seq::new(files.len(), |i: int| files[i].path@)
}

/// Runs a session through one file, given what opening and reading the
/// file gave: hands in whether it was opened, then each of its lines as
/// it stands in the file, then the end of the file, and stops at the
/// first failure.
fn replay(session: &mut Session, content: &FileContent) -> (found: FileSearch)
    requires
        old(session).wf(),
        old(session)@.wanted() matches Some(Some(_)),
    ensures
        final(session).wf(),
        file_searched(
            found,
            old(session)@.files[old(session)@.at],
            old(session)@.config,
            *content,
        ),
        if found.report.failure is None {
            final(session)@ == (Progress {
                at: old(session)@.at + 1,
                open: false,
                seen: 0,
                ..old(session)@
            })
        } else {
            final(session)@.stopped
        },
{
    let ghost start = session@;
    let ghost path = start.files[start.at];
    let mut emitted: Vec<Emitted> = Vec::new();
    let mut records: Vec<String> = Vec::new();
    assert(emitted_of(emitted@) =~= Seq::<EmittedLine>::empty());
    assert(texts(records@) =~= Seq::<Seq<char>>::empty());
    let bytes = match content {
        FileContent::Unopened => {
            let failure = session.opened(false);
            let found = FileSearch { report: ScanReport { emitted, failure }, records };
            assert(found.report@.emitted =~= Seq::<EmittedLine>::empty());
            assert(texts(found.records@) =~= formatted(
                found.report@.emitted,
                start.config.print_filenames,
                start.config.print_line_numbers,
                path,
            ));
            return found;
        },
        FileContent::Bytes(bytes) => bytes,
    };
    let failure = session.opened(true);
    if failure.is_some() {
        let found = FileSearch { report: ScanReport { emitted, failure }, records };
        assert(found.report@.emitted =~= Seq::<EmittedLine>::empty());
        assert(texts(found.records@) =~= formatted(
            found.report@.emitted,
            start.config.print_filenames,
            start.config.print_line_numbers,
            path,
        ));
        return found;
    }
    let raws = split_raw(bytes.as_slice());
    let ghost reads = lines_of(bytes@);
    proof {
        lemma_lines_are_read_one_by_one(bytes@);
    }
    let mut k: usize = 0;
    while k < raws.len()
        invariant
            k <= raws.len(),
            session.wf(),
            session@ == (Progress { open: true, seen: k as int, ..start }),
            !start.stopped && start.at < start.files.len(),
            path == start.files[start.at],
            accepted(start.config.pattern, start.config.case_insensitive),
            *content == FileContent::Bytes(*bytes),
            start == old(session)@,
            reads == lines_of(bytes@),
            reads == reads_from(raws_of(raws@)),
            forall|j: int| 0 <= j < k ==> (#[trigger] reads[j]) is Some,
            covers(
                emitted_of(emitted@),
                reads,
                k as int,
                start.config.pattern,
                start.config.case_insensitive,
                start.config.invert_match,
                start.config.colored_output,
            ),
            records@.len() == emitted@.len(),
            forall|j: int|
                0 <= j < records@.len() ==> (#[trigger] records@[j])@ == record_text(
                    start.config.print_filenames,
                    start.config.print_line_numbers,
                    path,
                    emitted@[j].line_number as nat,
                    emitted@[j].decision@.display_text,
                ),
        decreases raws.len() - k,
    {
        let ghost before = emitted_of(emitted@);
        let event = LineEvent::Raw(slice_to_vec(raws[k].as_slice()));
        assert(reads[k as int] == decoded(line_content(raws@[k as int]@)));
        match session.line(&event) {
            Outcome::Failure(error) => {
                proof {
                    lemma_readable_upto(reads, k as int);
                    assert(texts(records@) =~= formatted(
                        emitted_of(emitted@),
                        start.config.print_filenames,
                        start.config.print_line_numbers,
                        path,
                    ));
                }
                let found = FileSearch {
                    report: ScanReport { emitted, failure: Some(error) },
                    records,
                };
                return found;
            },
            Outcome::Record { line, text } => {
                emitted.push(line);
                records.push(text);
                assert(emitted_of(emitted@).drop_last() =~= before);
            },
            Outcome::Nothing => {},
        }
        proof {
            lemma_covers_one_more(
                before,
                emitted_of(emitted@),
                reads,
                k as int,
                start.config.pattern,
                start.config.case_insensitive,
                start.config.invert_match,
                start.config.colored_output,
            );
        }
        k += 1;
    }
    session.line(&LineEvent::End);
    proof {
        lemma_readable_upto(reads, k as int);
        assert(texts(records@) =~= formatted(
            emitted_of(emitted@),
            start.config.print_filenames,
            start.config.print_line_numbers,
            path,
        ));
    }
    FileSearch { report: ScanReport { emitted, failure: None }, records }
}

/// Searches one file for the pattern of a configuration, given what
/// opening and reading the file gave, by running a session through it.
pub fn search_file(file_path: &str, config: &Config, content: &FileContent) -> (found: FileSearch)
    ensures
        file_searched(found, file_path@, config@, *content),
{
    let mut files: Vec<String> = Vec::new();
    files.push(String::from_str(file_path));
    let mut session = Session::new(config, files);
    assert(session@.files[0] == file_path@);
    replay(&mut session, content)
}

/// Searches the files in order by running a session through what opening
/// and reading each of them gave, and stops behind the first whose search
/// fails.
pub fn search_files(config: &Config, files: &Vec<FileInput>) -> (searches: Vec<FileSearch>)
    ensures
        files_searched(searches@, files@, config@),
{
    let mut paths: Vec<String> = Vec::new();
    let mut n: usize = 0;
    while n < files.len()
        invariant
            n <= files.len(),
            texts(paths@) == input_paths(files@.take(n as int)),
        decreases files.len() - n,
    {
        let ghost before = texts(paths@);
        paths.push(files[n].path.clone());
        proof {
            assert(texts(paths@) =~= before.push(files@[n as int].path@));
            assert(input_paths(files@.take(n + 1)) =~= input_paths(files@.take(n as int)).push(
                files@[n as int].path@,
            ));
        }
        n += 1;
    }
    assert(files@.take(n as int) =~= files@);
    let mut session = Session::new(config, paths);
    let mut searches: Vec<FileSearch> = Vec::new();
    let mut i: usize = 0;
    while i < files.len()
        invariant
            i <= files.len(),
            session.wf(),
            session@ == (Progress {
                config: config@,
                files: input_paths(files@),
                at: i as int,
                open: false,
                seen: 0,
                stopped: false,
            }),
            searches@.len() == i,
            forall|k: int|
                0 <= k < i ==> file_searched(
                    #[trigger] searches@[k],
                    files@[k].path@,
                    config@,
                    files@[k].content,
                ),
            forall|k: int| 0 <= k < i ==> (#[trigger] searches@[k]).report.failure is None,
        decreases files.len() - i,
    {
        let found = replay(&mut session, &files[i].content);
        let failed = found.report.failure.is_some();
        searches.push(found);
        if failed {
            return searches;
        }
        i += 1;
    }
    searches
}

} // verus!
