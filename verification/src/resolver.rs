//! The path resolver: from the paths a search was given, and from what
//! the file system said of them, to the list of files to search. A file
//! is told from every other by its key, the canonical form of its path,
//! and is listed once, under the path by which it was first reached.

use crate::pathset::{holds_key, keys_of, paths_of, taking, Found, PathSet};
use crate::text::texts;
use vstd::prelude::*;
use vstd::string::{StrSliceExecFns, StringExecFns};

verus! {

/// Why the paths could not be resolved.
#[derive(Clone, Debug, PartialEq, Eq)]
pub enum TraversalError {
    /// Nothing could be learned about the root with this path.
    Stat(String),
    /// The directory with this path could not be walked to the end.
    Walk(String),
}

/// The mathematical content of a [`TraversalError`].
pub enum TraversalFailure {
    Stat(Seq<char>),
    Walk(Seq<char>),
}

impl View for TraversalError {
    type V = TraversalFailure;

    open spec fn view(&self) -> TraversalFailure {
        match self {
            TraversalError::Stat(path) => TraversalFailure::Stat(path@),
            TraversalError::Walk(path) => TraversalFailure::Walk(path@),
        }
    }
}

impl TraversalFailure {
    /// The text of the message for this failure.
    pub open spec fn message_text(self) -> Seq<char> {
        match self {
            TraversalFailure::Stat(path) => "Error: could not get metadata for: "@ + path,
            TraversalFailure::Walk(path) => "Error: could not read directory "@ + path,
        }
    }
}

impl TraversalError {
    /// The message to show for this error.
    pub fn message(&self) -> (text: String)
        ensures
            text@ == self@.message_text(),
    {
        match self {
            TraversalError::Stat(path) => {
                let mut text = String::from_str("Error: could not get metadata for: ");
                text.append(path.as_str());
                text
            },
            TraversalError::Walk(path) => {
                let mut text = String::from_str("Error: could not read directory ");
                text.append(path.as_str());
                text
            },
        }
    }
}

/// What the file system said of a path that the search was given.
#[derive(Clone, Copy, Debug, PartialEq, Eq, Structural)]
pub enum RootKind {
    /// Nothing could be learned about the path.
    Unreadable,
    /// The path is a regular file.
    File,
    /// The path is a directory.
    Directory,
    /// The path is something else.
    Other,
}

/// One step of walking a directory tree.
#[derive(Clone, Debug, PartialEq, Eq)]
pub enum WalkEvent {
    /// The walk came upon an entry.
    Entry {
        /// Whether the entry is a regular file.
        is_file: bool,
        /// The entry's name within its directory.
        name: String,
        /// The entry's path.
        path: String,
        /// The entry's key: the canonical form of its path.
        key: String,
    },
    /// The walk could not go on from where it was.
    Failure,
}

/// The mathematical content of a [`WalkEvent`].
pub enum Seen {
    Entry { is_file: bool, name: Seq<char>, path: Seq<char>, key: Seq<char> },
    Failure,
}

impl View for WalkEvent {
    type V = Seen;

    open spec fn view(&self) -> Seen {
        match self {
            WalkEvent::Entry { is_file, name, path, key } => Seen::Entry {
                is_file: *is_file,
                name: name@,
                path: path@,
                key: key@,
            },
            WalkEvent::Failure => Seen::Failure,
        }
    }
}

/// A path that the search was given, with all that the file system said
/// of it. The key is looked at only for a regular file, the walk only for
/// a directory in a recursive search.
#[derive(Clone, Debug, PartialEq, Eq)]
pub struct RootReport {
    pub path: String,
    /// The canonical form of the path.
    pub key: String,
    pub kind: RootKind,
    pub walk: Vec<WalkEvent>,
}

/// The mathematical content of a [`RootReport`].
pub struct Root {
    pub path: Seq<char>,
    pub key: Seq<char>,
    pub kind: RootKind,
    pub walk: Seq<Seen>,
}

/// What a list of walk events stands for.
pub open spec fn seen_of(events: Seq<WalkEvent>) -> Seq<Seen> {
    Seq::new(events.len(), |k: int| events[k]@)
}

impl View for RootReport {
    type V = Root;

    open spec fn view(&self) -> Root {
        Root { path: self.path@, key: self.key@, kind: self.kind, walk: seen_of(self.walk@) }
    }
}

/// What a list of root reports stands for.
pub open spec fn roots_of(reports: Seq<RootReport>) -> Seq<Root> {
    Seq::new(reports.len(), |k: int| reports[k]@)
}

/// Whether a name marks its entry as hidden: it begins with a dot.
pub open spec fn is_hidden(name: Seq<char>) -> bool {
    name.len() > 0 && name[0] == '.'
}

/// Whether a walk event contributes a file: it is a regular file whose
/// name does not mark it as hidden.
pub open spec fn contributes(event: Seen) -> bool {
    event matches Seen::Entry { is_file, name, .. } && is_file && !is_hidden(name)
}

/// The file that a walk event stands for.
pub open spec fn entry_file(event: Seen) -> Found {
    Found { path: event->path, key: event->key }
}

/// The file that a root stands for.
pub open spec fn root_file(root: Root) -> Found {
    Found { path: root.path, key: root.key }
}

/// The key by which a file is told from every other: the canonical form
/// of its path where there is one, else the path as it stands.
pub open spec fn key_of(path: Seq<char>, canonical: Option<Seq<char>>) -> Seq<char> {
    match canonical {
        Some(key) => key,
        None => path,
    }
}

/// Whether a walk met with a failure.
pub open spec fn walk_fails(walk: Seq<Seen>) -> bool {
    exists|k: int| 0 <= k < walk.len() && (#[trigger] walk[k]) is Failure
}

/// The files that a walk contributes, in the order in which the walk came
/// upon them.
pub open spec fn walk_files(walk: Seq<Seen>) -> Seq<Found>
    decreases walk.len(),
{
    if walk.len() == 0 {
        Seq::empty()
    } else if contributes(walk.last()) {
        walk_files(walk.drop_last()).push(entry_file(walk.last()))
    } else {
        walk_files(walk.drop_last())
    }
}

/// What one root contributes: itself when it is a regular file; the files
/// of its walk when it is a directory and the search is recursive;
/// nothing when it is a directory and the search is not recursive, or
/// when it is neither. A root that could not be read, and a walk that
/// failed, are failures.
pub open spec fn root_outcome(root: Root, recursive: bool) -> Result<Seq<Found>, TraversalFailure> {
    match root.kind {
        RootKind::Unreadable => Err(TraversalFailure::Stat(root.path)),
        RootKind::File => Ok(seq![root_file(root)]),
        RootKind::Directory => if !recursive {
            Ok(Seq::empty())
        } else if walk_fails(root.walk) {
            Err(TraversalFailure::Walk(root.path))
        } else {
            Ok(walk_files(root.walk))
        },
        RootKind::Other => Ok(Seq::empty()),
    }
}

/// Everything that the roots contribute, in order and with repetitions, or
/// the failure of the first root that fails.
pub open spec fn gathered(roots: Seq<Root>, recursive: bool) -> Result<Seq<Found>, TraversalFailure>
    decreases roots.len(),
{
    if roots.len() == 0 {
        Ok(Seq::empty())
    } else {
        match gathered(roots.drop_last(), recursive) {
            Err(failure) => Err(failure),
            Ok(before) => match root_outcome(roots.last(), recursive) {
                Err(failure) => Err(failure),
                Ok(more) => Ok(before + more),
            },
        }
    }
}

/// The files of a list without repetitions: each file where a file with
/// its key first stands.
pub open spec fn distinct(items: Seq<Found>) -> Seq<Found>
    decreases items.len(),
{
    if items.len() == 0 {
        Seq::empty()
    } else {
        taking(distinct(items.drop_last()), items.last())
    }
}

/// The files to search: everything that the roots contribute, each file
/// once, or the failure of the first root that fails.
pub open spec fn resolved(roots: Seq<Root>, recursive: bool) -> Result<Seq<Found>, TraversalFailure> {
    match gathered(roots, recursive) {
        Ok(all) => Ok(distinct(all)),
        Err(failure) => Err(failure),
    }
}

/// Whether a name marks its entry as hidden.
pub fn hidden(name: &str) -> (hidden: bool)
    ensures
        hidden == is_hidden(name@),
{
    !name.is_empty() && name.get_char(0) == '.'
}

/// The key of a file, given its path and the canonical form of that path
/// if the file system gave one.
pub fn file_key(path: &str, canonical: Option<String>) -> (key: String)
    ensures
        key@ == key_of(
            path@,
            match canonical {
                Some(text) => Some(text@),
                None => None,
            },
        ),
{
    match canonical {
        Some(key) => key,
        None => String::from_str(path),
    }
}

/// What to do after a root has been looked at.
#[derive(Clone, Copy, Debug, PartialEq, Eq, Structural)]
pub enum RootStep {
    /// Go on to the next root.
    Next,
    /// Walk the directory and hand in each event of the walk.
    Descend,
}

/// The files found so far while the roots are gone through one by one.
#[derive(Debug)]
pub struct Resolver {
    recursive: bool,
    files: PathSet,
}

impl Resolver {
    /// Whether the resolver is in order: no file was found twice.
    pub closed spec fn wf(&self) -> bool {
        self.files.wf()
    }

    /// Whether directories are walked.
    pub closed spec fn recursive(&self) -> bool {
        self.recursive
    }

    /// The files found so far, in the order in which they were found.
    pub closed spec fn found(&self) -> Seq<Found> {
        self.files@
    }

    /// A resolver that has found nothing yet.
    pub fn new(recursive: bool) -> (resolver: Resolver)
        ensures
            resolver.wf(),
            resolver.recursive() == recursive,
            resolver.found() == Seq::<Found>::empty(),
    {
        Resolver { recursive, files: PathSet::new() }
    }

    /// Looks at one root. A regular file is taken in under its key; a
    /// directory is to be walked when the search is recursive; a root
    /// that could not be read ends the resolution.
    pub fn root(&mut self, path: &str, key: &str, kind: RootKind) -> (step: Result<
        RootStep,
        TraversalError,
    >)
        requires
            old(self).wf(),
        ensures
            final(self).wf(),
            final(self).recursive() == old(self).recursive(),
            final(self).found() == if kind == RootKind::File {
                taking(old(self).found(), Found { path: path@, key: key@ })
            } else {
                old(self).found()
            },
            match kind {
                RootKind::Unreadable => step matches Err(error) && error@
                    == TraversalFailure::Stat(path@),
                RootKind::Directory => step == Ok::<RootStep, TraversalError>(
                    if old(self).recursive() {
                        RootStep::Descend
                    } else {
                        RootStep::Next
                    },
                ),
                _ => step == Ok::<RootStep, TraversalError>(RootStep::Next),
            },
    {
        match kind {
            RootKind::Unreadable => Err(TraversalError::Stat(String::from_str(path))),
            RootKind::File => {
                self.files.insert(key, path);
                Ok(RootStep::Next)
            },
            RootKind::Directory => {
                if self.recursive {
                    Ok(RootStep::Descend)
                } else {
                    Ok(RootStep::Next)
                }
            },
            RootKind::Other => Ok(RootStep::Next),
        }
    }

    /// Looks at one event of the walk of the directory `root`. A regular
    /// file that is not hidden is taken in under its key; a failure ends
    /// the resolution.
    pub fn entry(&mut self, root: &str, event: &WalkEvent) -> (step: Result<(), TraversalError>)
        requires
            old(self).wf(),
        ensures
            final(self).wf(),
            final(self).recursive() == old(self).recursive(),
            final(self).found() == if contributes(event@) {
                taking(old(self).found(), entry_file(event@))
            } else {
                old(self).found()
            },
            match event@ {
                Seen::Failure => step matches Err(error) && error@ == TraversalFailure::Walk(root@),
                _ => step is Ok,
            },
    {
        match event {
            WalkEvent::Failure => Err(TraversalError::Walk(String::from_str(root))),
            WalkEvent::Entry { is_file, name, path, key } => {
                if *is_file && !hidden(name.as_str()) {
                    self.files.insert(key.as_str(), path.as_str());
                }
                Ok(())
            },
        }
    }

    /// The paths of the files found, in the order in which they were
    /// found.
    pub fn finish(self) -> (files: Vec<String>)
        requires
            self.wf(),
        ensures
            texts(files@) == paths_of(self.found()),
            keys_of(self.found()).no_duplicates(),
    {
        self.files.into_vec()
    }
}

/// What a resolution asks of its caller next.
#[derive(Clone, Debug, PartialEq, Eq)]
pub enum Asked {
    /// Ask the file system what this path is, and for its key.
    Look(String),
    /// Hand in the next event of the walk of this directory, or that the
    /// walk is over.
    Walk(String),
    /// Nothing more: the resolution is over.
    Nothing,
}

/// A resolution as it runs: which root is looked at next, whether a
/// directory is being walked, and whether a failure has ended it.
#[derive(Debug)]
pub struct Resolution {
    resolver: Resolver,
    roots: Vec<String>,
    at: usize,
    walking: bool,
    failure: Option<TraversalError>,
}

/// The mathematical content of a [`Resolution`].
pub struct Course {
    /// Whether directories are walked.
    pub recursive: bool,
    /// The paths that were named.
    pub roots: Seq<Seq<char>>,
    /// How many of them are done with.
    pub at: int,
    /// Whether the root after those is a directory that is being walked.
    pub walking: bool,
    /// The files found so far.
    pub found: Seq<Found>,
    /// The failure that has ended the resolution, if one has.
    pub failure: Option<TraversalFailure>,
}

impl Course {
    /// What the resolution asks for at this point: nothing once it has
    /// failed or is done with every root; the next event of the walk
    /// while a directory is being walked; else a look at the next root.
    pub open spec fn asked(self) -> Option<(bool, Seq<char>)> {
        if self.failure is Some || self.at >= self.roots.len() {
            None
        } else {
            Some((self.walking, self.roots[self.at]))
        }
    }

    /// The course after a failure.
    pub open spec fn failed(self, failure: TraversalFailure) -> Course {
        Course { failure: Some(failure), ..self }
    }
}

impl View for Asked {
    type V = Option<(bool, Seq<char>)>;

    open spec fn view(&self) -> Option<(bool, Seq<char>)> {
        match self {
            Asked::Nothing => None,
            Asked::Look(path) => Some((false, path@)),
            Asked::Walk(path) => Some((true, path@)),
        }
    }
}

impl View for Resolution {
    type V = Course;

    closed spec fn view(&self) -> Course {
        Course {
            recursive: self.resolver.recursive(),
            roots: texts(self.roots@),
            at: self.at as int,
            walking: self.walking,
            found: self.resolver.found(),
            failure: match self.failure {
                Some(error) => Some(error@),
                None => None,
            },
        }
    }
}

impl Resolution {
    /// Whether the resolution is in order.
    pub closed spec fn wf(&self) -> bool {
        &&& self.resolver.wf()
        &&& self.at <= self.roots.len()
        &&& self.walking ==> self.at < self.roots.len()
    }

    /// A resolution of the given roots that has not begun.
    pub fn new(roots: Vec<String>, recursive: bool) -> (resolution: Resolution)
        ensures
            resolution.wf(),
            resolution@ == (Course {
                recursive,
                roots: texts(roots@),
                at: 0,
                walking: false,
                found: Seq::empty(),
                failure: None,
            }),
    {
        Resolution { resolver: Resolver::new(recursive), roots, at: 0, walking: false, failure: None }
    }

    /// What the resolution asks of its caller next.
    pub fn asked(&self) -> (asked: Asked)
        requires
            self.wf(),
        ensures
            asked@ == self@.asked(),
    {
        if self.failure.is_some() || self.at >= self.roots.len() {
            Asked::Nothing
        } else if self.walking {
            Asked::Walk(self.roots[self.at].clone())
        } else {
            Asked::Look(self.roots[self.at].clone())
        }
    }

    /// Takes in what the file system said of the root that was to be
    /// looked at. A regular file is taken in under its key and the next
    /// root is looked at; so it is after a directory that is not to be
    /// walked and after what is neither; a directory that is to be walked
    /// is walked next; a root that could not be read ends the resolution.
    pub fn looked(&mut self, key: &str, kind: RootKind)
        requires
            old(self).wf(),
            old(self)@.asked() matches Some((false, _)),
        ensures
            final(self).wf(),
            ({
                let before = old(self)@;
                let path = before.roots[before.at];
                match kind {
                    RootKind::Unreadable => final(self)@ == before.failed(
                        TraversalFailure::Stat(path),
                    ),
                    RootKind::File => final(self)@ == (Course {
                        at: before.at + 1,
                        found: taking(before.found, Found { path, key: key@ }),
                        ..before
                    }),
                    RootKind::Directory => final(self)@ == if before.recursive {
                        Course { walking: true, ..before }
                    } else {
                        Course { at: before.at + 1, ..before }
                    },
                    RootKind::Other => final(self)@ == (Course { at: before.at + 1, ..before }),
                }
            }),
    {
        match self.resolver.root(self.roots[self.at].as_str(), key, kind) {
            Err(error) => {
                self.failure = Some(error);
            },
            Ok(RootStep::Descend) => {
                self.walking = true;
            },
            Ok(RootStep::Next) => {
                self.at = self.at + 1;
            },
        }
    }

    /// Takes in the next event of the walk, or, with no event, that the
    /// walk is over. A regular file that is not hidden is taken in under
    /// its key; a failure ends the resolution; after the end of the walk
    /// the next root is looked at.
    pub fn walked(&mut self, event: Option<&WalkEvent>)
        requires
            old(self).wf(),
            old(self)@.asked() matches Some((true, _)),
        ensures
            final(self).wf(),
            ({
                let before = old(self)@;
                let path = before.roots[before.at];
                match event {
                    None => final(self)@ == (Course {
                        at: before.at + 1,
                        walking: false,
                        ..before
                    }),
                    Some(event) => if event@ is Failure {
                        final(self)@ == before.failed(TraversalFailure::Walk(path))
                    } else if contributes(event@) {
                        final(self)@ == (Course {
                            found: taking(before.found, entry_file(event@)),
                            ..before
                        })
                    } else {
                        final(self)@ == before
                    },
                }
            }),
    {
        match event {
            None => {
                self.walking = false;
                self.at = self.at + 1;
            },
            Some(event) => {
                match self.resolver.entry(self.roots[self.at].as_str(), event) {
                    Err(error) => {
                        self.failure = Some(error);
                    },
                    Ok(_) => {},
                }
            },
        }
    }

    /// What the resolution came to: the failure that ended it, or the
    /// paths of the files found, in the order in which they were found.
    pub fn finish(self) -> (outcome: Result<Vec<String>, TraversalError>)
        requires
            self.wf(),
        ensures
            match outcome {
                Err(error) => self@.failure == Some(error@),
                Ok(files) => self@.failure is None && texts(files@) == paths_of(self@.found),
            },
    {
        match self.failure {
            Some(error) => Err(error),
            None => Ok(self.resolver.finish()),
        }
    }
}

/// Once a root has failed, the roots after it change nothing.
pub proof fn lemma_failure_stands(roots: Seq<Root>, recursive: bool, upto: int)
    requires
        0 <= upto <= roots.len(),
        gathered(roots.take(upto), recursive) is Err,
    ensures
        gathered(roots, recursive) == gathered(roots.take(upto), recursive),
    decreases roots.len() - upto,
{
    if upto == roots.len() {
        assert(roots.take(upto) =~= roots);
    } else {
        assert(roots.take(upto + 1).drop_last() =~= roots.take(upto));
        lemma_failure_stands(roots, recursive, upto + 1);
    }
}

/// A list without repetitions holds no two files with the same key, holds
/// a file for exactly the keys of the list it was made from, and holds
/// files of that list only.
pub proof fn lemma_distinct_holds_each_once(items: Seq<Found>)
    ensures
        keys_of(distinct(items)).no_duplicates(),
        forall|key: Seq<char>| holds_key(distinct(items), key) <==> holds_key(items, key),
        forall|j: int|
            0 <= j < distinct(items).len() ==> items.contains(#[trigger] distinct(items)[j]),
    decreases items.len(),
{
    if items.len() > 0 {
        let before = items.drop_last();
        let last = items.last();
        lemma_distinct_holds_each_once(before);
        let kept = distinct(before);
        let now = distinct(items);
        assert forall|i: int, j: int| 0 <= i < now.len() && 0 <= j < now.len() && i != j implies keys_of(
            now,
        )[i] != keys_of(now)[j] by {
            if i < kept.len() && j < kept.len() {
                assert(keys_of(kept)[i] != keys_of(kept)[j]);
            } else if i < kept.len() {
                assert(kept[i].key != last.key);
            } else {
                assert(kept[j].key != last.key);
            }
        }
        assert forall|key: Seq<char>| holds_key(now, key) <==> holds_key(items, key) by {
            if holds_key(now, key) {
                let at = choose|at: int| 0 <= at < now.len() && (#[trigger] now[at]).key == key;
                if at < kept.len() {
                    assert(kept[at].key == key);
                    assert(holds_key(before, key));
                    let from = choose|from: int|
                        0 <= from < before.len() && (#[trigger] before[from]).key == key;
                    assert(items[from].key == key);
                } else {
                    assert(items[items.len() - 1].key == key);
                }
            }
            if holds_key(items, key) {
                let from = choose|from: int|
                    0 <= from < items.len() && (#[trigger] items[from]).key == key;
                if from < before.len() {
                    assert(before[from].key == key);
                    assert(holds_key(before, key));
                    assert(holds_key(kept, key));
                    let at = choose|at: int| 0 <= at < kept.len() && (#[trigger] kept[at]).key == key;
                    assert(now[at].key == key);
                } else if holds_key(kept, key) {
                    let at = choose|at: int| 0 <= at < kept.len() && (#[trigger] kept[at]).key == key;
                    assert(now[at].key == key);
                } else {
                    assert(now[kept.len() as int].key == key);
                }
            }
        }
        assert forall|j: int| 0 <= j < now.len() implies items.contains(#[trigger] now[j]) by {
            if j < kept.len() {
                assert(before.contains(kept[j]));
                let from = choose|from: int| 0 <= from < before.len() && before[from] == kept[j];
                assert(items[from] == now[j]);
            } else {
                assert(items[items.len() - 1] == now[j]);
            }
        }
    }
}

/// Files whose keys a list holds already add nothing to it.
pub proof fn lemma_distinct_absorbs(items: Seq<Found>, more: Seq<Found>)
    requires
        forall|k: int| 0 <= k < more.len() ==> holds_key(items, (#[trigger] more[k]).key),
    ensures
        distinct(items + more) == distinct(items),
    decreases more.len(),
{
    if more.len() == 0 {
        assert(items + more =~= items);
    } else {
        let fewer = more.drop_last();
        assert forall|k: int| 0 <= k < fewer.len() implies holds_key(
            items,
            (#[trigger] fewer[k]).key,
        ) by {
            assert(fewer[k] == more[k]);
        }
        lemma_distinct_absorbs(items, fewer);
        assert((items + more).drop_last() =~= items + fewer);
        assert((items + more).last() == more[more.len() - 1]);
        lemma_distinct_holds_each_once(items);
    }
}

/// What two lists of roots contribute one after the other: the failure
/// of the first list if it fails, else that of the second if it fails,
/// else the contributions of both, in that order.
pub proof fn lemma_gathered_in_turn(first: Seq<Root>, second: Seq<Root>, recursive: bool)
    ensures
        gathered(first + second, recursive) == match gathered(first, recursive) {
            Err(failure) => Err::<Seq<Found>, TraversalFailure>(failure),
            Ok(before) => match gathered(second, recursive) {
                Err(failure) => Err(failure),
                Ok(after) => Ok(before + after),
            },
        },
    decreases second.len(),
{
    if second.len() == 0 {
        assert(first + second =~= first);
        if gathered(first, recursive) is Ok {
            let before = gathered(first, recursive)->Ok_0;
            assert(before + Seq::<Found>::empty() =~= before);
        }
    } else {
        lemma_gathered_in_turn(first, second.drop_last(), recursive);
        assert((first + second).drop_last() =~= first + second.drop_last());
        assert((first + second).last() == second.last());
        if gathered(first, recursive) is Ok && gathered(second, recursive) is Ok {
            let before = gathered(first, recursive)->Ok_0;
            let most = gathered(second.drop_last(), recursive)->Ok_0;
            let more = root_outcome(second.last(), recursive)->Ok_0;
            assert((before + most) + more =~= before + (most + more));
        }
    }
}

/// Resolving yields a set: no two files of the result have the same key,
/// and the result holds a file for exactly the keys that the roots
/// contribute. A file that is reached by two roots, or by two spellings
/// of its path, is there once.
pub proof fn lemma_resolved_holds_each_file_once(roots: Seq<Root>, recursive: bool)
    ensures
        resolved(roots, recursive) matches Ok(files) ==> {
            &&& keys_of(files).no_duplicates()
            &&& forall|key: Seq<char>|
                holds_key(files, key) <==> holds_key(gathered(roots, recursive)->Ok_0, key)
        },
{
    if gathered(roots, recursive) is Ok {
        lemma_distinct_holds_each_once(gathered(roots, recursive)->Ok_0);
    }
}

/// Resolving is idempotent: naming the same roots a second time changes
/// nothing in the result.
pub proof fn lemma_resolving_twice_is_resolving_once(roots: Seq<Root>, recursive: bool)
    ensures
        resolved(roots + roots, recursive) == resolved(roots, recursive),
{
    lemma_gathered_in_turn(roots, roots, recursive);
    if gathered(roots, recursive) is Ok {
        let all = gathered(roots, recursive)->Ok_0;
        assert forall|k: int| 0 <= k < all.len() implies holds_key(all, (#[trigger] all[k]).key) by {}
        lemma_distinct_absorbs(all, all);
    }
}

/// Whether a walk came upon the given file, as a regular file with a name
/// that is not hidden.
pub open spec fn came_upon(walk: Seq<Seen>, file: Found) -> bool {
    exists|k: int|
        0 <= k < walk.len() && contributes(#[trigger] walk[k]) && entry_file(walk[k]) == file
}

/// Whether a root is the source of a file: the root is the file and is a
/// regular file, or the search is recursive and the root is a directory
/// whose walk came upon the file.
pub open spec fn yields(root: Root, recursive: bool, file: Found) -> bool {
    ||| root.kind == RootKind::File && root_file(root) == file
    ||| root.kind == RootKind::Directory && recursive && came_upon(root.walk, file)
}

/// Whether one of the roots is the source of a file.
pub open spec fn has_source(roots: Seq<Root>, recursive: bool, file: Found) -> bool {
    exists|i: int| 0 <= i < roots.len() && yields(#[trigger] roots[i], recursive, file)
}

/// Every file of a walk's contribution was come upon by the walk, as a
/// regular file that is not hidden.
pub proof fn lemma_walk_files_are_contributed(walk: Seq<Seen>)
    ensures
        forall|j: int|
            0 <= j < walk_files(walk).len() ==> came_upon(walk, #[trigger] walk_files(walk)[j]),
    decreases walk.len(),
{
    if walk.len() > 0 {
        let before = walk.drop_last();
        lemma_walk_files_are_contributed(before);
        assert forall|j: int| 0 <= j < walk_files(walk).len() implies came_upon(
            walk,
            #[trigger] walk_files(walk)[j],
        ) by {
            let file = walk_files(walk)[j];
            if j < walk_files(before).len() {
                assert(came_upon(before, walk_files(before)[j]));
                let k = choose|k: int|
                    0 <= k < before.len() && contributes(#[trigger] before[k]) && entry_file(
                        before[k],
                    ) == file;
                assert(walk[k] == before[k]);
            } else {
                assert(contributes(walk[walk.len() - 1]));
            }
        }
    }
}

/// Every file that the roots contribute has a root that is its source.
pub proof fn lemma_gathered_has_sources(roots: Seq<Root>, recursive: bool)
    ensures
        gathered(roots, recursive) matches Ok(all) ==> forall|j: int|
            0 <= j < all.len() ==> has_source(roots, recursive, #[trigger] all[j]),
    decreases roots.len(),
{
    if roots.len() > 0 && gathered(roots, recursive) is Ok {
        let before = roots.drop_last();
        let last = roots.last();
        let all = gathered(roots, recursive)->Ok_0;
        let most = gathered(before, recursive)->Ok_0;
        lemma_gathered_has_sources(before, recursive);
        lemma_walk_files_are_contributed(last.walk);
        assert forall|j: int| 0 <= j < all.len() implies has_source(
            roots,
            recursive,
            #[trigger] all[j],
        ) by {
            if j < most.len() {
                assert(has_source(before, recursive, most[j]));
                let i = choose|i: int|
                    0 <= i < before.len() && yields(#[trigger] before[i], recursive, most[j]);
                assert(roots[i] == before[i]);
            } else {
                let more = root_outcome(last, recursive)->Ok_0;
                assert(all[j] == more[j - most.len()]);
                assert(yields(roots[roots.len() - 1], recursive, all[j]));
            }
        }
    }
}

/// Hidden files stay out, and a search that is not recursive takes
/// nothing from a directory: every resolved file is either a root that is
/// a regular file, or a regular file with a name that is not hidden which
/// the walk of a directory came upon in a recursive search.
pub proof fn lemma_resolved_files_have_sources(roots: Seq<Root>, recursive: bool)
    ensures
        resolved(roots, recursive) matches Ok(files) ==> forall|j: int|
            0 <= j < files.len() ==> has_source(roots, recursive, #[trigger] files[j]),
{
    if gathered(roots, recursive) is Ok {
        let all = gathered(roots, recursive)->Ok_0;
        let files = distinct(all);
        lemma_gathered_has_sources(roots, recursive);
        lemma_distinct_holds_each_once(all);
        assert forall|j: int| 0 <= j < files.len() implies has_source(
            roots,
            recursive,
            #[trigger] files[j],
        ) by {
            assert(all.contains(files[j]));
            let from = choose|from: int| 0 <= from < all.len() && all[from] == files[j];
            assert(has_source(roots, recursive, all[from]));
        }
    }
}

/// A directory contributes nothing to a search that is not recursive,
/// whatever stands below it.
pub proof fn lemma_directory_gives_nothing_without_recursion(root: Root)
    requires
        root.kind == RootKind::Directory,
    ensures
        root_outcome(root, false) == Ok::<Seq<Found>, TraversalFailure>(Seq::empty()),
{
}

/// A search that is not recursive finds nothing when every root is a
/// directory.
pub proof fn lemma_directories_alone_give_nothing(roots: Seq<Root>)
    requires
        forall|i: int| 0 <= i < roots.len() ==> (#[trigger] roots[i]).kind == RootKind::Directory,
    ensures
        resolved(roots, false) == Ok::<Seq<Found>, TraversalFailure>(Seq::empty()),
    decreases roots.len(),
{
    if roots.len() > 0 {
        let before = roots.drop_last();
        assert forall|i: int| 0 <= i < before.len() implies (#[trigger] before[i]).kind
            == RootKind::Directory by {
            assert(before[i] == roots[i]);
        }
        lemma_directories_alone_give_nothing(before);
        assert(roots[roots.len() - 1].kind == RootKind::Directory);
        assert(Seq::<Found>::empty() + Seq::<Found>::empty() =~= Seq::<Found>::empty());
    }
}

/// The paths of a list of roots.
pub open spec fn root_paths(roots: Seq<Root>) -> Seq<Seq<char>> {
    Seq::new(roots.len(), |i: int| roots[i].path)
}

/// Resolves the roots by running a [`Resolution`] on what was recorded of
/// them: the paths of the files that they contribute, each file once and
/// in the order in which it was first found, or the failure of the first
/// root that fails.
pub fn resolve(roots: &Vec<RootReport>, recursive: bool) -> (outcome: Result<
    Vec<String>,
    TraversalError,
>)
    ensures
        match outcome {
            Ok(files) => resolved(roots_of(roots@), recursive) matches Ok(found) && texts(files@)
                == paths_of(found),
            Err(error) => resolved(roots_of(roots@), recursive) == Err::<
                Seq<Found>,
                TraversalFailure,
            >(error@),
        },
{
    let ghost given = roots_of(roots@);
    let ghost mut all: Seq<Found> = Seq::empty();
    let mut paths: Vec<String> = Vec::new();
    let mut n: usize = 0;
    while n < roots.len()
        invariant
            n <= roots.len(),
            given == roots_of(roots@),
            texts(paths@) == root_paths(given.take(n as int)),
        decreases roots.len() - n,
    {
        let ghost before = texts(paths@);
        paths.push(roots[n].path.clone());
        proof {
            assert(given[n as int] == roots@[n as int]@);
            assert(texts(paths@) =~= before.push(given[n as int].path));
            assert(root_paths(given.take(n + 1)) =~= root_paths(given.take(n as int)).push(
                given[n as int].path,
            ));
        }
        n += 1;
    }
    assert(given.take(n as int) =~= given);
    let mut resolution = Resolution::new(paths, recursive);
    let mut i: usize = 0;
    assert(given.take(0) =~= Seq::<Root>::empty());
    while i < roots.len()
        invariant
            given == roots_of(roots@),
            i <= roots.len(),
            resolution.wf(),
            resolution@ == (Course {
                recursive,
                roots: root_paths(given),
                at: i as int,
                walking: false,
                found: distinct(all),
                failure: None,
            }),
            gathered(given.take(i as int), recursive) == Ok::<Seq<Found>, TraversalFailure>(all),
        decreases roots.len() - i,
    {
        let root = &roots[i];
        let ghost this = given[i as int];
        proof {
            assert(this == root@);
            assert(given.take(i + 1).drop_last() =~= given.take(i as int));
            assert(given.take(i + 1).last() == this);
            assert((all + seq![root_file(this)]) =~= all.push(root_file(this)));
            assert((all + seq![root_file(this)]).drop_last() =~= all);
            assert((all + Seq::<Found>::empty()) =~= all);
        }
        resolution.looked(root.key.as_str(), root.kind);
        if root.kind == RootKind::Unreadable {
            proof {
                lemma_failure_stands(given, recursive, i + 1);
            }
            return resolution.finish();
        }
        if root.kind == RootKind::Directory && recursive {
            let mut k: usize = 0;
            let ghost walk = this.walk;
            assert(walk.take(0) =~= Seq::<Seen>::empty());
            while k < root.walk.len()
                invariant
                    walk == seen_of(root.walk@),
                    k <= root.walk.len(),
                    resolution.wf(),
                    resolution@ == (Course {
                        recursive,
                        roots: root_paths(given),
                        at: i as int,
                        walking: true,
                        found: distinct(all + walk_files(walk.take(k as int))),
                        failure: None,
                    }),
                    recursive,
                    !walk_fails(walk.take(k as int)),
                    this == root@,
                    this == given[i as int],
                    i < roots.len(),
                    given == roots_of(roots@),
                    gathered(given.take(i + 1), recursive) == if walk_fails(walk) {
                        Err::<Seq<Found>, TraversalFailure>(TraversalFailure::Walk(this.path))
                    } else {
                        Ok::<Seq<Found>, TraversalFailure>(all + walk_files(walk))
                    },
                decreases root.walk.len() - k,
            {
                let event = &root.walk[k];
                proof {
                    assert(walk[k as int] == event@);
                    assert(walk.take(k + 1).drop_last() =~= walk.take(k as int));
                    assert(walk.take(k + 1).last() == event@);
                    let sofar = walk_files(walk.take(k as int));
                    if contributes(event@) {
                        assert((all + sofar.push(entry_file(event@))) =~= (all + sofar).push(
                            entry_file(event@),
                        ));
                        assert((all + sofar).push(entry_file(event@)).drop_last() =~= all + sofar);
                    }
                }
                resolution.walked(Some(event));
                if let WalkEvent::Failure = event {
                    proof {
                        assert(walk_fails(walk));
                        lemma_failure_stands(given, recursive, i + 1);
                    }
                    return resolution.finish();
                }
                proof {
                    let longer = walk.take(k + 1);
                    if walk_fails(longer) {
                        let bad = choose|bad: int|
                            0 <= bad < longer.len() && (#[trigger] longer[bad]) is Failure;
                        if bad < k {
                            assert(walk.take(k as int)[bad] is Failure);
                        }
                    }
                }
                k += 1;
            }
            resolution.walked(None);
            proof {
                assert(walk.take(k as int) =~= walk);
                all = all + walk_files(walk);
            }
        } else {
            proof {
                all = all + root_outcome(this, recursive)->Ok_0;
            }
        }
        i += 1;
    }
    proof {
        assert(given.take(i as int) =~= given);
    }
    resolution.finish()
}

} // verus!
