//! The journal of a running transaction.
//!
//! It says what a transaction is about to do before the first change, and what it did as it goes
//! on. It is removed when the transaction is over, so one that is found was interrupted, and
//! [`Record::recovery`] says what finishes it.
//!
//! The header is strict and the body is tolerant. The header says which format the rest is in. A
//! journal is read precisely when something went wrong, so a line that cannot be read costs no
//! other.

use vstd::prelude::*;
use vstd::string::*;

use crate::bytes;
use crate::error::{Error, IoAction};
use crate::package;
use crate::package::{EntryName, EntryNameView, InstallReason};
use crate::paths;
use crate::text;

verus! {

broadcast use crate::text::group_lists;

/// The journal's file name, inside the database path.
pub const JOURNAL_FILE: &'static str = "piko-journal";

/// How many characters of an unknown version [`Unreadable::UnknownVersion`] keeps.
pub const MAX_VERSION_CHARS: usize = 32;

/// The journal file inside `dbpath`.
pub fn path(dbpath: &str) -> (r: String)
    ensures
        r@ == paths::joined(dbpath@, JOURNAL_FILE@),
{
    paths::join(dbpath, JOURNAL_FILE)
}

/// One thing a transaction intends to do.
#[derive(Clone, Debug, Eq, PartialEq)]
pub enum Intent {
    /// Install the named package file.
    Install {
        /// The package file's name, as it appears in the cache.
        package: String,
        /// Why it is installed. `None` when the journal does not record it.
        reason: Option<InstallReason>,
    },
    /// Remove the named installed entry.
    Remove {
        /// The entry directory name, `<name>-<version>`.
        entry: String,
    },
}

/// What an [`Intent`] says.
pub enum IntentView {
    /// [`Intent::Install`].
    Install {
        /// The package file's name.
        package: Seq<char>,
        /// Why it is installed.
        reason: Option<InstallReason>,
    },
    /// [`Intent::Remove`].
    Remove {
        /// The entry directory name.
        entry: Seq<char>,
    },
}

impl View for Intent {
    type V = IntentView;

    open spec fn view(&self) -> IntentView {
        match self {
            Intent::Install { package, reason } => IntentView::Install {
                package: package@,
                reason: *reason,
            },
            Intent::Remove { entry } => IntentView::Remove { entry: entry@ },
        }
    }
}

impl IntentView {
    /// The intent's text, without its index and its reason.
    pub open spec fn render(self) -> Seq<char> {
        match self {
            IntentView::Install { package, .. } => "install "@ + package,
            IntentView::Remove { entry } => "remove "@ + entry,
        }
    }

    /// The intent without its reason.
    pub open spec fn bare(self) -> Self {
        match self {
            IntentView::Install { package, .. } => IntentView::Install { package, reason: None },
            other => other,
        }
    }

    /// The name of the file or of the entry.
    pub open spec fn subject(self) -> Seq<char> {
        match self {
            IntentView::Install { package, .. } => package,
            IntentView::Remove { entry } => entry,
        }
    }
}

/// What an intent's text says.
pub open spec fn intent_of(s: Seq<char>) -> Option<IntentView> {
    match text::split_once(s, ' ') {
        Some((verb, rest)) => if verb == "install"@ {
            Some(IntentView::Install { package: rest, reason: None })
        } else if verb == "remove"@ {
            Some(IntentView::Remove { entry: rest })
        } else {
            None
        },
        None => None,
    }
}

impl Intent {
    /// The journal line for this intent, without its index.
    pub fn render(&self) -> (r: String)
        ensures
            r@ == self@.render(),
    {
        match self {
            Intent::Install { package, .. } => "install ".to_owned().concat(package.as_str()),
            Intent::Remove { entry } => "remove ".to_owned().concat(entry.as_str()),
        }
    }

    /// Parses a rendered intent.
    pub fn parse(s: &str) -> (r: Option<Self>)
        ensures
            match r {
                Some(intent) => intent_of(s@) == Some(intent@),
                None => intent_of(s@) is None,
            },
    {
        let all = text::chars(s);
        Intent::parse_chars(all.as_slice())
    }

    /// As [`Intent::parse`], of characters.
    fn parse_chars(s: &[char]) -> (r: Option<Self>)
        ensures
            match r {
                Some(intent) => intent_of(s@) == Some(intent@),
                None => intent_of(s@) is None,
            },
    {
        match text::cut_once(s, ' ') {
            Some((verb, rest)) => if text::spells(verb, "install") {
                Some(Intent::Install { package: text::text(rest), reason: None })
            } else if text::spells(verb, "remove") {
                Some(Intent::Remove { entry: text::text(rest) })
            } else {
                None
            },
            None => None,
        }
    }
}

/// The views of a list of intents.
pub open spec fn intent_views(list: Seq<Intent>) -> Seq<IntentView> {
    Seq::new(list.len(), |i: int| list[i]@)
}

/// Appending an intent appends its view.
pub broadcast proof fn lemma_intents_push(list: Seq<Intent>, intent: Intent)
    ensures
        #[trigger] intent_views(list.push(intent)) == intent_views(list).push(intent@),
{
    assert(intent_views(list.push(intent)) =~= intent_views(list).push(intent@));
}

/// The journal's spelling of an install reason.
pub open spec fn reason_text(reason: InstallReason) -> Seq<char> {
    match reason {
        InstallReason::Explicit => "explicit"@,
        InstallReason::Depend => "depend"@,
    }
}

/// What a `reason` line's value says.
pub open spec fn reason_of(word: Seq<char>) -> Option<InstallReason> {
    if word == "explicit"@ {
        Some(InstallReason::Explicit)
    } else if word == "depend"@ {
        Some(InstallReason::Depend)
    } else {
        None
    }
}

/// The journal's spelling of an install reason.
fn reason_word(reason: InstallReason) -> (r: &'static str)
    ensures
        r@ == reason_text(reason),
{
    match reason {
        InstallReason::Explicit => "explicit",
        InstallReason::Depend => "depend",
    }
}

/// Reads a `reason` line's value.
fn parse_reason(word: &[char]) -> (r: Option<InstallReason>)
    ensures
        r == reason_of(word@),
{
    if text::spells(word, "explicit") {
        Some(InstallReason::Explicit)
    } else if text::spells(word, "depend") {
        Some(InstallReason::Depend)
    } else {
        None
    }
}

/// A transaction's recorded intent, as found on disk.
#[derive(Clone, Debug, Eq, PartialEq)]
pub struct Record {
    /// The installation root the transaction targeted.
    pub root: String,
    /// The database path it targeted.
    pub dbpath: String,
    /// Every step, in order.
    pub steps: Vec<Intent>,
    /// Whether the transaction had begun changing things when it stopped.
    pub begun: bool,
    /// Indices of the steps that completed.
    pub completed: Vec<usize>,
}

/// What a [`Record`] says.
#[verifier::ext_equal]
pub struct RecordView {
    /// The installation root.
    pub root: Seq<char>,
    /// The database path.
    pub dbpath: Seq<char>,
    /// Every step.
    pub steps: Seq<IntentView>,
    /// Whether the transaction had begun.
    pub begun: bool,
    /// The steps that completed.
    pub completed: Seq<usize>,
}

impl View for Record {
    type V = RecordView;

    open spec fn view(&self) -> RecordView {
        RecordView {
            root: self.root@,
            dbpath: self.dbpath@,
            steps: intent_views(self.steps@),
            begun: self.begun,
            completed: self.completed@,
        }
    }
}

// ---------------------------------------------------------------------------------------------
// Writing

/// The line of a step, and the line of its reason.
pub open spec fn step_lines(index: int, step: IntentView) -> Seq<Seq<char>> {
    let line = "step "@ + text::dec(index as nat) + " "@ + step.render();
    match step {
        IntentView::Install { reason: Some(reason), .. } => seq![
            line,
            "reason "@ + text::dec(index as nat) + " "@ + reason_text(reason),
        ],
        _ => seq![line],
    }
}

/// The lines of the first `n` steps.
pub open spec fn steps_lines(steps: Seq<IntentView>, n: int) -> Seq<Seq<char>>
    decreases n,
{
    if n <= 0 {
        Seq::empty()
    } else {
        steps_lines(steps, n - 1) + step_lines(n - 1, steps[n - 1])
    }
}

/// The lines of a journal whose transaction is about to begin.
pub open spec fn journal_lines(
    root: Seq<char>,
    dbpath: Seq<char>,
    steps: Seq<IntentView>,
) -> Seq<Seq<char>> {
    seq!["piko-journal 1"@, "root "@ + root, "dbpath "@ + dbpath] + steps_lines(
        steps,
        steps.len() as int,
    ) + seq!["begin"@]
}

/// The line that says a step completed.
pub open spec fn done_text(index: usize) -> Seq<char> {
    ("done "@ + text::dec(index as nat)).push('\n')
}

/// Appends one line.
fn push_line(out: &mut String, prefix: &str, value: &str, Ghost(list): Ghost<Seq<Seq<char>>>)
    requires
        old(out)@ == text::unlines(list),
    ensures
        final(out)@ == text::unlines(list.push(prefix@ + value@)),
{
    out.push_str(prefix);
    out.push_str(value);
    out.push('\n');
    proof {
        text::lemma_unlines_push(list, prefix@ + value@);
        assert(out@ =~= text::unlines(list) + (prefix@ + value@).push('\n'));
    }
}

/// The text of a journal, written before the first change.
pub fn begin_text(dbpath: &str, root: &str, steps: &Vec<Intent>) -> (r: String)
    ensures
        r@ == text::unlines(journal_lines(root@, dbpath@, intent_views(steps@))),
{
    let ghost views = intent_views(steps@);
    let mut out = String::new();
    let ghost mut list: Seq<Seq<char>> = Seq::empty();
    proof {
        reveal_strlit("");
        assert("piko-journal 1"@ + ""@ =~= "piko-journal 1"@);
        assert("begin"@ + ""@ =~= "begin"@);
    }
    push_line(&mut out, "piko-journal 1", "", Ghost(list));
    proof {
        list = list.push("piko-journal 1"@);
    }
    push_line(&mut out, "root ", root, Ghost(list));
    proof {
        list = list.push("root "@ + root@);
    }
    push_line(&mut out, "dbpath ", dbpath, Ghost(list));
    proof {
        list = list.push("dbpath "@ + dbpath@);
    }
    let ghost head = list;
    let mut i: usize = 0;
    assert(head + steps_lines(views, 0) =~= head);
    while i < steps.len()
        invariant
            i <= steps.len(),
            views == intent_views(steps@),
            list == head + steps_lines(views, i as int),
            out@ == text::unlines(list),
        decreases steps.len() - i,
    {
        let step = &steps[i];
        let mut value = text::decimal(i as u64);
        value.push_str(" ");
        value.push_str(step.render().as_str());
        push_line(&mut out, "step ", value.as_str(), Ghost(list));
        proof {
            assert(views[i as int] == step@);
            assert("step "@ + value@ =~= "step "@ + text::dec(i as nat) + " "@ + step@.render());
            list = list.push("step "@ + value@);
        }
        if let Intent::Install { reason: Some(reason), .. } = step {
            let mut why = text::decimal(i as u64);
            why.push_str(" ");
            why.push_str(reason_word(*reason));
            push_line(&mut out, "reason ", why.as_str(), Ghost(list));
            proof {
                assert("reason "@ + why@ =~= "reason "@ + text::dec(i as nat) + " "@ + reason_text(
                    *reason,
                ));
                list = list.push("reason "@ + why@);
            }
        }
        assert(list =~= head + (steps_lines(views, i as int) + step_lines(i as int, step@)));
        i += 1;
    }
    push_line(&mut out, "begin", "", Ghost(list));
    proof {
        assert(list.push("begin"@) =~= journal_lines(root@, dbpath@, views));
    }
    out
}

/// The line that says step `index` completed.
pub fn completed_line(index: usize) -> (r: String)
    ensures
        r@ == done_text(index),
{
    let mut out = "done ".to_owned();
    text::push_decimal(&mut out, index as u64);
    out.push('\n');
    out
}

// ---------------------------------------------------------------------------------------------
// Reading

/// Why a journal file that exists cannot be read as a journal.
#[derive(Clone, Debug, Eq, PartialEq)]
pub enum Unreadable {
    /// The file is not UTF-8 text.
    NotText,
    /// The first line is not a `piko-journal <version>` header.
    NoHeader,
    /// The header names a format version this build does not know.
    UnknownVersion(String),
}

/// What an [`Unreadable`] says.
pub enum UnreadableView {
    /// [`Unreadable::NotText`].
    NotText,
    /// [`Unreadable::NoHeader`].
    NoHeader,
    /// [`Unreadable::UnknownVersion`].
    UnknownVersion(Seq<char>),
}

impl View for Unreadable {
    type V = UnreadableView;

    open spec fn view(&self) -> UnreadableView {
        match self {
            Unreadable::NotText => UnreadableView::NotText,
            Unreadable::NoHeader => UnreadableView::NoHeader,
            Unreadable::UnknownVersion(version) => UnreadableView::UnknownVersion(version@),
        }
    }
}

impl UnreadableView {
    /// The words for the reason.
    pub open spec fn words(self) -> Seq<char> {
        match self {
            UnreadableView::NotText => "it is not text"@,
            UnreadableView::NoHeader => "it has no `piko-journal` header"@,
            UnreadableView::UnknownVersion(version) => "it uses format version "@
                + package::debug_text(version) + ", and this build reads only 1"@,
        }
    }
}

impl Unreadable {
    /// The words for the reason.
    pub fn message(&self) -> (r: String)
        ensures
            r@ == self@.words(),
    {
        match self {
            Unreadable::NotText => "it is not text".to_owned(),
            Unreadable::NoHeader => "it has no `piko-journal` header".to_owned(),
            Unreadable::UnknownVersion(version) => "it uses format version ".to_owned().concat(
                package::quoted(version.as_str()).as_str(),
            ).concat(", and this build reads only 1"),
        }
    }
}

/// The index a text spells, where it is one of this machine's.
pub open spec fn index_of(s: Seq<char>) -> Option<usize> {
    match text::unsigned(s) {
        Some(n) => if n <= usize::MAX {
            Some(n as usize)
        } else {
            None
        },
        None => None,
    }
}

/// `steps` with another reason for the install step `index`.
pub open spec fn with_reason(
    steps: Seq<IntentView>,
    index: usize,
    reason: Option<InstallReason>,
) -> Seq<IntentView> {
    if index < steps.len() {
        match steps[index as int] {
            IntentView::Install { package, .. } => steps.update(
                index as int,
                IntentView::Install { package, reason },
            ),
            _ => steps,
        }
    } else {
        steps
    }
}

/// What one line after the header makes of the record. A line that cannot be read is skipped.
pub open spec fn applied(record: RecordView, line: Seq<char>) -> RecordView {
    if text::starts_with(line, "root "@) {
        RecordView { root: text::strip_prefix(line, "root "@)->0, ..record }
    } else if text::starts_with(line, "dbpath "@) {
        RecordView { dbpath: text::strip_prefix(line, "dbpath "@)->0, ..record }
    } else if text::starts_with(line, "step "@) {
        match text::split_once(text::strip_prefix(line, "step "@)->0, ' ') {
            Some((_, rest)) => match intent_of(rest) {
                Some(intent) => RecordView { steps: record.steps.push(intent), ..record },
                None => record,
            },
            None => record,
        }
    } else if text::starts_with(line, "reason "@) {
        match text::split_once(text::strip_prefix(line, "reason "@)->0, ' ') {
            Some((index, word)) => match index_of(index) {
                Some(i) => RecordView {
                    steps: with_reason(record.steps, i, reason_of(word)),
                    ..record
                },
                None => record,
            },
            None => record,
        }
    } else if line == "begin"@ {
        RecordView { begun: true, ..record }
    } else if text::starts_with(line, "done "@) {
        match index_of(text::strip_prefix(line, "done "@)->0) {
            Some(i) => RecordView { completed: record.completed.push(i), ..record },
            None => record,
        }
    } else {
        record
    }
}

/// A record of which only the header was read.
pub open spec fn blank() -> RecordView {
    RecordView {
        root: Seq::empty(),
        dbpath: Seq::empty(),
        steps: Seq::empty(),
        begun: false,
        completed: Seq::empty(),
    }
}

/// What the lines after the header make of a record.
pub open spec fn run(record: RecordView, lines: Seq<Seq<char>>) -> RecordView
    decreases lines.len(),
{
    if lines.len() == 0 {
        record
    } else {
        applied(run(record, lines.drop_last()), lines.last())
    }
}

/// What the lines of a journal say.
pub open spec fn record_of_lines(lines: Seq<Seq<char>>) -> Result<RecordView, UnreadableView> {
    if lines.len() == 0 {
        Err(UnreadableView::NoHeader)
    } else {
        match text::strip_prefix(lines[0], "piko-journal "@) {
            None => Err(UnreadableView::NoHeader),
            Some(rest) => {
                let version = text::trim(rest);
                if version == "1"@ {
                    Ok(run(blank(), lines.skip(1)))
                } else {
                    Err(
                        UnreadableView::UnknownVersion(
                            if version.len() > MAX_VERSION_CHARS {
                                version.take(MAX_VERSION_CHARS as int)
                            } else {
                                version
                            },
                        ),
                    )
                }
            },
        }
    }
}

/// What a journal's text says.
pub open spec fn record_of(s: Seq<char>) -> Result<RecordView, UnreadableView> {
    record_of_lines(text::lines(s))
}

/// Reads an index.
fn parse_index(s: &[char]) -> (r: Option<usize>)
    ensures
        r == index_of(s@),
{
    match text::parse_unsigned(s, usize::MAX as u64) {
        Some(n) => Some(n as usize),
        None => None,
    }
}

/// Gives the install step `index` another reason.
fn set_reason(steps: &mut Vec<Intent>, index: usize, reason: Option<InstallReason>)
    ensures
        intent_views(final(steps)@) == with_reason(intent_views(old(steps)@), index, reason),
{
    let ghost was = intent_views(steps@);
    if index < steps.len() {
        let package = match &steps[index] {
            Intent::Install { package, .. } => Some(package.clone()),
            Intent::Remove { .. } => None,
        };
        if let Some(package) = package {
            steps.set(index, Intent::Install { package, reason });
            assert(intent_views(steps@) =~= with_reason(was, index, reason));
        }
    }
}

/// Applies one line after the header.
fn apply(record: &mut Record, line: &[char])
    ensures
        final(record)@ == applied(old(record)@, line@),
{
    broadcast use lemma_intents_push;

    let ghost was = record@;
    if let Some(value) = text::after_text(line, "root ") {
        record.root = text::text(value);
    } else if let Some(value) = text::after_text(line, "dbpath ") {
        record.dbpath = text::text(value);
    } else if let Some(value) = text::after_text(line, "step ") {
        if let Some((_, rest)) = text::cut_once(value, ' ') {
            if let Some(intent) = Intent::parse_chars(rest) {
                record.steps.push(intent);
            }
        }
    } else if let Some(value) = text::after_text(line, "reason ") {
        if let Some((index, word)) = text::cut_once(value, ' ') {
            if let Some(i) = parse_index(index) {
                set_reason(&mut record.steps, i, parse_reason(word));
            }
        }
    } else if text::spells(line, "begin") {
        record.begun = true;
    } else if let Some(value) = text::after_text(line, "done ") {
        if let Some(i) = parse_index(value) {
            record.completed.push(i);
        }
    }
    assert(record@ =~= applied(was, line@));
}

/// Parses a journal's text.
pub fn parse(s: &str) -> (r: Result<Record, Unreadable>)
    ensures
        match r {
            Ok(record) => record_of(s@) == Ok::<RecordView, UnreadableView>(record@),
            Err(reason) => record_of(s@) == Err::<RecordView, UnreadableView>(reason@),
        },
{
    let all = text::chars(s);
    let lines = text::split_lines(all.as_slice());
    let ghost views = text::pieces(lines@);
    if lines.len() == 0 {
        return Err(Unreadable::NoHeader);
    }
    assert(views[0] == lines@[0]@);
    let rest = match text::after_text(lines[0], "piko-journal ") {
        Some(rest) => rest,
        None => {
            return Err(Unreadable::NoHeader);
        },
    };
    let version = text::trimmed(rest);
    if !text::spells(version, "1") {
        if version.len() > MAX_VERSION_CHARS {
            let head = vstd::slice::slice_subrange(version, 0, MAX_VERSION_CHARS);
            assert(head@ =~= version@.take(MAX_VERSION_CHARS as int));
            return Err(Unreadable::UnknownVersion(text::text(head)));
        }
        return Err(Unreadable::UnknownVersion(text::text(version)));
    }
    let mut record = Record {
        root: String::new(),
        dbpath: String::new(),
        steps: Vec::new(),
        begun: false,
        completed: Vec::new(),
    };
    assert(record@ =~= blank());
    let ghost body = views.skip(1);
    let mut i: usize = 1;
    assert(body.take(0) =~= Seq::<Seq<char>>::empty());
    while i < lines.len()
        invariant
            1 <= i <= lines.len(),
            views == text::pieces(lines@),
            body == views.skip(1),
            record@ == run(blank(), body.take(i - 1)),
        decreases lines.len() - i,
    {
        proof {
            assert(body.take(i as int).drop_last() =~= body.take(i - 1));
            assert(body.take(i as int).last() == lines@[i as int]@);
        }
        apply(&mut record, lines[i]);
        i += 1;
    }
    assert(body.take(body.len() as int) =~= body);
    Ok(record)
}

/// What bytes say as a journal.
pub open spec fn record_in(bytes: Seq<u8>) -> Result<RecordView, UnreadableView> {
    match bytes::text_in(bytes) {
        Some(s) => record_of(s),
        None => Err(UnreadableView::NotText),
    }
}

/// Parses a journal file's bytes.
pub fn parse_bytes(bytes: Vec<u8>) -> (r: Result<Record, Unreadable>)
    ensures
        match r {
            Ok(record) => record_in(bytes@) == Ok::<RecordView, UnreadableView>(record@),
            Err(reason) => record_in(bytes@) == Err::<RecordView, UnreadableView>(reason@),
        },
{
    match bytes::text_of(bytes) {
        Some(s) => parse(s.as_str()),
        None => Err(Unreadable::NotText),
    }
}

/// What reading a file gave.
#[derive(Clone, Debug)]
pub enum FileRead {
    /// It is not there.
    Missing,
    /// The system refused, and why.
    Failed(String),
    /// Its contents.
    Contents(Vec<u8>),
}

/// Why a journal could not be read.
#[derive(Debug)]
pub enum ReadError {
    /// The system refused.
    Io(Error),
    /// The file is not a journal this build can read.
    JournalUnreadable {
        /// The file.
        path: String,
        /// Why not.
        reason: Unreadable,
    },
}

/// Reads the journal of a database, given what reading its file gave. `None` says that no
/// transaction was interrupted; a file that is not understood never says so.
pub fn read(dbpath: &str, file: FileRead) -> (r: Result<Option<Record>, ReadError>)
    ensures
        match file {
            FileRead::Missing => r matches Ok(None),
            FileRead::Failed(source) => r matches Err(
                ReadError::Io(Error::Io { path, action, source: why }),
            ) && path@ == paths::joined(dbpath@, JOURNAL_FILE@) && action == IoAction::Read && why
                == source,
            FileRead::Contents(bytes) => match record_in(bytes@) {
                Ok(record) => r matches Ok(Some(found)) && found@ == record,
                Err(reason) => r matches Err(ReadError::JournalUnreadable { path, reason: why })
                    && path@ == paths::joined(dbpath@, JOURNAL_FILE@) && why@ == reason,
            },
        },
{
    match file {
        FileRead::Missing => Ok(None),
        FileRead::Failed(source) => Err(
            ReadError::Io(Error::Io { path: path(dbpath), action: IoAction::Read, source }),
        ),
        FileRead::Contents(bytes) => match parse_bytes(bytes) {
            Ok(record) => Ok(Some(record)),
            Err(reason) => Err(ReadError::JournalUnreadable { path: path(dbpath), reason }),
        },
    }
}

// ---------------------------------------------------------------------------------------------
// What finishes an interrupted transaction

/// A package to install again, and why it was installed.
#[derive(Clone, Debug, Eq, PartialEq)]
pub struct Reinstall {
    /// The package's name.
    pub name: String,
    /// The install reason the transaction gave it. `None` when the journal does not record it.
    pub reason: Option<InstallReason>,
}

/// What a [`Reinstall`] says.
pub struct ReinstallView {
    /// The package's name.
    pub name: Seq<char>,
    /// Why it was installed.
    pub reason: Option<InstallReason>,
}

impl View for Reinstall {
    type V = ReinstallView;

    open spec fn view(&self) -> ReinstallView {
        ReinstallView { name: self.name@, reason: self.reason }
    }
}

/// The views of a list of packages to install again.
pub open spec fn reinstall_views(list: Seq<Reinstall>) -> Seq<ReinstallView> {
    Seq::new(list.len(), |i: int| list[i]@)
}

/// What finishes an interrupted transaction.
///
/// These are the steps still to do, by package name. The order to run them in is
/// [`Recovery::interrupted`], then [`Recovery::remove`], then [`Recovery::install`].
#[derive(Clone, Debug, Eq, PartialEq)]
pub struct Recovery {
    /// The package whose install step the interruption cut, if it cut one.
    pub interrupted: Option<Reinstall>,
    /// Packages still to remove.
    pub remove: Vec<String>,
    /// Packages still to install. None of them was started.
    pub install: Vec<Reinstall>,
    /// Steps whose package name cannot be read from the journal. They are reported, not dropped.
    pub unreadable: Vec<String>,
}

/// What a [`Recovery`] says.
#[verifier::ext_equal]
pub struct RecoveryView {
    /// The package whose install step was cut.
    pub interrupted: Option<ReinstallView>,
    /// Packages still to remove.
    pub remove: Seq<Seq<char>>,
    /// Packages still to install.
    pub install: Seq<ReinstallView>,
    /// Steps that cannot be read.
    pub unreadable: Seq<Seq<char>>,
}

impl View for Recovery {
    type V = RecoveryView;

    open spec fn view(&self) -> RecoveryView {
        RecoveryView {
            interrupted: match self.interrupted {
                Some(target) => Some(target@),
                None => None,
            },
            remove: text::texts(self.remove@),
            install: reinstall_views(self.install@),
            unreadable: text::texts(self.unreadable@),
        }
    }
}

impl RecoveryView {
    /// Nothing to do.
    pub open spec fn nothing() -> Self {
        RecoveryView {
            interrupted: None,
            remove: Seq::empty(),
            install: Seq::empty(),
            unreadable: Seq::empty(),
        }
    }

    /// Whether nothing is left to do but remove the journal.
    pub open spec fn is_empty(self) -> bool {
        &&& self.interrupted is None
        &&& self.remove.len() == 0
        &&& self.install.len() == 0
        &&& self.unreadable.len() == 0
    }

    /// One removal step more. `name` is the package's, where the step can be read.
    pub open spec fn with_removal(
        self,
        entry: Seq<char>,
        name: Option<Seq<char>>,
        recorded: bool,
    ) -> Self {
        match name {
            None => RecoveryView { unreadable: self.unreadable.push(entry), ..self },
            Some(name) => if recorded {
                RecoveryView { remove: self.remove.push(name), ..self }
            } else {
                self
            },
        }
    }

    /// One install step more. `name` is the package's, where the step can be read.
    pub open spec fn with_install(
        self,
        package: Seq<char>,
        name: Option<Seq<char>>,
        reason: Option<InstallReason>,
        cut: bool,
    ) -> Self {
        match name {
            None => RecoveryView { unreadable: self.unreadable.push(package), ..self },
            Some(name) => if cut {
                RecoveryView { interrupted: Some(ReinstallView { name, reason }), ..self }
            } else {
                RecoveryView { install: self.install.push(ReinstallView { name, reason }), ..self }
            },
        }
    }
}

impl Recovery {
    /// Whether nothing is left to do but remove the journal.
    pub fn is_empty(&self) -> (r: bool)
        ensures
            r == self@.is_empty(),
    {
        self.interrupted.is_none() && self.remove.len() == 0 && self.install.len() == 0
            && self.unreadable.len() == 0
    }

    /// Adds a removal step.
    ///
    /// `name` is the package's, where the entry's name can be read. A removal whose entry is no
    /// longer recorded is complete.
    pub fn add_removal(&mut self, entry: &str, name: Option<String>, recorded: bool)
        ensures
            final(self)@ == old(self)@.with_removal(entry@, text::maybe(name), recorded),
    {
        let ghost was = self@;
        let ghost view = text::maybe(name);
        match name {
            None => {
                self.unreadable.push(entry.to_owned());
            },
            Some(name) => {
                if recorded {
                    self.remove.push(name);
                }
            },
        }
        assert(self@ =~= was.with_removal(entry@, view, recorded));
    }

    /// Adds an install step.
    ///
    /// `name` is the package's, where the file's name can be read. `cut` says that the
    /// interruption can have stopped this very step.
    pub fn add_install(
        &mut self,
        package: &str,
        name: Option<String>,
        reason: Option<InstallReason>,
        cut: bool,
    )
        ensures
            final(self)@ == old(self)@.with_install(package@, text::maybe(name), reason, cut),
    {
        let ghost was = self@;
        let ghost view = text::maybe(name);
        match name {
            None => {
                self.unreadable.push(package.to_owned());
            },
            Some(name) => {
                let target = Reinstall { name, reason };
                if cut {
                    self.interrupted = Some(target);
                } else {
                    let ghost list = self.install@;
                    self.install.push(target);
                    assert(reinstall_views(self.install@) =~= reinstall_views(list).push(target@));
                }
            },
        }
        assert(self@ =~= was.with_install(package@, view, reason, cut));
    }
}

impl Default for Recovery {
    /// Nothing to do.
    fn default() -> (r: Self)
        ensures
            r@ == RecoveryView::nothing(),
    {
        let r = Recovery {
            interrupted: None,
            remove: Vec::new(),
            install: Vec::new(),
            unreadable: Vec::new(),
        };
        assert(r@ =~= RecoveryView::nothing());
        r
    }
}

/// The views of a list of entries.
pub open spec fn entry_views(list: Seq<EntryName>) -> Seq<EntryNameView> {
    Seq::new(list.len(), |i: int| list[i]@)
}

/// Whether the local database records an entry: the package of its name is there, at its version.
pub open spec fn recorded(local: Seq<EntryNameView>, name: Seq<char>, entry: Seq<char>) -> bool
    decreases local.len(),
{
    if local.len() == 0 {
        false
    } else if local[0].name == name {
        local[0].directory() == entry
    } else {
        recorded(local.skip(1), name, entry)
    }
}

/// Whether the local database records an entry.
fn is_recorded(local: &Vec<EntryName>, name: &str, entry: &str) -> (r: bool)
    ensures
        r == recorded(entry_views(local@), name@, entry@),
{
    let ghost views = entry_views(local@);
    let mut i: usize = 0;
    assert(views.skip(0) =~= views);
    while i < local.len()
        invariant
            i <= local.len(),
            views == entry_views(local@),
            recorded(views, name@, entry@) == recorded(views.skip(i as int), name@, entry@),
        decreases local.len() - i,
    {
        proof {
            assert(views.skip(i as int)[0] == local@[i as int]@);
            assert(views.skip(i as int).skip(1) =~= views.skip(i + 1));
        }
        if text::same(local[i].name.as_str(), name) {
            return text::same(local[i].directory().as_str(), entry);
        }
        i += 1;
    }
    false
}

impl RecordView {
    /// Whether step `i` is still to do.
    pub open spec fn is_outstanding(self, i: int) -> bool {
        !self.completed.contains(i as usize)
    }

    /// The first step from `i` on that is still to do, or the number of steps.
    pub open spec fn first_outstanding(self, i: int) -> int
        decreases self.steps.len() - i,
    {
        if i >= self.steps.len() || self.is_outstanding(i) {
            i
        } else {
            self.first_outstanding(i + 1)
        }
    }

    /// The steps of the first `n` that did not complete.
    pub open spec fn outstanding(self, n: int) -> Seq<IntentView>
        decreases n,
    {
        if n <= 0 {
            Seq::empty()
        } else if self.is_outstanding(n - 1) {
            self.outstanding(n - 1).push(self.steps[n - 1])
        } else {
            self.outstanding(n - 1)
        }
    }

    /// What finishes the first `n` steps.
    pub open spec fn recovery(self, local: Seq<EntryNameView>, n: int) -> RecoveryView
        decreases n,
    {
        if n <= 0 {
            RecoveryView::nothing()
        } else {
            let before = self.recovery(local, n - 1);
            if !self.is_outstanding(n - 1) {
                before
            } else {
                match self.steps[n - 1] {
                    IntentView::Remove { entry } => match package::entry_of(entry) {
                        Some(parsed) => before.with_removal(
                            entry,
                            Some(parsed.name),
                            recorded(local, parsed.name, entry),
                        ),
                        None => before.with_removal(entry, None, false),
                    },
                    IntentView::Install { package, reason } => before.with_install(
                        package,
                        match package::file_name_of(package) {
                            Some(file) => Some(file.name),
                            None => None,
                        },
                        reason,
                        n - 1 == self.first_outstanding(0),
                    ),
                }
            }
        }
    }
}

/// The views of a list of borrowed intents.
pub open spec fn borrowed_views(list: Seq<&Intent>) -> Seq<IntentView> {
    Seq::new(list.len(), |i: int| list[i]@)
}

impl Record {
    /// Whether step `index` completed.
    fn is_completed(&self, index: usize) -> (r: bool)
        ensures
            r == !self@.is_outstanding(index as int),
    {
        let mut i: usize = 0;
        while i < self.completed.len()
            invariant
                i <= self.completed.len(),
                forall|k: int| 0 <= k < i ==> self.completed@[k] != index,
            decreases self.completed.len() - i,
        {
            if self.completed[i] == index {
                assert(self.completed@.contains(index));
                return true;
            }
            i += 1;
        }
        false
    }

    /// The steps that did not complete.
    pub fn outstanding(&self) -> (r: Vec<&Intent>)
        ensures
            borrowed_views(r@) == self@.outstanding(self@.steps.len() as int),
    {
        let mut out: Vec<&Intent> = Vec::new();
        let mut i: usize = 0;
        assert(borrowed_views(out@) =~= Seq::<IntentView>::empty());
        while i < self.steps.len()
            invariant
                i <= self.steps.len(),
                borrowed_views(out@) == self@.outstanding(i as int),
            decreases self.steps.len() - i,
        {
            if !self.is_completed(i) {
                let ghost was = out@;
                out.push(&self.steps[i]);
                assert(borrowed_views(out@) =~= borrowed_views(was).push(self.steps@[i as int]@));
            }
            i += 1;
        }
        out
    }

    /// The first step that is still to do, or the number of steps.
    fn first_outstanding(&self) -> (r: usize)
        ensures
            r == self@.first_outstanding(0),
    {
        let mut i: usize = 0;
        while i < self.steps.len() && self.is_completed(i)
            invariant
                i <= self.steps.len(),
                self@.first_outstanding(0) == self@.first_outstanding(i as int),
            decreases self.steps.len() - i,
        {
            i += 1;
        }
        i
    }

    /// Works out what finishes the transaction.
    ///
    /// `local` is what the local database records now. A removal is still to do only if its entry
    /// is still recorded, at the same version. An install is always still to do: a step that wrote
    /// its entry and stopped before its `done` line looks complete in the database and is not.
    pub fn recovery(&self, local: &Vec<EntryName>) -> (r: Recovery)
        ensures
            r@ == self@.recovery(entry_views(local@), self@.steps.len() as int),
    {
        let first = self.first_outstanding();
        let ghost entries = entry_views(local@);
        let mut recovery = Recovery::default();
        let mut i: usize = 0;
        while i < self.steps.len()
            invariant
                i <= self.steps.len(),
                entries == entry_views(local@),
                first == self@.first_outstanding(0),
                recovery@ == self@.recovery(entries, i as int),
            decreases self.steps.len() - i,
        {
            if !self.is_completed(i) {
                assert(self@.steps[i as int] == self.steps@[i as int]@);
                match &self.steps[i] {
                    Intent::Remove { entry } => match EntryName::parse(entry.as_str()) {
                        Some(parsed) => {
                            let there = is_recorded(local, parsed.name.as_str(), entry.as_str());
                            recovery.add_removal(entry.as_str(), Some(parsed.name), there);
                        },
                        None => {
                            recovery.add_removal(entry.as_str(), None, false);
                        },
                    },
                    Intent::Install { package, reason } => {
                        let name = match package::parse_file_name(package.as_str()) {
                            Some(file) => Some(file.name),
                            None => None,
                        };
                        recovery.add_install(package.as_str(), name, *reason, i == first);
                    },
                }
            }
            i += 1;
        }
        recovery
    }
}

/// A transaction all of whose steps completed needs no recovery.
pub proof fn a_completed_transaction_needs_no_recovery(
    record: RecordView,
    local: Seq<EntryNameView>,
    n: int,
)
    requires
        0 <= n <= record.steps.len(),
        forall|i: int| 0 <= i < record.steps.len() ==> !#[trigger] record.is_outstanding(i),
    ensures
        record.recovery(local, n).is_empty(),
        record.outstanding(n).len() == 0,
    decreases n,
{
    if n > 0 {
        a_completed_transaction_needs_no_recovery(record, local, n - 1);
        assert(!record.is_outstanding(n - 1));
    }
}

/// How many steps a recovery accounts for.
pub open spec fn accounted(recovery: RecoveryView) -> int {
    recovery.remove.len() + recovery.install.len() + recovery.unreadable.len() + if recovery.interrupted is Some {
        1int
    } else {
        0int
    }
}

/// How many of the first `n` steps are installs that did not complete.
pub open spec fn outstanding_installs(record: RecordView, n: int) -> int
    decreases n,
{
    if n <= 0 {
        0
    } else {
        outstanding_installs(record, n - 1) + if record.is_outstanding(n - 1)
            && record.steps[n - 1] is Install {
            1int
        } else {
            0int
        }
    }
}

/// No install step that did not complete is dropped: each is to be done again or is reported.
pub proof fn no_outstanding_install_is_dropped(
    record: RecordView,
    local: Seq<EntryNameView>,
    n: int,
)
    requires
        0 <= n <= record.steps.len(),
    ensures
        accounted(record.recovery(local, n)) >= outstanding_installs(record, n),
        record.recovery(local, n).interrupted is Some ==> record.first_outstanding(0) < n,
    decreases n,
{
    if n > 0 {
        no_outstanding_install_is_dropped(record, local, n - 1);
    }
}

// ---------------------------------------------------------------------------------------------
// What is written reads back

/// A rendered intent reads back, without its reason.
pub proof fn an_intent_reads_back(intent: IntentView)
    ensures
        intent_of(intent.render()) == Some(intent.bare()),
{
    reveal_strlit("install ");
    reveal_strlit("install");
    reveal_strlit("remove ");
    reveal_strlit("remove");
    match intent {
        IntentView::Install { package, .. } => {
            assert("install "@ + package =~= "install"@.push(' ') + package);
            text::lemma_split_head("install"@, ' ', package);
        },
        IntentView::Remove { entry } => {
            assert("remove "@ + entry =~= "remove"@.push(' ') + entry);
            text::lemma_split_head("remove"@, ' ', entry);
            assert("remove"@.len() != "install"@.len());
        },
    }
}

proof fn lemma_run_add(record: RecordView, a: Seq<Seq<char>>, b: Seq<Seq<char>>)
    ensures
        run(record, a + b) == run(run(record, a), b),
    decreases b.len(),
{
    if b.len() == 0 {
        assert(a + b =~= a);
    } else {
        assert((a + b).drop_last() =~= a + b.drop_last());
        lemma_run_add(record, a, b.drop_last());
    }
}

proof fn lemma_run_one(record: RecordView, line: Seq<char>)
    ensures
        run(record, seq![line]) == applied(record, line),
{
    assert(seq![line].drop_last() =~= Seq::<Seq<char>>::empty());
    assert(run(record, Seq::<Seq<char>>::empty()) == record);
}

/// What the prefixes of the lines hold.
proof fn lemma_prefixes()
    ensures
        "root "@.len() == 5 && "root "@[0] == 'r' && "root "@[1] == 'o',
        "dbpath "@.len() == 7 && "dbpath "@[0] == 'd' && "dbpath "@[1] == 'b',
        "step "@.len() == 5 && "step "@[0] == 's',
        "reason "@.len() == 7 && "reason "@[0] == 'r' && "reason "@[1] == 'e',
        "begin"@.len() == 5 && "begin"@[0] == 'b',
        "done "@.len() == 5 && "done "@[0] == 'd' && "done "@[1] == 'o',
        text::one_liner("root "@),
        text::one_liner("dbpath "@),
        text::one_liner("step "@),
        text::one_liner("reason "@),
        text::one_liner("begin"@),
        text::one_liner("done "@),
{
    reveal_strlit("root ");
    reveal_strlit("dbpath ");
    reveal_strlit("step ");
    reveal_strlit("reason ");
    reveal_strlit("begin");
    reveal_strlit("done ");
}

/// A line starts with its own prefix.
proof fn lemma_prefixed(prefix: Seq<char>, value: Seq<char>)
    ensures
        text::starts_with(prefix + value, prefix),
        text::strip_prefix(prefix + value, prefix) == Some(value),
        prefix.len() >= 2 ==> (prefix + value)[0] == prefix[0] && (prefix + value)[1] == prefix[1],
{
    assert((prefix + value).take(prefix.len() as int) =~= prefix);
    assert((prefix + value).skip(prefix.len() as int) =~= value);
}

/// A line that differs in one of the first two characters does not start with a prefix.
proof fn lemma_not_prefixed(line: Seq<char>, prefix: Seq<char>)
    requires
        prefix.len() >= 2,
        line.len() >= 2,
        line[0] != prefix[0] || line[1] != prefix[1],
    ensures
        !text::starts_with(line, prefix),
{
    if text::starts_with(line, prefix) {
        assert(line.take(prefix.len() as int)[0] == prefix[0]);
        assert(line.take(prefix.len() as int)[1] == prefix[1]);
    }
}

/// A path's line sets the path.
proof fn lemma_paths_read_back(record: RecordView, root: Seq<char>, dbpath: Seq<char>)
    ensures
        applied(record, "root "@ + root) == (RecordView { root, ..record }),
        applied(record, "dbpath "@ + dbpath) == (RecordView { dbpath, ..record }),
{
    lemma_prefixes();
    lemma_prefixed("root "@, root);
    lemma_prefixed("dbpath "@, dbpath);
    lemma_not_prefixed("dbpath "@ + dbpath, "root "@);
}

/// `begin` says that the transaction had begun.
proof fn lemma_begin_reads_back(record: RecordView)
    ensures
        applied(record, "begin"@) == (RecordView { begun: true, ..record }),
{
    lemma_prefixes();
    lemma_not_prefixed("begin"@, "root "@);
    lemma_not_prefixed("begin"@, "dbpath "@);
    lemma_not_prefixed("begin"@, "step "@);
    lemma_not_prefixed("begin"@, "reason "@);
}

/// A number's digits hold no space.
proof fn lemma_index(index: int)
    requires
        0 <= index <= usize::MAX,
    ensures
        !text::dec(index as nat).contains(' '),
        index_of(text::dec(index as nat)) == Some(index as usize),
        text::one_liner(text::dec(index as nat)),
{
    text::lemma_dec(index as nat);
    text::lemma_digits_lack(text::dec(index as nat), ' ');
    text::lemma_digits_lack(text::dec(index as nat), '\n');
    text::lemma_digits_lack(text::dec(index as nat), '\r');
    text::lemma_unsigned_of_dec(index as nat);
}

/// A `done` line adds its index.
proof fn lemma_done_reads_back(record: RecordView, index: usize)
    ensures
        applied(record, "done "@ + text::dec(index as nat)) == (RecordView {
            completed: record.completed.push(index),
            ..record
        }),
        text::one_liner("done "@ + text::dec(index as nat)),
{
    let line = "done "@ + text::dec(index as nat);
    lemma_prefixes();
    lemma_index(index as int);
    lemma_prefixed("done "@, text::dec(index as nat));
    lemma_not_prefixed(line, "root "@);
    lemma_not_prefixed(line, "dbpath "@);
    lemma_not_prefixed(line, "step "@);
    lemma_not_prefixed(line, "reason "@);
    assert(line != "begin"@);
    text::lemma_one_liner_add("done "@, text::dec(index as nat));
}

/// A `step` line adds its intent.
proof fn lemma_step_line(record: RecordView, digits: Seq<char>, step: IntentView)
    requires
        !digits.contains(' '),
    ensures
        applied(record, "step "@ + digits + " "@ + step.render()) == (RecordView {
            steps: record.steps.push(step.bare()),
            ..record
        }),
{
    reveal_strlit(" ");
    lemma_prefixes();
    an_intent_reads_back(step);
    let value = digits.push(' ') + step.render();
    let line = "step "@ + digits + " "@ + step.render();
    assert(line =~= "step "@ + value);
    lemma_prefixed("step "@, value);
    lemma_not_prefixed(line, "root "@);
    lemma_not_prefixed(line, "dbpath "@);
    text::lemma_split_head(digits, ' ', step.render());
}

/// A `reason` line gives its step the reason.
proof fn lemma_reason_line(record: RecordView, digits: Seq<char>, reason: InstallReason)
    requires
        !digits.contains(' '),
        index_of(digits) is Some,
    ensures
        applied(record, "reason "@ + digits + " "@ + reason_text(reason)) == (RecordView {
            steps: with_reason(record.steps, index_of(digits)->0, Some(reason)),
            ..record
        }),
{
    reveal_strlit(" ");
    lemma_prefixes();
    let word = reason_text(reason);
    let value = digits.push(' ') + word;
    let line = "reason "@ + digits + " "@ + word;
    assert(line =~= "reason "@ + value);
    lemma_prefixed("reason "@, value);
    lemma_not_prefixed(line, "root "@);
    lemma_not_prefixed(line, "dbpath "@);
    lemma_not_prefixed(line, "step "@);
    text::lemma_split_head(digits, ' ', word);
    assert(reason_of(word) == Some(reason)) by {
        reveal_strlit("explicit");
        reveal_strlit("depend");
        assert("explicit"@.len() != "depend"@.len());
    }
}

/// The lines of one step read back.
proof fn lemma_step_reads_back(record: RecordView, index: int, step: IntentView)
    requires
        index == record.steps.len(),
        index <= usize::MAX,
    ensures
        run(record, step_lines(index, step)) == (RecordView {
            steps: record.steps.push(step),
            ..record
        }),
{
    lemma_index(index);
    let digits = text::dec(index as nat);
    let line = "step "@ + digits + " "@ + step.render();
    let middle = RecordView { steps: record.steps.push(step.bare()), ..record };
    lemma_step_line(record, digits, step);
    lemma_run_one(record, line);
    match step {
        IntentView::Install { package, reason: Some(reason) } => {
            let second = "reason "@ + digits + " "@ + reason_text(reason);
            assert(step_lines(index, step) =~= seq![line] + seq![second]);
            lemma_run_add(record, seq![line], seq![second]);
            lemma_run_one(middle, second);
            lemma_reason_line(middle, digits, reason);
            assert(with_reason(middle.steps, index as usize, Some(reason)) =~= record.steps.push(
                step,
            ));
        },
        _ => {},
    }
}

/// The lines of the first `n` steps read back.
proof fn lemma_steps_read_back(record: RecordView, steps: Seq<IntentView>, n: int)
    requires
        record.steps.len() == 0,
        0 <= n <= steps.len(),
        steps.len() <= usize::MAX,
    ensures
        run(record, steps_lines(steps, n)) == (RecordView { steps: steps.take(n), ..record }),
    decreases n,
{
    if n == 0 {
        assert(steps.take(0) =~= record.steps);
    } else {
        lemma_steps_read_back(record, steps, n - 1);
        let before = RecordView { steps: steps.take(n - 1), ..record };
        lemma_run_add(record, steps_lines(steps, n - 1), step_lines(n - 1, steps[n - 1]));
        lemma_step_reads_back(before, n - 1, steps[n - 1]);
        assert(steps.take(n) =~= steps.take(n - 1).push(steps[n - 1]));
    }
}

/// Every value of the list is one line.
spec fn flat_list(list: Seq<Seq<char>>) -> bool {
    forall|i: int| 0 <= i < list.len() ==> text::one_liner(#[trigger] list[i])
}

proof fn lemma_flat_list_add(a: Seq<Seq<char>>, b: Seq<Seq<char>>)
    requires
        flat_list(a),
        flat_list(b),
    ensures
        flat_list(a + b),
{
    assert forall|i: int| 0 <= i < (a + b).len() implies text::one_liner(#[trigger] (a + b)[i]) by {
        if i < a.len() {
            assert((a + b)[i] == a[i]);
        } else {
            assert((a + b)[i] == b[i - a.len()]);
        }
    }
}

/// The lines of a step are each one line.
proof fn lemma_step_lines_flat(index: int, step: IntentView)
    requires
        0 <= index <= usize::MAX,
        text::one_liner(step.subject()),
    ensures
        flat_list(step_lines(index, step)),
{
    reveal_strlit(" ");
    reveal_strlit("install ");
    reveal_strlit("remove ");
    reveal_strlit("explicit");
    reveal_strlit("depend");
    lemma_prefixes();
    lemma_index(index);
    let digits = text::dec(index as nat);
    match step {
        IntentView::Install { package, .. } => {
            text::lemma_one_liner_add("install "@, package);
        },
        IntentView::Remove { entry } => {
            text::lemma_one_liner_add("remove "@, entry);
        },
    }
    text::lemma_one_liner_add("step "@, digits);
    text::lemma_one_liner_add("step "@ + digits, " "@);
    text::lemma_one_liner_add("step "@ + digits + " "@, step.render());
    if let IntentView::Install { reason: Some(reason), .. } = step {
        text::lemma_one_liner_add("reason "@, digits);
        text::lemma_one_liner_add("reason "@ + digits, " "@);
        text::lemma_one_liner_add("reason "@ + digits + " "@, reason_text(reason));
    }
}

proof fn lemma_steps_lines_flat(steps: Seq<IntentView>, n: int)
    requires
        0 <= n <= steps.len(),
        steps.len() <= usize::MAX,
        forall|i: int|
            0 <= i < steps.len() ==> text::one_liner((#[trigger] steps[i]).subject()),
    ensures
        flat_list(steps_lines(steps, n)),
    decreases n,
{
    if n > 0 {
        lemma_steps_lines_flat(steps, n - 1);
        assert(text::one_liner(steps[n - 1].subject()));
        lemma_step_lines_flat(n - 1, steps[n - 1]);
        lemma_flat_list_add(steps_lines(steps, n - 1), step_lines(n - 1, steps[n - 1]));
    }
}

/// A journal written before the first change reads back whole: the paths, every step with its
/// reason, and that the transaction had begun.
pub proof fn a_begun_journal_reads_back(
    root: Seq<char>,
    dbpath: Seq<char>,
    steps: Seq<IntentView>,
)
    requires
        text::one_liner(root),
        text::one_liner(dbpath),
        steps.len() <= usize::MAX,
        forall|i: int|
            0 <= i < steps.len() ==> text::one_liner((#[trigger] steps[i]).subject()),
    ensures
        record_of(text::unlines(journal_lines(root, dbpath, steps))) == Ok::<
            RecordView,
            UnreadableView,
        >(RecordView { root, dbpath, steps, begun: true, completed: Seq::empty() }),
        text::ends_line(text::unlines(journal_lines(root, dbpath, steps))),
{
    let n = steps.len() as int;
    let lines = journal_lines(root, dbpath, steps);
    let header = "piko-journal 1"@;
    reveal_strlit("piko-journal 1");
    reveal_strlit("piko-journal ");
    reveal_strlit("1");
    lemma_prefixes();
    text::lemma_one_liner_add("root "@, root);
    text::lemma_one_liner_add("dbpath "@, dbpath);
    lemma_steps_lines_flat(steps, n);
    let head = seq![header, "root "@ + root, "dbpath "@ + dbpath];
    lemma_flat_list_add(head, steps_lines(steps, n));
    lemma_flat_list_add(head + steps_lines(steps, n), seq!["begin"@]);
    text::lemma_lines_of_unlines(lines);
    assert(header =~= "piko-journal "@ + "1"@);
    lemma_prefixed("piko-journal "@, "1"@);
    text::lemma_trim_bare("1"@);
    let paths = seq!["root "@ + root] + seq!["dbpath "@ + dbpath];
    let body = paths + steps_lines(steps, n) + seq!["begin"@];
    assert(lines[0] == header);
    assert(lines.skip(1) =~= body);
    let r1 = RecordView { root, ..blank() };
    let r2 = RecordView { dbpath, ..r1 };
    let r3 = RecordView { steps, ..r2 };
    lemma_run_add(blank(), paths + steps_lines(steps, n), seq!["begin"@]);
    lemma_run_add(blank(), paths, steps_lines(steps, n));
    lemma_run_add(blank(), seq!["root "@ + root], seq!["dbpath "@ + dbpath]);
    lemma_run_one(blank(), "root "@ + root);
    lemma_paths_read_back(blank(), root, dbpath);
    lemma_run_one(r1, "dbpath "@ + dbpath);
    lemma_paths_read_back(r1, root, dbpath);
    lemma_steps_read_back(r2, steps, n);
    assert(steps.take(n) =~= steps);
    lemma_run_one(r3, "begin"@);
    lemma_begin_reads_back(r3);
}

/// A `done` line that is appended adds its step to the ones that completed and changes nothing
/// else.
pub proof fn an_appended_step_is_recorded(journal: Seq<char>, index: usize)
    requires
        text::ends_line(journal),
        record_of(journal) is Ok,
    ensures
        record_of(journal + done_text(index)) == Ok::<RecordView, UnreadableView>(
            RecordView {
                completed: record_of(journal)->Ok_0.completed.push(index),
                ..record_of(journal)->Ok_0
            },
        ),
        text::ends_line(journal + done_text(index)),
{
    let line = "done "@ + text::dec(index as nat);
    let before = text::lines(journal);
    let record = record_of(journal)->Ok_0;
    lemma_done_reads_back(record, index);
    text::lemma_lines_add(journal, done_text(index));
    let list = seq![line];
    assert(list.drop_last() =~= Seq::<Seq<char>>::empty());
    assert(text::unlines(list.drop_last()) =~= Seq::<char>::empty());
    assert(text::unlines(list) =~= done_text(index));
    text::lemma_lines_of_unlines(list);
    assert((before + list)[0] == before[0]);
    assert((before + list).skip(1) =~= before.skip(1) + list);
    lemma_run_add(blank(), before.skip(1), list);
    lemma_run_one(record, line);
    assert((journal + done_text(index)).last() == '\n');
}

} // verus!
