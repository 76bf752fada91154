//! `piko-history`: one self-delimiting block per transaction.
//!
//! A block is a run of lines. The first says `txn`, the format version, the transaction's id and
//! when it started; each of the others starts with a keyword; the last says `end` and how the
//! transaction ended. There is no file header, so a block of a version this build does not know
//! is skipped without making the rest of the file unreadable, and a block cut short does not take
//! its neighbour with it.
//!
//! No value can forge a line: what may hold a line break is flattened before it is written.

use vstd::prelude::*;
use vstd::utf8::{encode_utf8, encode_utf8_decode_utf8, encode_utf8_valid_utf8};

use crate::bytes;
use crate::bytes::text_in;
use crate::history;
use crate::history::pacman_log;
use crate::history::pacman_log::dated;
use crate::history::time_fmt;
use crate::history::time_fmt::LocalOffset;
use crate::history::{Action, ActionView, Entry, EntryView, Outcome, OutcomeView};
use crate::paths;
use crate::text;

verus! {

broadcast use {
    crate::text::group_lists,
    crate::history::lemma_actions_push,
    crate::history::lemma_entries_push,
};

/// The history's file name, inside the database path.
pub const HISTORY_FILE: &'static str = "piko-history";

/// How much of the file's tail a reader takes in by default.
pub const DEFAULT_TAIL_BYTES: u64 = 8_388_608;

/// The path of the history file inside `dbpath`.
pub open spec fn history_path(dbpath: Seq<char>) -> Seq<char> {
    paths::joined(dbpath, HISTORY_FILE@)
}

/// The history file inside `dbpath`.
pub fn path(dbpath: &str) -> (r: String)
    ensures
        r@ == history_path(dbpath@),
{
    paths::join(dbpath, HISTORY_FILE)
}

// ---------------------------------------------------------------------------------------------
// Writing

/// `prefix` before the flattened form of each value.
pub open spec fn keyed(prefix: Seq<char>, values: Seq<Seq<char>>) -> Seq<Seq<char>> {
    values.map_values(|v: Seq<char>| prefix + text::flat(v))
}

/// When a block says its transaction ended.
pub open spec fn end_time(entry: EntryView) -> i64 {
    match entry.finished {
        Some(at) => at,
        None => entry.started,
    }
}

/// The line that ends a block.
pub open spec fn end_line(entry: EntryView, offset: int) -> Seq<char> {
    let stamp = time_fmt::stamp(end_time(entry) as int, offset);
    let head = "end "@ + entry.outcome.word() + " "@ + stamp;
    match entry.outcome {
        OutcomeView::Failed { reason } => head + " "@ + text::flat(reason),
        _ => head,
    }
}

/// The line that starts a block.
pub open spec fn header_line(entry: EntryView, offset: int) -> Seq<char> {
    "txn 1 "@ + text::flat(entry.id) + " "@ + time_fmt::stamp(entry.started as int, offset)
}

/// The lines between the first and the last.
pub open spec fn body_lines(entry: EntryView) -> Seq<Seq<char>> {
    seq!["root "@ + text::flat(entry.root), "dbpath "@ + text::flat(entry.dbpath)] + (match entry.command {
        Some(command) => seq!["command "@ + text::flat(command)],
        None => Seq::empty(),
    }) + action_lines(entry.actions) + keyed("pacnew "@, entry.pacnew) + keyed(
        "pacsave "@,
        entry.pacsave,
    ) + keyed("hook "@, entry.hooks)
}

/// A line for each action.
pub open spec fn action_lines(actions: Seq<ActionView>) -> Seq<Seq<char>> {
    actions.map_values(|a: ActionView| text::flat(a.store_line()))
}

/// The lines of a transaction's block.
pub open spec fn block_lines(entry: EntryView, offset: int) -> Seq<Seq<char>> {
    seq![header_line(entry, offset)] + body_lines(entry) + seq![end_line(entry, offset)]
}

/// A transaction's block.
pub open spec fn block(entry: EntryView, offset: int) -> Seq<char> {
    text::unlines(block_lines(entry, offset))
}

/// Appends one line.
fn push_line(out: &mut String, prefix: &str, value: &str, Ghost(list): Ghost<Seq<Seq<char>>>)
    requires
        old(out)@ == text::unlines(list),
    ensures
        final(out)@ == text::unlines(list.push(prefix@ + value@)),
{
    out.push_str(prefix);
    out.push_str(value);
    out.push('\n');
    proof {
        text::lemma_unlines_push(list, prefix@ + value@);
        assert(out@ =~= text::unlines(list) + (prefix@ + value@).push('\n'));
    }
}

/// Appends a line for each value, flattened.
fn push_keyed(
    out: &mut String,
    prefix: &str,
    values: &Vec<String>,
    Ghost(list): Ghost<Seq<Seq<char>>>,
)
    requires
        old(out)@ == text::unlines(list),
    ensures
        final(out)@ == text::unlines(list + keyed(prefix@, text::texts(values@))),
{
    let ghost views = text::texts(values@);
    let mut i: usize = 0;
    assert(list + keyed(prefix@, views.take(0)) =~= list);
    while i < values.len()
        invariant
            i <= values.len(),
            views == text::texts(values@),
            out@ == text::unlines(list + keyed(prefix@, views.take(i as int))),
        decreases values.len() - i,
    {
        let flat = text::flattened(values[i].as_str());
        push_line(out, prefix, flat.as_str(), Ghost(list + keyed(prefix@, views.take(i as int))));
        proof {
            assert(views[i as int] == values@[i as int]@);
            assert(list + keyed(prefix@, views.take(i + 1)) =~= (list + keyed(
                prefix@,
                views.take(i as int),
            )).push(prefix@ + text::flat(views[i as int])));
        }
        i += 1;
    }
    assert(views.take(views.len() as int) =~= views);
}

/// Renders one block.
pub fn render(entry: &Entry, offset: LocalOffset) -> (r: String)
    ensures
        r@ == block(entry@, offset@),
{
    let ghost e = entry@;
    let mut out = String::new();
    let ghost mut list: Seq<Seq<char>> = Seq::empty();
    let mut header = text::flattened(entry.id.as_str());
    header.push_str(" ");
    header.push_str(time_fmt::render(entry.started, offset).as_str());
    push_line(&mut out, "txn 1 ", header.as_str(), Ghost(list));
    proof {
        list = list.push("txn 1 "@ + header@);
        assert("txn 1 "@ + header@ =~= header_line(e, offset@));
    }
    let root = text::flattened(entry.root.as_str());
    push_line(&mut out, "root ", root.as_str(), Ghost(list));
    proof {
        list = list.push("root "@ + root@);
    }
    let dbpath = text::flattened(entry.dbpath.as_str());
    push_line(&mut out, "dbpath ", dbpath.as_str(), Ghost(list));
    proof {
        list = list.push("dbpath "@ + dbpath@);
    }
    let ghost commands: Seq<Seq<char>> = match e.command {
        Some(command) => seq!["command "@ + text::flat(command)],
        None => Seq::empty(),
    };
    match &entry.command {
        Some(command) => {
            let flat = text::flattened(command.as_str());
            push_line(&mut out, "command ", flat.as_str(), Ghost(list));
            assert(list.push("command "@ + flat@) =~= list + commands);
        },
        None => {
            assert(list + commands =~= list);
        },
    }
    proof {
        list = list + commands;
    }
    let ghost lines = action_lines(e.actions);
    let mut i: usize = 0;
    assert(list + lines.take(0) =~= list);
    while i < entry.actions.len()
        invariant
            i <= entry.actions.len(),
            e == entry@,
            lines == action_lines(e.actions),
            out@ == text::unlines(list + lines.take(i as int)),
        decreases entry.actions.len() - i,
    {
        let line = text::flattened(entry.actions[i].store_line().as_str());
        push_line(&mut out, "", line.as_str(), Ghost(list + lines.take(i as int)));
        proof {
            reveal_strlit("");
            assert(""@ + line@ =~= line@);
            assert(lines[i as int] == line@);
            assert(list + lines.take(i + 1) =~= (list + lines.take(i as int)).push(line@));
        }
        i += 1;
    }
    proof {
        assert(lines.take(lines.len() as int) =~= lines);
        list = list + lines;
    }
    push_keyed(&mut out, "pacnew ", &entry.pacnew, Ghost(list));
    proof {
        list = list + keyed("pacnew "@, e.pacnew);
    }
    push_keyed(&mut out, "pacsave ", &entry.pacsave, Ghost(list));
    proof {
        list = list + keyed("pacsave "@, e.pacsave);
    }
    push_keyed(&mut out, "hook ", &entry.hooks, Ghost(list));
    proof {
        list = list + keyed("hook "@, e.hooks);
        assert(list =~= seq![header_line(e, offset@)] + body_lines(e));
    }
    let finished = match entry.finished {
        Some(at) => at,
        None => entry.started,
    };
    let mut end = entry.outcome.as_str().to_owned();
    end.push_str(" ");
    end.push_str(time_fmt::render(finished, offset).as_str());
    if let Outcome::Failed { reason } = &entry.outcome {
        end.push_str(" ");
        end.push_str(text::flattened(reason.as_str()).as_str());
    }
    push_line(&mut out, "end ", end.as_str(), Ghost(list));
    proof {
        assert("end "@ + end@ =~= end_line(e, offset@));
        assert(list.push("end "@ + end@) =~= block_lines(e, offset@));
    }
    out
}

// ---------------------------------------------------------------------------------------------
// Reading

/// Reads `<version> <id> <timestamp>`: the id and the start of a block of this version.
pub open spec fn header_of(rest: Seq<char>) -> Option<(Seq<char>, i64)> {
    let w = text::words(rest);
    if w.len() >= 3 && text::unsigned(w[0]) == Some(1int) {
        match dated(w[2]) {
            Some(started) => Some((w[1], started)),
            None => None,
        }
    } else {
        None
    }
}

/// A block of which only the first line was read.
pub open spec fn fresh(id: Seq<char>, started: i64) -> EntryView {
    EntryView {
        id,
        started,
        finished: None,
        root: Seq::empty(),
        dbpath: Seq::empty(),
        command: None,
        actions: Seq::empty(),
        pacnew: Seq::empty(),
        pacsave: Seq::empty(),
        hooks: Seq::empty(),
        outcome: OutcomeView::Interrupted,
    }
}

/// The keyword of a line and what follows the space after it.
pub open spec fn keyword_of(line: Seq<char>) -> (Seq<char>, Seq<char>) {
    match text::split_once(line, ' ') {
        Some(parts) => parts,
        None => (line, Seq::empty()),
    }
}

/// The outcome a word and a reason say.
pub open spec fn outcome_of(word: Seq<char>, reason: Option<Seq<char>>) -> OutcomeView {
    if word == "completed"@ {
        OutcomeView::Completed
    } else if word == "cancelled"@ {
        OutcomeView::Cancelled
    } else if word == "failed"@ {
        OutcomeView::Failed {
            reason: match reason {
                Some(reason) => reason,
                None => "the transaction failed"@,
            },
        }
    } else {
        OutcomeView::Interrupted
    }
}

/// What an `end <outcome> <timestamp> [reason]` line makes of an entry.
pub open spec fn ended(entry: EntryView, value: Seq<char>) -> EntryView {
    match text::split_once(value, ' ') {
        None => EntryView { finished: None, outcome: outcome_of(value, None), ..entry },
        Some((word, rest)) => match text::split_once(rest, ' ') {
            None => EntryView { finished: dated(rest), outcome: outcome_of(word, None), ..entry },
            Some((stamp, reason)) => EntryView {
                finished: dated(stamp),
                outcome: outcome_of(word, Some(reason)),
                ..entry
            },
        },
    }
}

/// What one line of a block makes of the entry it belongs to. An unknown keyword is ignored.
pub open spec fn applied(entry: EntryView, line: Seq<char>) -> EntryView {
    let (keyword, value) = keyword_of(line);
    if keyword == "root"@ {
        EntryView { root: value, ..entry }
    } else if keyword == "dbpath"@ {
        EntryView { dbpath: value, ..entry }
    } else if keyword == "command"@ {
        EntryView { command: Some(value), ..entry }
    } else if keyword == "pacnew"@ {
        EntryView { pacnew: entry.pacnew.push(value), ..entry }
    } else if keyword == "pacsave"@ {
        EntryView { pacsave: entry.pacsave.push(value), ..entry }
    } else if keyword == "hook"@ {
        EntryView { hooks: entry.hooks.push(value), ..entry }
    } else if keyword == "end"@ {
        ended(entry, value)
    } else {
        match history::action_of_line(line) {
            Some(action) => EntryView { actions: entry.actions.push(action), ..entry },
            None => entry,
        }
    }
}

/// How far a reader of the store has come.
#[verifier::ext_equal]
pub struct Reading {
    /// The blocks that are over.
    pub done: Seq<EntryView>,
    /// The block that is being read.
    pub open: Option<EntryView>,
}

impl Reading {
    /// Where a reader starts.
    pub open spec fn start() -> Self {
        Reading { done: Seq::empty(), open: None }
    }

    /// The blocks that are over, and the one that is being read.
    pub open spec fn entries(self) -> Seq<EntryView> {
        match self.open {
            Some(entry) => self.done.push(entry),
            None => self.done,
        }
    }

    /// One line further.
    ///
    /// A `txn` line always ends the block before it. One that cannot be read starts none, so the
    /// lines up to the next are passed over.
    pub open spec fn step(self, line: Seq<char>) -> Self {
        match text::strip_prefix(line, "txn "@) {
            Some(rest) => Reading {
                done: self.entries(),
                open: match header_of(rest) {
                    Some((id, started)) => Some(fresh(id, started)),
                    None => None,
                },
            },
            None => match self.open {
                Some(entry) => Reading { open: Some(applied(entry, line)), ..self },
                None => self,
            },
        }
    }

    /// Where the reader is after `lines`.
    pub open spec fn run(self, lines: Seq<Seq<char>>) -> Self
        decreases lines.len(),
    {
        if lines.len() == 0 {
            self
        } else {
            self.run(lines.drop_last()).step(lines.last())
        }
    }
}

/// Every block of a text, oldest first.
pub open spec fn entries_of(s: Seq<char>) -> Seq<EntryView> {
    Reading::start().run(text::lines(s)).entries()
}

/// Reads `<version> <id> <timestamp>`.
fn parse_header(rest: &[char]) -> (r: Option<(String, i64)>)
    ensures
        match r {
            Some((id, started)) => header_of(rest@) == Some((id@, started)),
            None => header_of(rest@) is None,
        },
{
    let w = text::split_words(rest);
    let ghost views = text::pieces(w@);
    if w.len() < 3 {
        return None;
    }
    assert(views[0] == w@[0]@ && views[1] == w@[1]@ && views[2] == w@[2]@);
    match text::parse_unsigned(w[0], 4294967295) {
        Some(1) => {},
        _ => {
            return None;
        },
    }
    match time_fmt::parse_chars(w[2]) {
        Some(started) => Some((text::text(w[1]), started)),
        None => None,
    }
}

/// The outcome a word and a reason say.
fn parse_outcome(word: &[char], reason: Option<&[char]>) -> (r: Outcome)
    ensures
        r@ == outcome_of(
            word@,
            match reason {
                Some(reason) => Some(reason@),
                None => None,
            },
        ),
{
    if text::spells(word, "completed") {
        Outcome::Completed
    } else if text::spells(word, "cancelled") {
        Outcome::Cancelled
    } else if text::spells(word, "failed") {
        Outcome::Failed {
            reason: match reason {
                Some(reason) => text::text(reason),
                None => "the transaction failed".to_owned(),
            },
        }
    } else {
        Outcome::Interrupted
    }
}

/// Applies an `end <outcome> <timestamp> [reason]` line.
fn apply_end(entry: &mut Entry, value: &[char])
    ensures
        final(entry)@ == ended(old(entry)@, value@),
{
    let ghost was = entry@;
    match text::cut_once(value, ' ') {
        None => {
            entry.finished = None;
            entry.outcome = parse_outcome(value, None);
        },
        Some((word, rest)) => match text::cut_once(rest, ' ') {
            None => {
                entry.finished = time_fmt::parse_chars(rest);
                entry.outcome = parse_outcome(word, None);
            },
            Some((stamp, reason)) => {
                entry.finished = time_fmt::parse_chars(stamp);
                entry.outcome = parse_outcome(word, Some(reason));
            },
        },
    }
    assert(entry@ =~= ended(was, value@));
}

/// Applies one line of a block to the entry it belongs to.
fn apply(entry: &mut Entry, line: &[char])
    ensures
        final(entry)@ == applied(old(entry)@, line@),
{
    let ghost was = entry@;
    let (keyword, value) = match text::cut_once(line, ' ') {
        Some(parts) => parts,
        None => {
            let none = vstd::slice::slice_subrange(line, 0, 0);
            assert(none@ =~= Seq::<char>::empty());
            (line, none)
        },
    };
    assert(keyword_of(line@) == (keyword@, value@));
    if text::spells(keyword, "root") {
        entry.root = text::text(value);
    } else if text::spells(keyword, "dbpath") {
        entry.dbpath = text::text(value);
    } else if text::spells(keyword, "command") {
        entry.command = Some(text::text(value));
    } else if text::spells(keyword, "pacnew") {
        entry.pacnew.push(text::text(value));
    } else if text::spells(keyword, "pacsave") {
        entry.pacsave.push(text::text(value));
    } else if text::spells(keyword, "hook") {
        entry.hooks.push(text::text(value));
    } else if text::spells(keyword, "end") {
        apply_end(entry, value);
    } else {
        let text = text::text(line);
        if let Some(action) = Action::parse_store_line(text.as_str()) {
            entry.actions.push(action);
        }
    }
    assert(entry@ =~= applied(was, line@));
}

/// The view of a block that may be open.
spec fn open_view(open: Option<Entry>) -> Option<EntryView> {
    match open {
        Some(entry) => Some(entry@),
        None => None,
    }
}

/// A block of which only the first line was read.
fn fresh_entry(id: String, started: i64) -> (r: Entry)
    ensures
        r@ == fresh(id@, started),
{
    let r = Entry {
        id,
        started,
        finished: None,
        root: String::new(),
        dbpath: String::new(),
        command: None,
        actions: Vec::new(),
        pacnew: Vec::new(),
        pacsave: Vec::new(),
        hooks: Vec::new(),
        outcome: Outcome::Interrupted,
    };
    assert(r@ =~= fresh(id@, started));
    r
}

/// Parses every complete block in `s`, oldest first.
///
/// Lines before the first `txn` belong to a block whose header `s` does not carry. They are
/// dropped.
pub fn parse(s: &str) -> (r: Vec<Entry>)
    ensures
        history::entry_views(r@) == entries_of(s@),
{
    let all = text::chars(s);
    parse_chars(all.as_slice())
}

/// As [`parse`], of characters.
fn parse_chars(s: &[char]) -> (r: Vec<Entry>)
    ensures
        history::entry_views(r@) == entries_of(s@),
{
    let lines = text::split_lines(s);
    let ghost views = text::pieces(lines@);
    let mut done: Vec<Entry> = Vec::new();
    let mut open: Option<Entry> = None;
    let mut i: usize = 0;
    assert(history::entry_views(done@) =~= Seq::<EntryView>::empty());
    assert(views.take(0) =~= Seq::<Seq<char>>::empty());
    while i < lines.len()
        invariant
            i <= lines.len(),
            views == text::pieces(lines@),
            Reading::start().run(views.take(i as int)) == (Reading {
                done: history::entry_views(done@),
                open: open_view(open),
            }),
        decreases lines.len() - i,
    {
        let line = lines[i];
        proof {
            assert(views.take(i + 1).drop_last() =~= views.take(i as int));
            assert(views.take(i + 1).last() == line@);
        }
        i += 1;
        if let Some(rest) = text::after_text(line, "txn ") {
            if let Some(entry) = open {
                done.push(entry);
            }
            open =
            match parse_header(rest) {
                Some((id, started)) => Some(fresh_entry(id, started)),
                None => None,
            };
            continue;
        }
        open =
        match open {
            Some(entry) => {
                let mut entry = entry;
                apply(&mut entry, line);
                Some(entry)
            },
            None => None,
        };
    }
    assert(views.take(views.len() as int) =~= views);
    if let Some(entry) = open {
        done.push(entry);
    }
    done
}

/// What follows the first line of `bytes`, for a read that began part-way through the file.
pub open spec fn after_newline(bytes: Seq<u8>) -> Seq<u8>
    decreases bytes.len(),
{
    if bytes.len() == 0 {
        Seq::empty()
    } else if bytes[0] == 10 {
        bytes.skip(1)
    } else {
        after_newline(bytes.skip(1))
    }
}

/// What a window holds in whole lines.
///
/// In a window with something before it, the first line is the tail of a line whose start the
/// window does not hold. A window starts mid-character as readily as mid-line, and either way the
/// damage stays inside that line.
pub open spec fn whole_lines(window: Seq<u8>, partial: bool) -> Seq<u8> {
    if partial {
        after_newline(window)
    } else {
        window
    }
}

/// What the window over the last `tail_bytes` of a file holds in whole lines.
pub open spec fn tail_of(file: Seq<u8>, tail_bytes: int) -> Seq<u8> {
    if file.len() > tail_bytes {
        after_newline(file.skip(file.len() - tail_bytes - 1))
    } else {
        file
    }
}

/// What follows the first line of `bytes`.
fn after_first_line<'a>(bytes: &'a [u8]) -> (r: &'a [u8])
    ensures
        r@ == after_newline(bytes@),
{
    let mut i: usize = 0;
    assert(bytes@.skip(0) =~= bytes@);
    while i < bytes.len()
        invariant
            i <= bytes.len(),
            after_newline(bytes@) == after_newline(bytes@.skip(i as int)),
        decreases bytes.len() - i,
    {
        assert(bytes@.skip(i as int).skip(1) =~= bytes@.skip(i + 1));
        if bytes[i] == 10 {
            let rest = vstd::slice::slice_subrange(bytes, i + 1, bytes.len());
            assert(rest@ =~= bytes@.skip(i + 1));
            return rest;
        }
        i += 1;
    }
    let none = vstd::slice::slice_subrange(bytes, i, bytes.len());
    assert(none@ =~= Seq::<u8>::empty());
    none
}

/// Which part of a file of `length` bytes a reader of its tail takes in.
#[derive(Clone, Copy, Debug, Eq, PartialEq, Structural)]
pub struct Window {
    /// Where it starts reading.
    pub start: u64,
    /// How many bytes it reads at most.
    pub span: u64,
    /// Whether something comes before the window.
    pub partial: bool,
}

/// The window over the last `tail_bytes` of a file.
///
/// Where something comes before it, the window is one byte longer: that byte tells a window that
/// starts in a line from one that starts with a line.
pub fn tail_window(length: u64, tail_bytes: u64) -> (r: Window)
    ensures
        r.partial == (length > tail_bytes),
        r.start == if length > tail_bytes {
            length - tail_bytes - 1
        } else {
            0
        },
        r.partial ==> r.start + r.span == length,
        !r.partial ==> r.span == tail_bytes,
{
    if length > tail_bytes {
        Window { start: length - tail_bytes - 1, span: tail_bytes + 1, partial: true }
    } else {
        Window { start: 0, span: tail_bytes, partial: false }
    }
}

/// The last `limit` transactions of what a window holds, newest last.
///
/// The block that the window starts in is the only one that is lost: its header is not in the
/// window, so what remains of it belongs to no block. Bytes that are no text are decoded leniently.
pub fn read_tail(window: &[u8], partial: bool, limit: usize) -> (r: Vec<Entry>)
    ensures
        history::entry_views(r@) == history::newest(
            entries_of(text::lossy_text(whole_lines(window@, partial))),
            Some(limit),
        ),
        text_in(whole_lines(window@, partial)) matches Some(s) ==> history::entry_views(r@)
            == history::newest(entries_of(s), Some(limit)),
{
    let lines = if partial {
        after_first_line(window)
    } else {
        window
    };
    let decoded = text::lossy(lines);
    let all = text::chars(decoded.as_str());
    let mut entries = parse_chars(all.as_slice());
    let ghost views = history::entry_views(entries@);
    if entries.len() > limit {
        let cut: usize = entries.len() - limit;
        let tail = entries.split_off(cut);
        assert(history::entry_views(tail@) =~= views.skip(views.len() - limit));
        return tail;
    }
    entries
}

/// The last `limit` transactions of a file, newest last, out of its last `tail_bytes`.
///
/// A file that is missing has no contents, and no history.
pub fn read_last(contents: &[u8], limit: usize, tail_bytes: u64) -> (r: Vec<Entry>)
    ensures
        history::entry_views(r@) == history::newest(
            entries_of(text::lossy_text(tail_of(contents@, tail_bytes as int))),
            Some(limit),
        ),
        text_in(tail_of(contents@, tail_bytes as int)) matches Some(s) ==> history::entry_views(r@)
            == history::newest(entries_of(s), Some(limit)),
{
    let window = tail_window(contents.len() as u64, tail_bytes);
    let from = window.start as usize;
    let tail = vstd::slice::slice_subrange(contents, from, contents.len());
    assert(tail@ =~= contents@.skip(from as int));
    assert(contents@.skip(0) =~= contents@);
    read_tail(tail, window.partial, limit)
}

// ---------------------------------------------------------------------------------------------
// What is written reads back

/// The entry as its block can carry it: values flattened, and an ending in any case.
pub open spec fn flattened(entry: EntryView) -> EntryView {
    EntryView {
        finished: Some(end_time(entry)),
        root: text::flat(entry.root),
        dbpath: text::flat(entry.dbpath),
        command: match entry.command {
            Some(command) => Some(text::flat(command)),
            None => None,
        },
        pacnew: entry.pacnew.map_values(|v: Seq<char>| text::flat(v)),
        pacsave: entry.pacsave.map_values(|v: Seq<char>| text::flat(v)),
        hooks: entry.hooks.map_values(|v: Seq<char>| text::flat(v)),
        outcome: match entry.outcome {
            OutcomeView::Failed { reason } => OutcomeView::Failed { reason: text::flat(reason) },
            other => other,
        },
        ..entry
    }
}

/// Whether a block carries the entry: its id is a word, its actions are of packages, and its times
/// are rendered so that they read back.
pub open spec fn storable(entry: EntryView, offset: int) -> bool {
    &&& text::is_word(entry.id)
    &&& forall|i: int| 0 <= i < entry.actions.len() ==> (#[trigger] entry.actions[i]).plain()
    &&& time_fmt::readable(entry.started as int, offset)
    &&& time_fmt::readable(end_time(entry) as int, offset)
}

proof fn lemma_run_add(state: Reading, a: Seq<Seq<char>>, b: Seq<Seq<char>>)
    ensures
        state.run(a + b) == state.run(a).run(b),
    decreases b.len(),
{
    if b.len() == 0 {
        assert(a + b =~= a);
    } else {
        assert((a + b).drop_last() =~= a + b.drop_last());
        lemma_run_add(state, a, b.drop_last());
    }
}

proof fn lemma_run_one(state: Reading, line: Seq<char>)
    ensures
        state.run(seq![line]) == state.step(line),
{
    assert(seq![line].drop_last() =~= Seq::<Seq<char>>::empty());
    assert(state.run(Seq::<Seq<char>>::empty()) == state);
}

/// A keyword, a space and a value are read as the keyword and the value.
proof fn lemma_keyword(keyword: Seq<char>, value: Seq<char>)
    requires
        keyword.len() > 0,
        !keyword.contains(' '),
        keyword[0] != 't',
    ensures
        keyword_of(keyword.push(' ') + value) == (keyword, value),
        text::strip_prefix(keyword.push(' ') + value, "txn "@) is None,
{
    reveal_strlit("txn ");
    let line = keyword.push(' ') + value;
    text::lemma_split_head(keyword, ' ', value);
    if text::starts_with(line, "txn "@) {
        assert(line.take(4)[0] == 't');
        assert(line[0] == keyword[0]);
    }
}

/// The keywords are what they are, and no two are the same.
proof fn lemma_keywords()
    ensures
        "root "@ == "root"@.push(' '),
        "dbpath "@ == "dbpath"@.push(' '),
        "command "@ == "command"@.push(' '),
        "pacnew "@ == "pacnew"@.push(' '),
        "pacsave "@ == "pacsave"@.push(' '),
        "hook "@ == "hook"@.push(' '),
        "end "@ == "end"@.push(' '),
        !"root"@.contains(' ') && "root"@.len() == 4 && "root"@[0] == 'r',
        !"dbpath"@.contains(' ') && "dbpath"@.len() == 6 && "dbpath"@[0] == 'd',
        !"command"@.contains(' ') && "command"@.len() == 7 && "command"@[0] == 'c',
        !"pacnew"@.contains(' ') && "pacnew"@.len() == 6 && "pacnew"@[0] == 'p',
        !"pacsave"@.contains(' ') && "pacsave"@.len() == 7 && "pacsave"@[0] == 'p',
        !"hook"@.contains(' ') && "hook"@.len() == 4 && "hook"@[0] == 'h',
        !"end"@.contains(' ') && "end"@.len() == 3 && "end"@[0] == 'e',
{
    reveal_strlit("root ");
    reveal_strlit("root");
    reveal_strlit("dbpath ");
    reveal_strlit("dbpath");
    reveal_strlit("command ");
    reveal_strlit("command");
    reveal_strlit("pacnew ");
    reveal_strlit("pacnew");
    reveal_strlit("pacsave ");
    reveal_strlit("pacsave");
    reveal_strlit("hook ");
    reveal_strlit("hook");
    reveal_strlit("end ");
    reveal_strlit("end");
    assert("root "@ =~= "root"@.push(' '));
    assert("dbpath "@ =~= "dbpath"@.push(' '));
    assert("command "@ =~= "command"@.push(' '));
    assert("pacnew "@ =~= "pacnew"@.push(' '));
    assert("pacsave "@ =~= "pacsave"@.push(' '));
    assert("hook "@ =~= "hook"@.push(' '));
    assert("end "@ =~= "end"@.push(' '));
}

/// No verb of an action is a keyword, and none starts as a header does.
proof fn lemma_verb_is_no_keyword(action: ActionView)
    ensures
        action.verb() != "root"@,
        action.verb() != "dbpath"@,
        action.verb() != "command"@,
        action.verb() != "pacnew"@,
        action.verb() != "pacsave"@,
        action.verb() != "hook"@,
        action.verb() != "end"@,
        action.verb()[0] != 't',
{
    lemma_keywords();
    reveal_strlit("installed");
    reveal_strlit("upgraded");
    reveal_strlit("downgraded");
    reveal_strlit("reinstalled");
    reveal_strlit("removed");
}

/// The first line of a block starts an entry, whatever came before it.
proof fn lemma_header_reads_back(state: Reading, entry: EntryView, offset: int)
    requires
        text::is_word(entry.id),
        time_fmt::readable(entry.started as int, offset),
    ensures
        state.step(header_line(entry, offset)) == (Reading {
            done: state.entries(),
            open: Some(fresh(entry.id, entry.started)),
        }),
{
    reveal_strlit("txn 1 ");
    reveal_strlit("txn ");
    reveal_strlit(" ");
    let stamp = time_fmt::stamp(entry.started as int, offset);
    text::lemma_one_liner_word(entry.id);
    text::lemma_flat(entry.id);
    let line = header_line(entry, offset);
    let tail = entry.id.push(' ') + stamp;
    let rest = seq!['1'].push(' ') + tail;
    pacman_log::lemma_stamp(entry.started, offset);
    assert(line =~= "txn "@ + rest);
    assert(line.take(4) =~= "txn "@);
    assert(line.skip(4) =~= rest);
    text::lemma_words_head(seq!['1'], tail);
    text::lemma_words_head(entry.id, stamp);
    text::lemma_words_whole(stamp);
    assert(text::words(rest) =~= seq![seq!['1'], entry.id, stamp]);
    assert(text::unsigned(seq!['1']) == Some(1int)) by {
        assert(text::is_digit(seq!['1'][0]));
        assert(seq!['1'].drop_last() =~= Seq::<char>::empty());
        assert(text::digits_value(Seq::<char>::empty()) == 0);
    }
}

/// The action lines read back, one by one.
proof fn lemma_actions_read_back(done: Seq<EntryView>, entry: EntryView, actions: Seq<ActionView>)
    requires
        forall|i: int| 0 <= i < actions.len() ==> (#[trigger] actions[i]).plain(),
    ensures
        (Reading { done, open: Some(entry) }).run(
            action_lines(actions),
        ) == (Reading {
            done,
            open: Some(EntryView { actions: entry.actions + actions, ..entry }),
        }),
    decreases actions.len(),
{
    let state = Reading { done, open: Some(entry) };
    if actions.len() == 0 {
        assert(action_lines(actions) =~= Seq::<Seq<char>>::empty());
        assert(entry.actions + actions =~= entry.actions);
    } else {
        let head = actions.drop_last();
        let action = actions.last();
        assert forall|i: int| 0 <= i < head.len() implies (#[trigger] head[i]).plain() by {
            assert(head[i] == actions[i]);
        }
        lemma_actions_read_back(done, entry, head);
        assert(action_lines(actions).drop_last() =~= action_lines(head));
        assert(actions[actions.len() - 1].plain());
        history::a_store_line_reads_back(action);
        text::lemma_flat(action.store_line());
        history::lemma_verbs(action);
        lemma_verb_is_no_keyword(action);
        reveal_strlit(" ");
        let line = action.store_line();
        let value = match action.previous() {
            Some(from) => action.name() + " "@ + (from + " "@ + action.version()),
            None => action.name() + " "@ + action.version(),
        };
        assert(line =~= action.verb().push(' ') + value);
        lemma_keyword(action.verb(), value);
        assert((entry.actions + head).push(action) =~= entry.actions + actions);
    }
}

/// Which list of an entry a keyword adds to.
pub enum Listing {
    /// `.pacnew` files.
    Pacnew,
    /// `.pacsave` files.
    Pacsave,
    /// Hooks.
    Hook,
}

impl Listing {
    /// The keyword and the space after it.
    pub open spec fn prefix(self) -> Seq<char> {
        match self {
            Listing::Pacnew => "pacnew "@,
            Listing::Pacsave => "pacsave "@,
            Listing::Hook => "hook "@,
        }
    }

    /// The entry with more values in the list.
    pub open spec fn extend(self, entry: EntryView, values: Seq<Seq<char>>) -> EntryView {
        match self {
            Listing::Pacnew => EntryView { pacnew: entry.pacnew + values, ..entry },
            Listing::Pacsave => EntryView { pacsave: entry.pacsave + values, ..entry },
            Listing::Hook => EntryView { hooks: entry.hooks + values, ..entry },
        }
    }
}

/// The lines of one list read back, one by one.
proof fn lemma_list_reads_back(
    listing: Listing,
    done: Seq<EntryView>,
    entry: EntryView,
    values: Seq<Seq<char>>,
)
    ensures
        (Reading { done, open: Some(entry) }).run(keyed(listing.prefix(), values)) == (Reading {
            done,
            open: Some(
                listing.extend(entry, values.map_values(|v: Seq<char>| text::flat(v))),
            ),
        }),
    decreases values.len(),
{
    let f = |v: Seq<char>| text::flat(v);
    let prefix = listing.prefix();
    if values.len() == 0 {
        assert(keyed(prefix, values) =~= Seq::<Seq<char>>::empty());
        assert(listing.extend(entry, values.map_values(f)) =~= entry);
    } else {
        let head = values.drop_last();
        let value = values.last();
        lemma_list_reads_back(listing, done, entry, head);
        assert(keyed(prefix, values).drop_last() =~= keyed(prefix, head));
        lemma_keywords();
        match listing {
            Listing::Pacnew => lemma_keyword("pacnew"@, text::flat(value)),
            Listing::Pacsave => lemma_keyword("pacsave"@, text::flat(value)),
            Listing::Hook => lemma_keyword("hook"@, text::flat(value)),
        }
        let before = listing.extend(entry, head.map_values(f));
        assert(head.map_values(f).push(text::flat(value)) =~= values.map_values(f));
        assert(keyed(prefix, values).last() == prefix + text::flat(value));
        assert(applied(before, prefix + text::flat(value)) =~= listing.extend(
            entry,
            values.map_values(f),
        ));
    }
}

/// The words for outcomes are words, and read back.
proof fn lemma_outcome_words(entry: EntryView)
    ensures
        text::one_liner(entry.outcome.word()),
        !entry.outcome.word().contains(' '),
        entry.outcome !is Failed ==> outcome_of(entry.outcome.word(), None) == entry.outcome,
        entry.outcome is Failed ==> outcome_of(
            entry.outcome.word(),
            Some(text::flat(entry.outcome->reason)),
        ) == flattened(entry).outcome,
{
    reveal_strlit("completed");
    reveal_strlit("cancelled");
    reveal_strlit("failed");
    reveal_strlit("interrupted");
    assert("completed"@[1] == 'o');
    assert("cancelled"@[1] == 'a');
    assert("failed"@.len() == 6);
    assert("interrupted"@.len() == 11);
    assert("completed"@.len() == 9);
    assert("cancelled"@.len() == 9);
}

/// The last line of a block reads back.
proof fn lemma_end_reads_back(done: Seq<EntryView>, before: EntryView, entry: EntryView, offset: int)
    requires
        time_fmt::readable(end_time(entry) as int, offset),
    ensures
        (Reading { done, open: Some(before) }).step(end_line(entry, offset)) == (Reading {
            done,
            open: Some(
                EntryView {
                    finished: Some(end_time(entry)),
                    outcome: flattened(entry).outcome,
                    ..before
                },
            ),
        }),
{
    reveal_strlit(" ");
    lemma_keywords();
    lemma_outcome_words(entry);
    let stamp = time_fmt::stamp(end_time(entry) as int, offset);
    let word = entry.outcome.word();
    let line = end_line(entry, offset);
    pacman_log::lemma_stamp(end_time(entry), offset);
    match entry.outcome {
        OutcomeView::Failed { reason } => {
            let tail = stamp.push(' ') + text::flat(reason);
            let value = word.push(' ') + tail;
            assert(line =~= "end"@.push(' ') + value);
            lemma_keyword("end"@, value);
            text::lemma_split_head(word, ' ', tail);
            text::lemma_split_head(stamp, ' ', text::flat(reason));
        },
        _ => {
            let value = word.push(' ') + stamp;
            assert(line =~= "end"@.push(' ') + value);
            lemma_keyword("end"@, value);
            text::lemma_split_head(word, ' ', stamp);
            text::lemma_split_whole(stamp, ' ');
        },
    }
}

/// The last line of a block is one line.
proof fn lemma_end_is_one_line(entry: EntryView, offset: int)
    ensures
        text::one_liner(end_line(entry, offset)),
{
    reveal_strlit(" ");
    reveal_strlit("end ");
    lemma_outcome_words(entry);
    let stamp = time_fmt::stamp(end_time(entry) as int, offset);
    let word = entry.outcome.word();
    time_fmt::a_timestamp_is_one_word(end_time(entry) as int, offset);
    text::lemma_one_liner_word(stamp);
    text::lemma_one_liner_add("end "@, word);
    text::lemma_one_liner_add("end "@ + word, " "@);
    text::lemma_one_liner_add("end "@ + word + " "@, stamp);
    if entry.outcome is Failed {
        let reason = text::flat(entry.outcome->reason);
        text::lemma_flat(entry.outcome->reason);
        text::lemma_one_liner_add("end "@ + word + " "@ + stamp, " "@);
        text::lemma_one_liner_add("end "@ + word + " "@ + stamp + " "@, reason);
    }
}

/// The lines between the first and the last read back.
proof fn lemma_body_reads_back(done: Seq<EntryView>, entry: EntryView, offset: int)
    requires
        storable(entry, offset),
    ensures
        (Reading { done, open: Some(fresh(entry.id, entry.started)) }).run(body_lines(entry)) == (
        Reading {
            done,
            open: Some(
                EntryView {
                    finished: None,
                    outcome: OutcomeView::Interrupted,
                    ..flattened(entry)
                },
            ),
        }),
{
    lemma_keywords();
    let flat = flattened(entry);
    let e0 = fresh(entry.id, entry.started);
    let s0 = Reading { done, open: Some(e0) };
    let first = seq!["root "@ + flat.root, "dbpath "@ + flat.dbpath];
    let second: Seq<Seq<char>> = match entry.command {
        Some(command) => seq!["command "@ + text::flat(command)],
        None => Seq::empty(),
    };
    let third = action_lines(entry.actions);
    let fourth = keyed("pacnew "@, entry.pacnew);
    let fifth = keyed("pacsave "@, entry.pacsave);
    let sixth = keyed("hook "@, entry.hooks);
    // The two paths.
    let e1 = EntryView { root: flat.root, dbpath: flat.dbpath, ..e0 };
    lemma_keyword("root"@, flat.root);
    lemma_keyword("dbpath"@, flat.dbpath);
    assert(first =~= seq!["root "@ + flat.root] + seq!["dbpath "@ + flat.dbpath]);
    lemma_run_add(s0, seq!["root "@ + flat.root], seq!["dbpath "@ + flat.dbpath]);
    lemma_run_one(s0, "root "@ + flat.root);
    lemma_run_one(s0.step("root "@ + flat.root), "dbpath "@ + flat.dbpath);
    let s1 = Reading { done, open: Some(e1) };
    assert(s0.run(first) == s1);
    // The command.
    let e2 = EntryView { command: flat.command, ..e1 };
    let s2 = Reading { done, open: Some(e2) };
    match entry.command {
        Some(command) => {
            lemma_keyword("command"@, text::flat(command));
            lemma_run_one(s1, "command "@ + text::flat(command));
        },
        None => {},
    }
    assert(s1.run(second) == s2);
    // The lists.
    lemma_actions_read_back(done, e2, entry.actions);
    let e3 = EntryView { actions: entry.actions, ..e2 };
    assert(e2.actions + entry.actions =~= entry.actions);
    lemma_list_reads_back(Listing::Pacnew, done, e3, entry.pacnew);
    let e4 = EntryView { pacnew: flat.pacnew, ..e3 };
    assert(Listing::Pacnew.extend(e3, flat.pacnew) =~= e4);
    lemma_list_reads_back(Listing::Pacsave, done, e4, entry.pacsave);
    let e5 = EntryView { pacsave: flat.pacsave, ..e4 };
    assert(Listing::Pacsave.extend(e4, flat.pacsave) =~= e5);
    lemma_list_reads_back(Listing::Hook, done, e5, entry.hooks);
    let e6 = EntryView { hooks: flat.hooks, ..e5 };
    assert(Listing::Hook.extend(e5, flat.hooks) =~= e6);
    // All of them, one after the other.
    lemma_run_add(s0, first, second);
    lemma_run_add(s0, first + second, third);
    lemma_run_add(s0, first + second + third, fourth);
    lemma_run_add(s0, first + second + third + fourth, fifth);
    lemma_run_add(s0, first + second + third + fourth + fifth, sixth);
    assert(e6 =~= (EntryView { finished: None, outcome: OutcomeView::Interrupted, ..flat }));
}

/// Every value of the list is one line.
spec fn flat_list(list: Seq<Seq<char>>) -> bool {
    forall|i: int| 0 <= i < list.len() ==> text::one_liner(#[trigger] list[i])
}

proof fn lemma_flat_list_add(a: Seq<Seq<char>>, b: Seq<Seq<char>>)
    requires
        flat_list(a),
        flat_list(b),
    ensures
        flat_list(a + b),
{
    assert forall|i: int| 0 <= i < (a + b).len() implies text::one_liner(#[trigger] (a + b)[i]) by {
        if i < a.len() {
            assert((a + b)[i] == a[i]);
        } else {
            assert((a + b)[i] == b[i - a.len()]);
        }
    }
}

proof fn lemma_flat_keyed(prefix: Seq<char>, values: Seq<Seq<char>>)
    requires
        text::one_liner(prefix),
    ensures
        flat_list(keyed(prefix, values)),
{
    let list = keyed(prefix, values);
    assert forall|i: int| 0 <= i < list.len() implies text::one_liner(#[trigger] list[i]) by {
        text::lemma_flat(values[i]);
        text::lemma_one_liner_add(prefix, text::flat(values[i]));
    }
}

proof fn lemma_flat_actions(actions: Seq<ActionView>)
    ensures
        flat_list(action_lines(actions)),
{
    let list = action_lines(actions);
    assert forall|i: int| 0 <= i < list.len() implies text::one_liner(#[trigger] list[i]) by {
        text::lemma_flat(actions[i].store_line());
    }
}

/// The lines of a block are each one line.
proof fn lemma_block_lines_flat(entry: EntryView, offset: int)
    ensures
        flat_list(block_lines(entry, offset)),
{
    let flat = flattened(entry);
    let stamp = time_fmt::stamp(entry.started as int, offset);
    reveal_strlit("txn 1 ");
    reveal_strlit(" ");
    time_fmt::a_timestamp_is_one_word(entry.started as int, offset);
    text::lemma_one_liner_word(stamp);
    text::lemma_flat(entry.id);
    text::lemma_one_liner_add("txn 1 "@, text::flat(entry.id));
    text::lemma_one_liner_add("txn 1 "@ + text::flat(entry.id), " "@);
    text::lemma_one_liner_add("txn 1 "@ + text::flat(entry.id) + " "@, stamp);
    lemma_end_is_one_line(entry, offset);
    reveal_strlit("root ");
    reveal_strlit("dbpath ");
    reveal_strlit("command ");
    reveal_strlit("pacnew ");
    reveal_strlit("pacsave ");
    reveal_strlit("hook ");
    text::lemma_flat(entry.root);
    text::lemma_flat(entry.dbpath);
    text::lemma_one_liner_add("root "@, flat.root);
    text::lemma_one_liner_add("dbpath "@, flat.dbpath);
    let first = seq!["root "@ + flat.root, "dbpath "@ + flat.dbpath];
    let second: Seq<Seq<char>> = match entry.command {
        Some(command) => seq!["command "@ + text::flat(command)],
        None => Seq::empty(),
    };
    if entry.command is Some {
        text::lemma_flat(entry.command->0);
        text::lemma_one_liner_add("command "@, text::flat(entry.command->0));
    }
    let third = action_lines(entry.actions);
    lemma_flat_actions(entry.actions);
    lemma_flat_keyed("pacnew "@, entry.pacnew);
    lemma_flat_keyed("pacsave "@, entry.pacsave);
    lemma_flat_keyed("hook "@, entry.hooks);
    let fourth = keyed("pacnew "@, entry.pacnew);
    let fifth = keyed("pacsave "@, entry.pacsave);
    lemma_flat_list_add(first, second);
    lemma_flat_list_add(first + second, third);
    lemma_flat_list_add(first + second + third, fourth);
    lemma_flat_list_add(first + second + third + fourth, fifth);
    lemma_flat_list_add(first + second + third + fourth + fifth, keyed("hook "@, entry.hooks));
    lemma_flat_list_add(seq![header_line(entry, offset)], body_lines(entry));
    lemma_flat_list_add(
        seq![header_line(entry, offset)] + body_lines(entry),
        seq![end_line(entry, offset)],
    );
}

/// Whether a line of a block neither starts nor ends one.
spec fn inner(line: Seq<char>) -> bool {
    line.len() > 0 && line[0] != 't' && line[0] != 'e'
}

/// The lines between the first and the last neither start nor end a block.
proof fn lemma_inner(entry: EntryView)
    ensures
        forall|i: int| 0 <= i < body_lines(entry).len() ==> inner(#[trigger] body_lines(entry)[i]),
{
    let flat = flattened(entry);
    lemma_keywords();
    let first = seq!["root "@ + flat.root, "dbpath "@ + flat.dbpath];
    let second: Seq<Seq<char>> = match entry.command {
        Some(command) => seq!["command "@ + text::flat(command)],
        None => Seq::empty(),
    };
    let third = action_lines(entry.actions);
    let fourth = keyed("pacnew "@, entry.pacnew);
    let fifth = keyed("pacsave "@, entry.pacsave);
    let sixth = keyed("hook "@, entry.hooks);
    assert forall|i: int| 0 <= i < third.len() implies inner(#[trigger] third[i]) by {
        let action = entry.actions[i];
        reveal_strlit("installed");
        reveal_strlit("upgraded");
        reveal_strlit("downgraded");
        reveal_strlit("reinstalled");
        reveal_strlit("removed");
        assert(action.store_line()[0] == action.verb()[0]);
    }
    let all = body_lines(entry);
    let a = first.len() as int;
    let b = a + second.len();
    let c = b + third.len();
    let d = c + fourth.len();
    let e = d + fifth.len();
    assert forall|i: int| 0 <= i < all.len() implies inner(#[trigger] all[i]) by {
        if i < a {
            assert(all[i] == first[i]);
        } else if i < b {
            assert(all[i] == second[i - a]);
        } else if i < c {
            assert(all[i] == third[i - b]);
        } else if i < d {
            assert(all[i] == fourth[i - c]);
        } else if i < e {
            assert(all[i] == fifth[i - d]);
        } else {
            assert(all[i] == sixth[i - e]);
        }
    }
}

/// No value, whichever field holds it, forges a line of a block: the block has the lines it is made
/// of and no other, the first alone starts it, and the last alone ends it.
pub proof fn no_value_forges_a_line(entry: EntryView, offset: int, i: int)
    requires
        0 <= i < block_lines(entry, offset).len(),
    ensures
        text::lines(block(entry, offset)) == block_lines(entry, offset),
        text::starts_with(block_lines(entry, offset)[i], "txn "@) <==> i == 0,
        text::starts_with(block_lines(entry, offset)[i], "end "@) <==> i == block_lines(
            entry,
            offset,
        ).len() - 1,
{
    lemma_block_lines_flat(entry, offset);
    text::lemma_lines_of_unlines(block_lines(entry, offset));
    lemma_inner(entry);
    reveal_strlit("txn 1 ");
    reveal_strlit("txn ");
    reveal_strlit("end ");
    let lines = block_lines(entry, offset);
    let line = lines[i];
    if text::starts_with(line, "txn "@) {
        assert(line.take(4)[0] == line[0]);
    }
    if text::starts_with(line, "end "@) {
        assert(line.take(4)[0] == line[0]);
    }
    if i == 0 {
        assert(line == header_line(entry, offset));
        assert(line.take(4) =~= "txn "@);
    } else if i == lines.len() - 1 {
        assert(line == end_line(entry, offset));
        assert(line.take(4) =~= "end "@);
    } else {
        assert(line == body_lines(entry)[i - 1]);
    }
}

/// Appending a block adds its entry to the history and changes nothing that was there.
///
/// The entry comes back with its values flattened: no value can forge a line of a block. It holds whatever the history holds, a block cut short included, as
/// long as the history ends with a whole line.
pub proof fn an_appended_block_reads_back(history: Seq<char>, entry: EntryView, offset: int)
    requires
        text::ends_line(history),
        storable(entry, offset),
    ensures
        entries_of(history + block(entry, offset)) == entries_of(history).push(flattened(entry)),
        text::ends_line(history + block(entry, offset)),
{
    let lines = block_lines(entry, offset);
    lemma_block_lines_flat(entry, offset);
    text::lemma_lines_of_unlines(lines);
    text::lemma_lines_add(history, block(entry, offset));
    let before = Reading::start().run(text::lines(history));
    lemma_run_add(Reading::start(), text::lines(history), lines);
    let header = seq![header_line(entry, offset)];
    let end = seq![end_line(entry, offset)];
    lemma_run_add(before, header + body_lines(entry), end);
    lemma_run_add(before, header, body_lines(entry));
    lemma_run_one(before, header_line(entry, offset));
    lemma_header_reads_back(before, entry, offset);
    lemma_body_reads_back(before.entries(), entry, offset);
    let open = EntryView {
        finished: None,
        outcome: OutcomeView::Interrupted,
        ..flattened(entry)
    };
    let middle = Reading { done: before.entries(), open: Some(open) };
    lemma_run_one(middle, end_line(entry, offset));
    lemma_end_reads_back(before.entries(), open, entry, offset);
    assert(before.run(lines) == (Reading {
        done: before.entries(),
        open: Some(flattened(entry)),
    }));
    let whole = history + block(entry, offset);
    assert(block(entry, offset).len() > 0);
    assert(whole.last() == block(entry, offset).last());
}

/// An entry without line breaks in it that has an ending is its own flattened form, so it comes
/// back as it was written.
pub proof fn an_entry_of_single_lines_is_unchanged(entry: EntryView)
    requires
        entry.finished is Some,
        text::one_liner(entry.root),
        text::one_liner(entry.dbpath),
        entry.command is Some ==> text::one_liner(entry.command->0),
        forall|i: int| 0 <= i < entry.pacnew.len() ==> text::one_liner(#[trigger] entry.pacnew[i]),
        forall|i: int|
            0 <= i < entry.pacsave.len() ==> text::one_liner(#[trigger] entry.pacsave[i]),
        forall|i: int| 0 <= i < entry.hooks.len() ==> text::one_liner(#[trigger] entry.hooks[i]),
        entry.outcome is Failed ==> text::one_liner(entry.outcome->reason),
    ensures
        flattened(entry) == entry,
{
    let f = |v: Seq<char>| text::flat(v);
    text::lemma_flat(entry.root);
    text::lemma_flat(entry.dbpath);
    if entry.command is Some {
        text::lemma_flat(entry.command->0);
    }
    if entry.outcome is Failed {
        text::lemma_flat(entry.outcome->reason);
    }
    assert forall|i: int| 0 <= i < entry.pacnew.len() implies text::flat(entry.pacnew[i])
        == #[trigger] entry.pacnew[i] by {
        text::lemma_flat(entry.pacnew[i]);
    }
    assert forall|i: int| 0 <= i < entry.pacsave.len() implies text::flat(entry.pacsave[i])
        == #[trigger] entry.pacsave[i] by {
        text::lemma_flat(entry.pacsave[i]);
    }
    assert forall|i: int| 0 <= i < entry.hooks.len() implies text::flat(entry.hooks[i])
        == #[trigger] entry.hooks[i] by {
        text::lemma_flat(entry.hooks[i]);
    }
    assert(entry.pacnew.map_values(f) =~= entry.pacnew);
    assert(entry.pacsave.map_values(f) =~= entry.pacsave);
    assert(entry.hooks.map_values(f) =~= entry.hooks);
    assert(flattened(entry) =~= entry);
}

/// The bytes of two texts, one after the other.
proof fn lemma_encode_add(a: Seq<char>, b: Seq<char>)
    ensures
        encode_utf8(a + b) == encode_utf8(a) + encode_utf8(b),
    decreases a.len(),
{
    if a.len() == 0 {
        assert(a + b =~= b);
        assert(encode_utf8(a) + encode_utf8(b) =~= encode_utf8(b));
    } else {
        lemma_encode_add(a.drop_first(), b);
        assert((a + b).drop_first() =~= a.drop_first() + b);
        assert(encode_utf8(a + b) =~= encode_utf8(a) + encode_utf8(b));
    }
}

/// The first newline after bytes that hold none.
proof fn lemma_after_newline(head: Seq<u8>, rest: Seq<u8>)
    requires
        !head.contains(10),
    ensures
        after_newline(head.push(10) + rest) == rest,
    decreases head.len(),
{
    let all = head.push(10) + rest;
    if head.len() == 0 {
        assert(all.skip(1) =~= rest);
    } else {
        let tail = head.skip(1);
        assert(head.contains(head[0]));
        if tail.contains(10) {
            let i = choose|i: int| 0 <= i < tail.len() && tail[i] == 10;
            assert(head[i + 1] == 10);
        }
        lemma_after_newline(tail, rest);
        assert(all.skip(1) =~= tail.push(10) + rest);
    }
}

/// A window over lines that starts anywhere loses the lines before it and the one it starts in.
proof fn lemma_window_over_lines(lines: Seq<Seq<char>>, start: int, rest: Seq<u8>) -> (n: int)
    requires
        flat_list(lines),
        0 <= start < encode_utf8(text::unlines(lines)).len(),
    ensures
        1 <= n <= lines.len(),
        after_newline(encode_utf8(text::unlines(lines)).skip(start) + rest) == encode_utf8(
            text::unlines(lines.skip(n)),
        ) + rest,
    decreases lines.len(),
{
    assert(lines.len() > 0) by {
        if lines.len() == 0 {
            assert(encode_utf8(text::unlines(lines)) =~= Seq::<u8>::empty());
        }
    }
    let line = lines[0];
    let more = lines.skip(1);
    assert(text::one_liner(line));
    assert(flat_list(more)) by {
        assert forall|i: int| 0 <= i < more.len() implies text::one_liner(#[trigger] more[i]) by {
            assert(more[i] == lines[i + 1]);
        }
    }
    assert(lines =~= seq![line] + more);
    text::lemma_unlines_add(seq![line], more);
    assert(seq![line].drop_last() =~= Seq::<Seq<char>>::empty());
    assert(text::unlines(Seq::<Seq<char>>::empty()) =~= Seq::<char>::empty());
    assert(text::unlines(seq![line]) =~= line.push('\n'));
    lemma_encode_add(line.push('\n'), text::unlines(more));
    bytes::lemma_encoded_line(line);
    let head = encode_utf8(line);
    let tail = encode_utf8(text::unlines(more));
    let all = encode_utf8(text::unlines(lines));
    assert(all =~= head.push(10) + tail);
    if start <= head.len() {
        let part = head.skip(start);
        if part.contains(10) {
            let i = choose|i: int| 0 <= i < part.len() && part[i] == 10;
            assert(head[i + start] == 10);
        }
        lemma_after_newline(part, tail + rest);
        assert(all.skip(start) + rest =~= part.push(10) + (tail + rest));
        1
    } else {
        let n = lemma_window_over_lines(more, start - head.len() - 1, rest);
        assert(all.skip(start) =~= tail.skip(start - head.len() - 1));
        assert(more.skip(n) =~= lines.skip(n + 1));
        n + 1
    }
}

/// Lines that start no block leave a reader where it started.
proof fn lemma_headless(lines: Seq<Seq<char>>)
    requires
        forall|i: int| 0 <= i < lines.len() ==> !text::starts_with(#[trigger] lines[i], "txn "@),
    ensures
        Reading::start().run(lines) == Reading::start(),
    decreases lines.len(),
{
    if lines.len() > 0 {
        let fewer = lines.drop_last();
        assert forall|i: int| 0 <= i < fewer.len() implies !text::starts_with(
            #[trigger] fewer[i],
            "txn "@,
        ) by {
            assert(fewer[i] == lines[i]);
        }
        lemma_headless(fewer);
        assert(!text::starts_with(lines[lines.len() - 1], "txn "@));
    }
}

/// A block is read in the same way whatever came before it.
proof fn lemma_block_after(state: Reading, lines: Seq<Seq<char>>)
    requires
        lines.len() > 0,
        text::starts_with(lines[0], "txn "@),
    ensures
        state.run(lines).done == state.entries() + Reading::start().run(lines).done,
        state.run(lines).open == Reading::start().run(lines).open,
    decreases lines.len(),
{
    if lines.len() == 1 {
        assert(lines =~= seq![lines[0]]);
        lemma_run_one(state, lines[0]);
        lemma_run_one(Reading::start(), lines[0]);
        assert(state.entries() + Seq::<EntryView>::empty() =~= state.entries());
    } else {
        let fewer = lines.drop_last();
        assert(fewer[0] == lines[0]);
        lemma_block_after(state, fewer);
        let here = state.run(fewer);
        let there = Reading::start().run(fewer);
        assert(here.entries() =~= state.entries() + there.entries());
        assert(here.step(lines.last()).done =~= state.entries() + there.step(lines.last()).done);
    }
}

/// The blocks of entries, one after the other.
pub open spec fn blocks(entries: Seq<EntryView>, offset: int) -> Seq<char>
    decreases entries.len(),
{
    if entries.len() == 0 {
        Seq::empty()
    } else {
        blocks(entries.drop_last(), offset) + block(entries.last(), offset)
    }
}

/// Whether the block of each entry reads back as that entry.
pub open spec fn each_reads_back(entries: Seq<EntryView>, offset: int) -> bool {
    forall|i: int|
        0 <= i < entries.len() ==> entries_of(block(#[trigger] entries[i], offset))
            == seq![entries[i]]
}

/// Blocks are read one after the other.
proof fn lemma_blocks_read_back(headless: Seq<Seq<char>>, entries: Seq<EntryView>, offset: int)
    requires
        each_reads_back(entries, offset),
        flat_list(headless),
        forall|i: int|
            0 <= i < headless.len() ==> !text::starts_with(#[trigger] headless[i], "txn "@),
    ensures
        entries_of(text::unlines(headless) + blocks(entries, offset)) == entries,
        text::ends_line(text::unlines(headless) + blocks(entries, offset)),
    decreases entries.len(),
{
    let front = text::unlines(headless);
    text::lemma_lines_of_unlines(headless);
    if entries.len() == 0 {
        assert(front + blocks(entries, offset) =~= front);
        lemma_headless(headless);
        assert(entries_of(front) =~= entries);
    } else {
        let fewer = entries.drop_last();
        let last = entries.last();
        assert(each_reads_back(fewer, offset)) by {
            assert forall|i: int| 0 <= i < fewer.len() implies entries_of(
                block(#[trigger] fewer[i], offset),
            ) == seq![fewer[i]] by {
                assert(entries_of(block(entries[i], offset)) == seq![entries[i]]);
            }
        }
        lemma_blocks_read_back(headless, fewer, offset);
        let before = front + blocks(fewer, offset);
        let one = block(last, offset);
        let lines = block_lines(last, offset);
        assert(front + blocks(entries, offset) =~= before + one);
        text::lemma_lines_add(before, one);
        no_value_forges_a_line(last, offset, 0);
        lemma_run_add(Reading::start(), text::lines(before), lines);
        let state = Reading::start().run(text::lines(before));
        lemma_block_after(state, lines);
        let alone = Reading::start().run(lines);
        assert(entries_of(block(entries[entries.len() - 1], offset)) == seq![last]);
        assert(state.run(lines).entries() =~= fewer + alone.entries());
        assert(fewer + seq![last] =~= entries);
        lemma_block_lines_flat(last, offset);
        text::lemma_lines_of_unlines(lines);
        assert(one.len() > 0);
        assert((before + one).last() == one.last());
    }
}

/// The blocks of the first entries and of the others.
proof fn lemma_blocks_add(a: Seq<EntryView>, b: Seq<EntryView>, offset: int)
    ensures
        blocks(a + b, offset) == blocks(a, offset) + blocks(b, offset),
    decreases b.len(),
{
    if b.len() == 0 {
        assert(a + b =~= a);
        assert(blocks(a, offset) + blocks(b, offset) =~= blocks(a, offset));
    } else {
        assert((a + b).drop_last() =~= a + b.drop_last());
        lemma_blocks_add(a, b.drop_last(), offset);
        assert(blocks(a, offset) + blocks(b.drop_last(), offset) + block(b.last(), offset)
            =~= blocks(a, offset) + (blocks(b.drop_last(), offset) + block(b.last(), offset)));
    }
}

/// How many bytes the blocks of entries are.
pub open spec fn width(entries: Seq<EntryView>, offset: int) -> int {
    encode_utf8(blocks(entries, offset)).len() as int
}

/// The bytes of a file whose blocks are those of `before`, that of `cut` and those of `kept`.
proof fn lemma_file_parts(
    before: Seq<EntryView>,
    cut: EntryView,
    kept: Seq<EntryView>,
    offset: int,
)
    ensures
        encode_utf8(blocks(seq![cut] + kept, offset)) == encode_utf8(block(cut, offset))
            + encode_utf8(blocks(kept, offset)),
        encode_utf8(blocks(before + (seq![cut] + kept), offset)) == encode_utf8(
            blocks(before, offset),
        ) + (encode_utf8(block(cut, offset)) + encode_utf8(blocks(kept, offset))),
{
    let more = seq![cut] + kept;
    lemma_blocks_add(before, more, offset);
    lemma_blocks_add(seq![cut], kept, offset);
    assert(seq![cut].drop_last() =~= Seq::<EntryView>::empty());
    assert(blocks(Seq::<EntryView>::empty(), offset) =~= Seq::<char>::empty());
    assert(blocks(seq![cut], offset) =~= blocks(seq![cut].drop_last(), offset) + block(
        cut,
        offset,
    ));
    assert(blocks(seq![cut], offset) =~= block(cut, offset));
    lemma_encode_add(blocks(before, offset), blocks(more, offset));
    lemma_encode_add(block(cut, offset), blocks(kept, offset));
}

/// A window that starts in the block of `cut` gives the entries of the blocks after it.
proof fn lemma_cut_block(cut: EntryView, kept: Seq<EntryView>, offset: int, start: int)
    requires
        each_reads_back(kept, offset),
        0 <= start < encode_utf8(block(cut, offset)).len(),
    ensures
        text_in(
            after_newline(
                encode_utf8(block(cut, offset)).skip(start) + encode_utf8(blocks(kept, offset)),
            ),
        ) matches Some(s) && entries_of(s) == kept,
{
    let lines = block_lines(cut, offset);
    lemma_block_lines_flat(cut, offset);
    let lost = lemma_window_over_lines(lines, start, encode_utf8(blocks(kept, offset)));
    let left = lines.skip(lost);
    assert forall|i: int| 0 <= i < left.len() implies !text::starts_with(
        #[trigger] left[i],
        "txn "@,
    ) by {
        no_value_forges_a_line(cut, offset, i + lost);
        assert(left[i] == lines[i + lost]);
    }
    assert forall|i: int| 0 <= i < left.len() implies text::one_liner(#[trigger] left[i]) by {
        assert(left[i] == lines[i + lost]);
    }
    lemma_blocks_read_back(left, kept, offset);
    lemma_whole_text(text::unlines(left), blocks(kept, offset));
}

/// The bytes of two texts, one after the other, are text.
proof fn lemma_whole_text(a: Seq<char>, b: Seq<char>)
    ensures
        text_in(encode_utf8(a) + encode_utf8(b)) == Some(a + b),
{
    lemma_encode_add(a, b);
    encode_utf8_valid_utf8(a + b);
    encode_utf8_decode_utf8(a + b);
}

/// Every whole block inside the window comes back, and only the block that the window starts in is
/// lost.
///
/// `whole` is how many blocks lie in the last `tail_bytes` of the file. [`read_last`] returns the
/// last of them, up to its limit.
pub proof fn every_whole_block_in_the_window_is_read(
    entries: Seq<EntryView>,
    offset: int,
    tail_bytes: int,
    whole: int,
)
    requires
        each_reads_back(entries, offset),
        0 <= whole <= entries.len(),
        0 <= tail_bytes,
        width(entries.skip(entries.len() - whole), offset) <= tail_bytes,
        whole < entries.len() ==> width(entries.skip(entries.len() - whole - 1), offset)
            > tail_bytes,
    ensures
        text_in(tail_of(encode_utf8(blocks(entries, offset)), tail_bytes)) matches Some(s)
            && entries_of(s) == entries.skip(entries.len() - whole),
{
    let n = entries.len() - whole;
    let kept = entries.skip(n);
    assert(each_reads_back(kept, offset)) by {
        assert forall|i: int| 0 <= i < kept.len() implies entries_of(
            block(#[trigger] kept[i], offset),
        ) == seq![kept[i]] by {
            assert(entries_of(block(entries[i + n], offset)) == seq![entries[i + n]]);
        }
    }
    if whole == entries.len() {
        let none = Seq::<Seq<char>>::empty();
        assert(kept =~= entries);
        lemma_blocks_read_back(none, entries, offset);
        assert(text::unlines(none) + blocks(entries, offset) =~= blocks(entries, offset));
        encode_utf8_valid_utf8(blocks(entries, offset));
        encode_utf8_decode_utf8(blocks(entries, offset));
    } else {
        let before = entries.take(n - 1);
        let cut = entries[n - 1];
        assert(entries.skip(n - 1) =~= seq![cut] + kept);
        assert(entries =~= before + (seq![cut] + kept));
        lemma_file_parts(before, cut, kept, offset);
        let file = encode_utf8(blocks(entries, offset));
        let head = encode_utf8(blocks(before, offset));
        let body = encode_utf8(block(cut, offset));
        let rest = encode_utf8(blocks(kept, offset));
        let at = file.len() - tail_bytes - 1;
        let start = at - head.len();
        assert(0 <= start < body.len());
        assert(file.skip(at) =~= body.skip(start) + rest);
        lemma_cut_block(cut, kept, offset, start);
    }
}

/// A line before the first `txn` line belongs to no block.
pub proof fn a_line_outside_a_block_is_dropped(line: Seq<char>, rest: Seq<char>)
    requires
        text::one_liner(line),
        !text::starts_with(line, "txn "@),
    ensures
        entries_of(line.push('\n') + rest) == entries_of(rest),
{
    if line.len() > 0 {
        assert(line.contains(line[line.len() - 1]));
    }
    text::lemma_lines_head(line, rest);
    lemma_run_add(Reading::start(), seq![line], text::lines(rest));
    lemma_run_one(Reading::start(), line);
}

} // verus!
